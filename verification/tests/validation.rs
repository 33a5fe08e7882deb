use evo::observation::candidate::CandidateObservation;
use evo::observation::errors::{ObservationError, ValidationError};
use evo::observation::evidence::{Evidence, FactValue, ObservedFact};
use evo::observation::language::ObservationConcept;
use evo::observation::observation::{Observation, ObservationId};
use evo::observation::pipeline::{accept, verify_integrity};
use evo::observation::provenance::{ObservationSource, Provenance};
use evo::observation::schema::ObservationSchema;
use evo::observation::validation::{validate, validate_continuation_surface};
use std::collections::HashMap;
use std::time::SystemTime;

fn schema() -> ObservationSchema {
    ObservationSchema::window_focus_gained_v1()
}

fn provenance() -> Provenance {
    let source = ObservationSource::new("accessibility_api").unwrap();
    Provenance::new(source, SystemTime::UNIX_EPOCH, HashMap::new())
}

fn candidate(schema: ObservationSchema) -> CandidateObservation {
    let concept = ObservationConcept::WindowFocusGained { subject: "editor-window".into() };
    CandidateObservation::new(schema, provenance(), concept.evidence())
}

fn input_candidate(keys: i64, clicks: i64, scrolls: i64) -> CandidateObservation {
    let concept = ObservationConcept::InputActivity {
        subject: "file:///work/report.md".into(),
        keys: keys as u64,
        clicks: clicks as u64,
        scrolls: scrolls as u64,
    };
    CandidateObservation::new(ObservationSchema::input_activity_v1(), provenance(), concept.evidence())
}

#[test]
fn input_activity_with_counts_passes_validation() {
    let schema = ObservationSchema::input_activity_v1();
    let candidate = input_candidate(43, 2, 0);
    assert!(validate(&candidate, &schema).is_ok());
}

#[test]
fn input_activity_all_zero_bucket_is_rejected() {
    let schema = ObservationSchema::input_activity_v1();
    let candidate = input_candidate(0, 0, 0);
    assert!(validate(&candidate, &schema).is_err());
}

#[test]
fn input_activity_negative_counts_are_rejected() {
    let schema = ObservationSchema::input_activity_v1();
    let candidate = input_candidate(-1, 0, 0);
    assert!(validate(&candidate, &schema).is_err());
}

#[test]
fn input_activity_survives_full_acceptance() {
    let schema = ObservationSchema::input_activity_v1();
    let candidate = input_candidate(61, 4, 12);
    let observation = accept(candidate, &schema).expect("valid input activity is accepted");
    assert_eq!(observation.schema(), &schema);
    assert_eq!(observation.evidence().fact("Keys").unwrap().value(), &FactValue::Integer(61));
}

#[test]
fn matching_schema_passes_validation() {
    let schema = schema();
    let result = validate(&candidate(schema.clone()), &schema);
    assert!(result.is_ok());
}

#[test]
fn different_schema_is_rejected() {
    let candidate_schema = ObservationSchema::window_focus_gained_v1();
    let supplied_schema = ObservationSchema::file_saved_v1();
    let result = validate(&candidate(candidate_schema.clone()), &supplied_schema);
    assert_eq!(result, Err(ValidationError::UnknownSchema(candidate_schema)));
}

#[test]
fn schema_version_must_match() {
    let candidate_schema = ObservationSchema::window_focus_gained_v1();
    let supplied_schema = ObservationSchema::new("OBS-WINDOW-FOCUS-GAINED", 2).unwrap();
    let result = validate(&candidate(candidate_schema.clone()), &supplied_schema);
    assert_eq!(result, Err(ValidationError::UnknownSchema(candidate_schema)));
}

#[test]
fn unsupported_schema_is_rejected() {
    let candidate_schema = ObservationSchema::new("application_activated", 1).unwrap();
    let result = validate(&candidate(candidate_schema.clone()), &candidate_schema);
    assert_eq!(result, Err(ValidationError::UnknownSchema(candidate_schema)));
}

#[test]
fn valid_fact_passes_validation() {
    let schema = schema();
    let fact = ObservedFact::new("WindowFocusGained", FactValue::Text("editor-window".into())).unwrap();
    let evidence = Evidence::new(vec![fact]);
    let candidate = CandidateObservation::new(schema.clone(), provenance(), evidence);
    assert!(validate(&candidate, &schema).is_ok());
}

#[test]
fn empty_evidence_is_rejected() {
    let schema = schema();
    let candidate = CandidateObservation::new(schema.clone(), provenance(), Evidence::new(vec![]));
    assert_eq!(
        validate(&candidate, &schema),
        Err(ValidationError::InvalidStructure("evidence must contain exactly 1 canonical fact(s)".into()))
    );
}

#[test]
fn co_membership_schemas_require_their_value_concept() {
    let schema = ObservationSchema::repository_membership_v1();
    let facts = vec![
        ObservedFact::new("RepositoryMembership", FactValue::Text("/repo/a.rs".into())).unwrap(),
        ObservedFact::new("Repository", FactValue::Text("/repo/.git".into())).unwrap(),
    ];
    let candidate = CandidateObservation::new(schema.clone(), provenance(), Evidence::new(facts));
    assert!(validate(&candidate, &schema).is_ok());

    let partial = CandidateObservation::new(
        schema.clone(),
        provenance(),
        Evidence::new(vec![
            ObservedFact::new("RepositoryMembership", FactValue::Text("/repo/a.rs".into())).unwrap(),
        ]),
    );
    assert!(validate(&partial, &schema).is_err());

    let grouped = ObservationSchema::work_grouped_v1();
    let grouped_facts = vec![
        ObservedFact::new("WorkGrouped", FactValue::Text("/repo/a.rs".into())).unwrap(),
        ObservedFact::new("CoMember", FactValue::Text("https://example.com".into())).unwrap(),
    ];
    let candidate = CandidateObservation::new(grouped.clone(), provenance(), Evidence::new(grouped_facts));
    assert!(validate(&candidate, &grouped).is_ok());
}

fn surface_candidate(subjects: &[&str]) -> (ObservationSchema, CandidateObservation) {
    let schema = ObservationSchema::continuation_surface_v1();
    let concept = ObservationConcept::ContinuationSurface {
        subjects: subjects.iter().map(|subject| subject.to_string()).collect(),
    };
    let candidate = CandidateObservation::new(schema.clone(), provenance(), concept.evidence());
    (schema, candidate)
}

#[test]
fn valid_continuation_surface_passes_validation() {
    let (schema, candidate) = surface_candidate(&["/tmp/a.md", "/tmp/b.md"]);
    assert!(validate(&candidate, &schema).is_ok());

    let (schema, candidate) = surface_candidate(&["/tmp/a.md", "/tmp/b.md", "/tmp/c.md"]);
    assert!(validate(&candidate, &schema).is_ok());
}

#[test]
fn continuation_surface_with_single_subject_is_rejected() {
    let (schema, candidate) = surface_candidate(&["/tmp/a.md"]);
    let result = validate(&candidate, &schema);
    assert_eq!(
        result,
        Err(ValidationError::InvalidStructure(
            "a continuation surface must name at least two distinct subjects".into()
        ))
    );
}

#[test]
fn continuation_surface_with_duplicate_subjects_is_rejected() {
    let schema = ObservationSchema::continuation_surface_v1();
    let facts = vec![
        ObservedFact::new("ContinuationSurface", FactValue::Text("/tmp/a.md".into())).unwrap(),
        ObservedFact::new("ContinuationSubject", FactValue::Text("/tmp/a.md".into())).unwrap(),
    ];
    let candidate = CandidateObservation::new(schema.clone(), provenance(), Evidence::new(facts));
    let result = validate(&candidate, &schema);
    assert_eq!(
        result,
        Err(ValidationError::InvalidStructure("a continuation surface must not name a subject twice".into()))
    );
}

#[test]
fn continuation_surface_without_declaration_fact_is_rejected() {
    let schema = ObservationSchema::continuation_surface_v1();
    let facts = vec![
        ObservedFact::new("ContinuationSubject", FactValue::Text("/tmp/a.md".into())).unwrap(),
        ObservedFact::new("ContinuationSubject", FactValue::Text("/tmp/b.md".into())).unwrap(),
    ];
    let candidate = CandidateObservation::new(schema.clone(), provenance(), Evidence::new(facts));
    let result = validate(&candidate, &schema);
    assert!(matches!(result, Err(ValidationError::InvalidStructure(_))));
}

#[test]
fn continuation_surface_requires_the_value_concept_for_extra_subjects() {
    let schema = ObservationSchema::continuation_surface_v1();
    let facts = vec![
        ObservedFact::new("ContinuationSurface", FactValue::Text("/tmp/a.md".into())).unwrap(),
        ObservedFact::new("WrongConcept", FactValue::Text("/tmp/b.md".into())).unwrap(),
    ];
    let candidate = CandidateObservation::new(schema.clone(), provenance(), Evidence::new(facts));
    let result = validate(&candidate, &schema);
    assert!(matches!(result, Err(ValidationError::InvalidStructure(_))));
}

#[test]
fn continuation_surface_requires_canonical_ordering() {
    let schema = ObservationSchema::continuation_surface_v1();
    let facts = vec![
        ObservedFact::new("ContinuationSurface", FactValue::Text("/tmp/b.md".into())).unwrap(),
        ObservedFact::new("ContinuationSubject", FactValue::Text("/tmp/a.md".into())).unwrap(),
    ];
    let candidate = CandidateObservation::new(schema.clone(), provenance(), Evidence::new(facts));
    let result = validate(&candidate, &schema);
    assert!(matches!(result, Err(ValidationError::InvalidStructure(_))));

    let (schema, candidate) = surface_candidate(&["/tmp/b.md", "/tmp/a.md", "/tmp/c.md"]);
    assert!(validate(&candidate, &schema).is_ok());
    let declaration = candidate.evidence().facts()[0].value().clone();
    assert_eq!(declaration, FactValue::Text("/tmp/a.md".into()));
}

#[test]
fn continuation_surface_subject_order_does_not_change_identity() {
    let first = ObservationConcept::ContinuationSurface {
        subjects: vec!["/tmp/b.md".into(), "/tmp/a.md".into()],
    };
    let second = ObservationConcept::ContinuationSurface {
        subjects: vec!["/tmp/a.md".into(), "/tmp/b.md".into()],
    };
    assert_eq!(first.evidence(), second.evidence());
}

#[test]
fn continuation_surface_schema_is_canonical_and_reference_only() {
    let schema = ObservationSchema::continuation_surface_v1();
    assert!(schema.is_canonical());
    assert!(schema.is_reference_only());
    assert_eq!(schema.canonical_fact_name(), Some("ContinuationSurface"));
}

#[test]
fn accept_pipeline_fails_validation_for_mismatched_schema() {
    let candidate_schema = ObservationSchema::new("candidate_schema", 1).unwrap();
    let source = ObservationSource::new("test_source").unwrap();
    let provenance = Provenance::new(source, SystemTime::now(), HashMap::new());
    let evidence = Evidence::new(vec![ObservedFact::new("key", FactValue::Boolean(true)).unwrap()]);
    let candidate = CandidateObservation::new(candidate_schema.clone(), provenance, evidence);
    let registered_schema = ObservationSchema::new("registered_schema", 1).unwrap();
    let result = accept(candidate, &registered_schema);
    assert!(result.is_err());
    match result.unwrap_err() {
        ObservationError::Validation(ValidationError::UnknownSchema(err_schema)) => {
            assert_eq!(err_schema, candidate_schema);
        }
        _ => panic!("Expected ObservationError::Validation(UnknownSchema)"),
    }
}

#[test]
fn accept_preserves_every_component_of_a_valid_candidate() {
    let schema = ObservationSchema::file_saved_v1();
    let concept = ObservationConcept::FileSaved { subject: "/work/report.md".into() };
    let evidence = concept.evidence();
    let candidate = CandidateObservation::new(schema.clone(), provenance(), evidence.clone());
    let observation = accept(candidate, &schema).unwrap();
    assert_eq!(observation.schema(), &schema);
    assert_eq!(observation.provenance(), &provenance());
    assert_eq!(observation.evidence(), &evidence);
}

#[test]
fn verify_integrity_succeeds_for_valid_observation() {
    let id = ObservationId::new();
    let schema = ObservationSchema::new("test-schema", 1).unwrap();
    let source = ObservationSource::new("test-source").unwrap();
    let provenance = Provenance::new(source, SystemTime::now(), HashMap::new());
    let evidence = Evidence::new(vec![ObservedFact::new("key", FactValue::Boolean(true)).unwrap()]);
    let observation = Observation::new(id, schema, provenance, evidence);
    assert!(verify_integrity(&observation).is_ok());
}

#[test]
fn observation_construction_and_accessors() {
    let id = ObservationId::new();
    let schema = ObservationSchema::new("test-schema", 1).unwrap();
    let source = ObservationSource::new("test-source").unwrap();
    let provenance = Provenance::new(source, SystemTime::now(), HashMap::new());
    let fact = ObservedFact::new("key", FactValue::Text("value".into())).unwrap();
    let evidence = Evidence::new(vec![fact]);
    let observation = Observation::new(id.clone(), schema.clone(), provenance.clone(), evidence.clone());
    assert_eq!(observation.id(), &id);
    assert_eq!(observation.schema(), &schema);
    assert_eq!(observation.provenance(), &provenance);
    assert_eq!(observation.evidence(), &evidence);
}

fn counts_candidate(names: [&str; 3]) -> CandidateObservation {
    let f = |n: &str, v: FactValue| ObservedFact::new(n, v).unwrap();
    let facts = vec![
        f("InputActivity", FactValue::Text("s".into())),
        f(names[0], FactValue::Integer(1)),
        f(names[1], FactValue::Integer(1)),
        f(names[2], FactValue::Integer(1)),
    ];
    CandidateObservation::new(ObservationSchema::input_activity_v1(), provenance(), Evidence::new(facts))
}

#[test]
fn input_activity_counts_must_come_in_order() {
    let schema = ObservationSchema::input_activity_v1();
    assert!(validate(&counts_candidate(["Keys", "Clicks", "Scrolls"]), &schema).is_ok());
    assert!(matches!(
        validate(&counts_candidate(["Keys", "Keys", "Keys"]), &schema),
        Err(ValidationError::InvalidStructure(_))
    ));
    assert!(matches!(
        validate(&counts_candidate(["Clicks", "Keys", "Scrolls"]), &schema),
        Err(ValidationError::InvalidStructure(_))
    ));
}

#[test]
fn evidence_of_every_valid_concept_passes_validation() {
    let concepts = vec![
        ObservationConcept::WindowFocusGained { subject: "editor".into() },
        ObservationConcept::FileSaved { subject: "/work/a.md".into() },
        ObservationConcept::URLNavigated { subject: "https://example.com".into() },
        ObservationConcept::CommitMade { subject: "abc123".into() },
        ObservationConcept::WorkDesignated { subject: "thesis".into() },
        ObservationConcept::RepositoryMembership { member: "/repo/a.rs".into(), repository: "/repo".into() },
        ObservationConcept::WorkGrouped { first: "a".into(), second: "b".into() },
        ObservationConcept::InputActivity { subject: "/work/a.md".into(), keys: 3, clicks: 0, scrolls: 0 },
        ObservationConcept::ContinuationSurface { subjects: vec!["zeta".into(), "alpha".into(), "mid".into()] },
    ];
    for c in concepts {
        let candidate = CandidateObservation::new(c.schema(), provenance(), c.evidence());
        assert!(validate(&candidate, &c.schema()).is_ok(), "{c:?}");
    }
}

#[test]
fn new_observation_ids_are_version_7_and_in_creation_order() {
    let a = ObservationId::new();
    let b = ObservationId::default();
    for id in [a, b] {
        let u = id.as_uuid();
        assert_eq!(u.get_version_num(), 7);
        assert_eq!(u.get_variant(), uuid::Variant::RFC4122);
        assert_eq!(u.as_u128(), id.bits());
        assert_eq!((id.bits() >> 76) & 0xf, 7);
        assert_eq!((id.bits() >> 62) & 0x3, 2);
    }
    assert!(a < b);
    assert_eq!(ObservationId::from_bits(42).bits(), 42);
}

#[test]
fn continuation_surface_rule_accepts_only_canonical_records() {
    let fact = |n: &str, v: &str| ObservedFact::new(n, FactValue::Text(v.into())).unwrap();
    let good = vec![
        fact("ContinuationSurface", "/a.md"),
        fact("ContinuationSubject", "/b.md"),
        fact("ContinuationSubject", "/c.md"),
    ];
    assert!(validate_continuation_surface(&good, "ContinuationSurface").is_ok());
    let unordered = vec![
        fact("ContinuationSurface", "/a.md"),
        fact("ContinuationSubject", "/c.md"),
        fact("ContinuationSubject", "/b.md"),
    ];
    assert!(matches!(
        validate_continuation_surface(&unordered, "ContinuationSurface"),
        Err(ValidationError::InvalidStructure(_))
    ));
    let one = vec![fact("ContinuationSurface", "/a.md")];
    assert!(matches!(
        validate_continuation_surface(&one, "ContinuationSurface"),
        Err(ValidationError::InvalidStructure(_))
    ));
}
