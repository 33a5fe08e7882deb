use evo::observation::candidate::CandidateObservation;
use evo::observation::evidence::{Evidence, FactValue, ObservedFact};
use evo::observation::pipeline::canonicalize;
use evo::observation::provenance::{ObservationSource, Provenance};
use evo::observation::schema::ObservationSchema;
use std::collections::HashMap;
use std::time::SystemTime;

fn test_candidate_components() -> (ObservationSchema, Provenance, Evidence) {
    let observation_schema = ObservationSchema::new("test_schema", 1).unwrap();
    let source = ObservationSource::new("test_source").unwrap();
    let provenance = Provenance::new(source, SystemTime::now(), HashMap::new());
    let fact = ObservedFact::new("key", FactValue::Boolean(true)).unwrap();
    let evidence = Evidence::new(vec![fact]);
    (observation_schema, provenance, evidence)
}

#[test]
fn candidate_constructs_successfully() {
    let (observation_schema, provenance, evidence) = test_candidate_components();
    let candidate = CandidateObservation::new(
        observation_schema.clone(),
        provenance.clone(),
        evidence.clone(),
    );
    assert_eq!(candidate.schema(), &observation_schema);
    assert_eq!(candidate.provenance(), &provenance);
    assert_eq!(candidate.evidence(), &evidence);
}

#[test]
fn candidate_into_parts_returns_ownership() {
    let (observation_schema, provenance, evidence) = test_candidate_components();
    let candidate = CandidateObservation::new(
        observation_schema.clone(),
        provenance.clone(),
        evidence.clone(),
    );
    let (out_schema, out_prov, out_ev) = candidate.into_parts();
    assert_eq!(out_schema, observation_schema);
    assert_eq!(out_prov, provenance);
    assert_eq!(out_ev, evidence);
}

#[test]
fn candidate_clone_produces_equal_value() {
    let (observation_schema, provenance, evidence) = test_candidate_components();
    let candidate = CandidateObservation::new(observation_schema, provenance, evidence);
    let cloned = candidate.clone();
    assert_eq!(candidate, cloned);
}

#[test]
fn canonicalization_is_identity_until_schema_definitions_exist() {
    let schema = ObservationSchema::new("test-schema", 1).unwrap();
    let source = ObservationSource::new("test-source").unwrap();
    let provenance = Provenance::new(source, SystemTime::now(), HashMap::new());
    let fact = ObservedFact::new("test_fact", FactValue::Text("  needs_trim  ".into())).unwrap();
    let evidence = Evidence::new(vec![fact]);
    let candidate = CandidateObservation::new(schema.clone(), provenance, evidence);
    let expected = candidate.clone();
    let result = canonicalize(candidate);
    assert!(result.is_ok());
    assert_eq!(result.unwrap(), expected);
}
