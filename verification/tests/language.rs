use evo::observation::evidence::FactValue;
use evo::observation::language::ObservationConcept;
use evo::observation::observed_state::{ObservedState, INSERTION_LINE_KEY, SELECTION_START_KEY};
use std::collections::HashMap;

#[test]
fn concept_names_and_schemas_are_frozen() {
    let c = ObservationConcept::WindowFocusGained { subject: "editor".into() };
    assert_eq!(c.name(), "WindowFocusGained");
    assert_eq!(c.schema().to_string(), "OBS-WINDOW-FOCUS-GAINED/3");
    let c = ObservationConcept::InputActivity { subject: "doc".into(), keys: 1, clicks: 0, scrolls: 0 };
    assert_eq!(c.schema().to_string(), "OBS-INPUT-ACTIVITY/1");
}

#[test]
fn surface_subject_is_the_least_subject() {
    let c = ObservationConcept::ContinuationSurface {
        subjects: vec!["/tmp/c.md".into(), "/tmp/a.md".into(), "/tmp/b.md".into()],
    };
    assert_eq!(c.subject(), "/tmp/a.md");
    let e = c.evidence();
    let names: Vec<&str> = e.facts().iter().map(|f| f.name()).collect();
    assert_eq!(names, vec!["ContinuationSurface", "ContinuationSubject", "ContinuationSubject"]);
    assert_eq!(e.facts()[2].value(), &FactValue::Text("/tmp/c.md".into()));
}

#[test]
fn co_membership_concepts_carry_two_facts() {
    let c = ObservationConcept::WorkGrouped { first: "/a".into(), second: "/b".into() };
    let e = c.evidence();
    assert_eq!(e.len(), 2);
    assert_eq!(e.facts()[1].name(), "CoMember");
    assert_eq!(c.subject(), "/a");
}

#[test]
fn input_counts_become_integer_facts() {
    let c = ObservationConcept::InputActivity { subject: "doc".into(), keys: 7, clicks: 2, scrolls: 0 };
    let e = c.evidence();
    assert_eq!(e.fact("Clicks").unwrap().value(), &FactValue::Integer(2));
    assert_eq!(e.fact("Scrolls").unwrap().value(), &FactValue::Integer(0));
}

#[test]
fn state_round_trips_through_canonical_context() {
    let state = ObservedState::new()
        .with_document_locator("/work/automation-x.ts")
        .with_focused_role("AXTextArea")
        .with_focused_identifier("editor")
        .with_selection(418, 12)
        .with_insertion_line(37);
    let mut context = HashMap::new();
    state.write_context(&mut context);
    assert_eq!(ObservedState::from_context(&context), Some(state));
}

#[test]
fn missing_or_malformed_state_is_not_fabricated() {
    let mut context = HashMap::new();
    context.insert(SELECTION_START_KEY.into(), "12".into());
    context.insert(INSERTION_LINE_KEY.into(), "not-a-number".into());
    assert_eq!(ObservedState::from_context(&context), None);
}

#[test]
fn state_text_is_trimmed_and_bounded() {
    let state = ObservedState::new().with_window_title("  Report  ").with_focused_role("   ");
    assert_eq!(state.window_title(), Some("Report"));
    assert_eq!(state.focused_role(), None);
    let long = "x".repeat(4097);
    assert_eq!(ObservedState::new().with_document_locator(&long).document_locator(), None);
    let fits = "é".repeat(2048);
    assert_eq!(ObservedState::new().with_document_locator(&fits).document_locator(), Some(fits.as_str()));
    let over = "é".repeat(2049);
    assert_eq!(ObservedState::new().with_document_locator(&over).document_locator(), None);
    assert!(ObservedState::new().is_empty());
}

#[test]
fn observed_state_round_trips_through_a_fresh_context() {
    let state = ObservedState::new().with_window_title("Report").with_selection(3, 7);
    let context = state.to_context();
    assert_eq!(context.len(), 3);
    assert_eq!(ObservedState::from_context(&context), Some(state));
}

#[test]
fn empty_state_reads_back_as_nothing() {
    let context = ObservedState::new().to_context();
    assert!(context.is_empty());
    assert_eq!(ObservedState::from_context(&context), None);
}
