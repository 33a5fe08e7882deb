use evo::observation::evidence::{Evidence, FactError, FactValue, ObservedFact};

#[test]
fn fact_value_text_equality() {
    assert_eq!(FactValue::Text("Xcode".into()), FactValue::Text("Xcode".into()));
    assert_ne!(FactValue::Text("Xcode".into()), FactValue::Text("Safari".into()));
}

#[test]
fn fact_value_integer_equality() {
    assert_eq!(FactValue::Integer(42), FactValue::Integer(42));
    assert_ne!(FactValue::Integer(42), FactValue::Integer(0));
}

#[test]
fn fact_value_boolean_equality() {
    assert_eq!(FactValue::Boolean(true), FactValue::Boolean(true));
    assert_ne!(FactValue::Boolean(true), FactValue::Boolean(false));
}

#[test]
fn fact_value_bytes_equality() {
    assert_eq!(FactValue::Bytes(vec![1, 2, 3]), FactValue::Bytes(vec![1, 2, 3]));
    assert_ne!(FactValue::Bytes(vec![1, 2, 3]), FactValue::Bytes(vec![4, 5, 6]));
}

#[test]
fn fact_value_variants_are_not_equal_across_types() {
    assert_ne!(FactValue::Text("42".into()), FactValue::Integer(42));
}

#[test]
fn fact_value_clone_produces_equal_value() {
    let v = FactValue::Text("Xcode".into());
    assert_eq!(v.clone(), v);
}

#[test]
fn fact_value_display_text() {
    assert_eq!(FactValue::Text("Xcode".into()).to_string(), "\"Xcode\"");
}

#[test]
fn fact_value_display_integer() {
    assert_eq!(FactValue::Integer(-7).to_string(), "-7");
}

#[test]
fn fact_value_display_boolean_true() {
    assert_eq!(FactValue::Boolean(true).to_string(), "true");
}

#[test]
fn fact_value_display_boolean_false() {
    assert_eq!(FactValue::Boolean(false).to_string(), "false");
}

#[test]
fn fact_value_display_bytes_shows_length() {
    let display = FactValue::Bytes(vec![0u8; 5]).to_string();
    assert!(display.contains("5"));
    assert_eq!(display, "<5 bytes>");
}

#[test]
fn fact_value_bytes_empty_is_valid() {
    let v = FactValue::Bytes(vec![]);
    assert_eq!(FactValue::Bytes(vec![]), v);
}

#[test]
fn observed_fact_valid_construction_succeeds() {
    let f = ObservedFact::new("app_name", FactValue::Text("Xcode".into()));
    assert!(f.is_ok());
}

#[test]
fn observed_fact_empty_name_is_rejected() {
    let result = ObservedFact::new("", FactValue::Boolean(true));
    assert_eq!(result, Err(FactError::EmptyName));
}

#[test]
fn observed_fact_blank_name_is_rejected() {
    let result = ObservedFact::new(" \t ", FactValue::Boolean(true));
    assert_eq!(result, Err(FactError::EmptyName));
}

#[test]
fn observed_fact_name_accessor() {
    let f = ObservedFact::new("dwell_us", FactValue::Integer(5000)).unwrap();
    assert_eq!(f.name(), "dwell_us");
}

#[test]
fn observed_fact_value_accessor() {
    let f = ObservedFact::new("is_focused", FactValue::Boolean(true)).unwrap();
    assert_eq!(f.value(), &FactValue::Boolean(true));
}

#[test]
fn observed_fact_has_no_mutation_path_through_public_api() {
    let f = ObservedFact::new("app_name", FactValue::Text("Xcode".into())).unwrap();
    let _: &str = f.name();
    let _: &FactValue = f.value();
}

#[test]
fn observed_facts_with_same_name_and_value_are_equal() {
    let a = ObservedFact::new("app_name", FactValue::Text("Xcode".into())).unwrap();
    let b = ObservedFact::new("app_name", FactValue::Text("Xcode".into())).unwrap();
    assert_eq!(a, b);
}

#[test]
fn observed_facts_with_different_names_are_not_equal() {
    let a = ObservedFact::new("app_name", FactValue::Text("Xcode".into())).unwrap();
    let b = ObservedFact::new("window_title", FactValue::Text("Xcode".into())).unwrap();
    assert_ne!(a, b);
}

#[test]
fn observed_facts_with_different_values_are_not_equal() {
    let a = ObservedFact::new("app_name", FactValue::Text("Xcode".into())).unwrap();
    let b = ObservedFact::new("app_name", FactValue::Text("Safari".into())).unwrap();
    assert_ne!(a, b);
}

#[test]
fn observed_fact_clone_produces_equal_value() {
    let f = ObservedFact::new("app_name", FactValue::Text("Xcode".into())).unwrap();
    assert_eq!(f.clone(), f);
}

#[test]
fn observed_fact_display_contains_name_and_value() {
    let f = ObservedFact::new("app_name", FactValue::Text("Xcode".into())).unwrap();
    let s = f.to_string();
    assert!(s.contains("app_name"));
    assert!(s.contains("Xcode"));
    assert_eq!(s, "app_name=\"Xcode\"");
}

#[test]
fn fact_error_displays_meaningful_message() {
    let msg = FactError::EmptyName.to_string();
    assert!(msg.contains("name") || msg.contains("empty"));
}

#[test]
fn fact_error_implements_std_error() {
    // The library types carry their message as a method; the error is a
    // plain value with a stable, non-empty message.
    let e = FactError::EmptyName;
    assert_eq!(e.clone(), FactError::EmptyName);
    assert!(!e.to_string().is_empty());
}

#[test]
fn evidence_constructs_with_empty_facts() {
    let e = Evidence::new(vec![]);
    assert!(e.is_empty());
}

#[test]
fn evidence_constructs_with_single_fact() {
    let f = ObservedFact::new("app_name", FactValue::Text("Xcode".into())).unwrap();
    let e = Evidence::new(vec![f]);
    assert_eq!(e.len(), 1);
}

#[test]
fn evidence_constructs_with_multiple_facts() {
    let facts = vec![
        ObservedFact::new("app_name", FactValue::Text("Xcode".into())).unwrap(),
        ObservedFact::new("dwell_us", FactValue::Integer(12_000)).unwrap(),
        ObservedFact::new("is_focused", FactValue::Boolean(true)).unwrap(),
    ];
    let e = Evidence::new(facts);
    assert_eq!(e.len(), 3);
}

#[test]
fn evidence_facts_returns_all_facts() {
    let f = ObservedFact::new("app_name", FactValue::Text("Xcode".into())).unwrap();
    let e = Evidence::new(vec![f.clone()]);
    assert_eq!(e.facts(), &[f]);
}

#[test]
fn evidence_fact_lookup_by_name_returns_match() {
    let f = ObservedFact::new("app_name", FactValue::Text("Xcode".into())).unwrap();
    let e = Evidence::new(vec![f]);
    let found = e.fact("app_name").unwrap();
    assert_eq!(found.name(), "app_name");
}

#[test]
fn evidence_fact_lookup_missing_name_returns_none() {
    let e = Evidence::new(vec![]);
    assert!(e.fact("nonexistent").is_none());
}

#[test]
fn evidence_fact_lookup_returns_first_match() {
    let f1 = ObservedFact::new("tag", FactValue::Text("alpha".into())).unwrap();
    let f2 = ObservedFact::new("tag", FactValue::Text("beta".into())).unwrap();
    let e = Evidence::new(vec![f1, f2]);
    let found = e.fact("tag").unwrap();
    assert_eq!(found.value(), &FactValue::Text("alpha".into()));
}

#[test]
fn evidence_has_no_mutation_path_through_public_api() {
    let e = Evidence::new(vec![]);
    let _: &[ObservedFact] = e.facts();
    let _: usize = e.len();
    let _: bool = e.is_empty();
}

#[test]
fn identical_evidence_bodies_are_equal() {
    let make = || {
        Evidence::new(vec![ObservedFact::new("app_name", FactValue::Text("Xcode".into())).unwrap()])
    };
    assert_eq!(make(), make());
}

#[test]
fn evidence_with_different_facts_is_not_equal() {
    let a = Evidence::new(vec![ObservedFact::new("app_name", FactValue::Text("Xcode".into())).unwrap()]);
    let b = Evidence::new(vec![ObservedFact::new("app_name", FactValue::Text("Safari".into())).unwrap()]);
    assert_ne!(a, b);
}

#[test]
fn evidence_clone_produces_equal_value() {
    let e = Evidence::new(vec![ObservedFact::new("app_name", FactValue::Text("Xcode".into())).unwrap()]);
    assert_eq!(e.clone(), e);
}

#[test]
fn evidence_display_is_non_empty() {
    let e = Evidence::new(vec![]);
    assert!(!e.to_string().is_empty());
}

#[test]
fn evidence_display_reflects_fact_count() {
    let e = Evidence::new(vec![
        ObservedFact::new("app_name", FactValue::Text("Xcode".into())).unwrap(),
        ObservedFact::new("dwell_us", FactValue::Integer(5000)).unwrap(),
    ]);
    assert!(e.to_string().contains("2"));
}
