use evo::observation::schema::{ObservationSchema, SchemaError};
use std::collections::hash_map::DefaultHasher;
use std::collections::HashMap;
use std::hash::{Hash, Hasher};

#[test]
fn valid_construction_succeeds() {
    let schema = ObservationSchema::new("app_focus", 1);
    assert!(schema.is_ok());
}

#[test]
fn empty_name_is_rejected() {
    let result = ObservationSchema::new("", 0);
    assert_eq!(result, Err(SchemaError::EmptyName));
}

#[test]
fn version_zero_is_valid() {
    let schema = ObservationSchema::new("window_switch", 0).unwrap();
    assert_eq!(schema.version(), 0);
}

#[test]
fn version_max_u32_is_valid() {
    let schema = ObservationSchema::new("window_switch", u32::MAX).unwrap();
    assert_eq!(schema.version(), u32::MAX);
}

#[test]
fn name_accessor_returns_correct_value() {
    let schema = ObservationSchema::new("file_open", 3).unwrap();
    assert_eq!(schema.name(), "file_open");
}

#[test]
fn version_accessor_returns_correct_value() {
    let schema = ObservationSchema::new("file_open", 3).unwrap();
    assert_eq!(schema.version(), 3);
}

#[test]
fn schema_fields_are_not_mutable_through_public_api() {
    let schema = ObservationSchema::new("app_focus", 1).unwrap();
    let _name: &str = schema.name();
    let _version: u32 = schema.version();
}

#[test]
fn same_name_and_version_are_equal() {
    let a = ObservationSchema::new("app_focus", 1).unwrap();
    let b = ObservationSchema::new("app_focus", 1).unwrap();
    assert_eq!(a, b);
    assert!(a.same(&b));
}

#[test]
fn different_version_is_not_equal() {
    let v1 = ObservationSchema::new("app_focus", 1).unwrap();
    let v2 = ObservationSchema::new("app_focus", 2).unwrap();
    assert_ne!(v1, v2);
    assert!(!v1.same(&v2));
}

#[test]
fn window_focus_v2_is_canonical_not_reference_only_with_the_same_fact_name() {
    let v1 = ObservationSchema::window_focus_gained_v1();
    let v2 = ObservationSchema::window_focus_gained_v2();
    assert_ne!(v1, v2);
    assert_eq!(v1.name(), v2.name());
    assert_eq!(v1.version(), 1);
    assert_eq!(v2.version(), 2);
    assert!(v1.is_canonical());
    assert!(v2.is_canonical());
    assert!(!v1.is_reference_only());
    assert!(!v2.is_reference_only());
    assert_eq!(v1.canonical_fact_name(), Some("WindowFocusGained"));
    assert_eq!(v2.canonical_fact_name(), Some("WindowFocusGained"));
}

#[test]
fn different_name_same_version_is_not_equal() {
    let a = ObservationSchema::new("app_focus", 1).unwrap();
    let b = ObservationSchema::new("window_switch", 1).unwrap();
    assert_ne!(a, b);
}

#[test]
fn equal_schemas_hash_identically() {
    let a = ObservationSchema::new("app_focus", 1).unwrap();
    let b = ObservationSchema::new("app_focus", 1).unwrap();
    let hash_of = |s: &ObservationSchema| {
        let mut h = DefaultHasher::new();
        s.hash(&mut h);
        h.finish()
    };
    assert_eq!(hash_of(&a), hash_of(&b));
}

#[test]
fn schema_usable_as_hashmap_key() {
    let schema = ObservationSchema::new("app_focus", 1).unwrap();
    let mut map: HashMap<ObservationSchema, &str> = HashMap::new();
    map.insert(schema.clone(), "registered");
    assert_eq!(map.get(&schema), Some(&"registered"));
}

#[test]
fn clone_produces_equal_schema() {
    let original = ObservationSchema::new("file_open", 5).unwrap();
    let cloned = original.clone();
    assert_eq!(original, cloned);
}

#[test]
fn display_format_is_name_slash_version() {
    let schema = ObservationSchema::new("app_focus", 2).unwrap();
    assert_eq!(schema.to_string(), "app_focus/2");
}

#[test]
fn display_format_version_zero() {
    let schema = ObservationSchema::new("window_switch", 0).unwrap();
    assert_eq!(schema.to_string(), "window_switch/0");
}

#[test]
fn schema_error_displays_meaningful_message() {
    let msg = SchemaError::EmptyName.to_string();
    assert!(!msg.is_empty());
    assert!(msg.contains("name") || msg.contains("empty"));
}

#[test]
fn schema_error_implements_std_error() {
    // The error carries its message as a method on a plain value.
    let e = SchemaError::EmptyName;
    assert_eq!(e.to_string(), "observation schema name must not be empty");
}

#[test]
fn canonical_schemas_name_their_fact() {
    let cases = [
        (ObservationSchema::file_saved_v1(), "FileSaved"),
        (ObservationSchema::url_navigated_v1(), "URLNavigated"),
        (ObservationSchema::commit_made_v1(), "CommitMade"),
        (ObservationSchema::work_designated_v1(), "WorkDesignated"),
        (ObservationSchema::repository_membership_v1(), "RepositoryMembership"),
        (ObservationSchema::work_grouped_v1(), "WorkGrouped"),
        (ObservationSchema::continuation_surface_v1(), "ContinuationSurface"),
        (ObservationSchema::input_activity_v1(), "InputActivity"),
        (ObservationSchema::window_focus_gained_v3(), "WindowFocusGained"),
    ];
    for (schema, fact) in cases.iter() {
        assert!(schema.is_canonical());
        assert_eq!(schema.canonical_fact_name(), Some(*fact));
    }
    let unknown = ObservationSchema::new("OBS-FILE-SAVED", 2).unwrap();
    assert!(!unknown.is_canonical());
    assert_eq!(unknown.canonical_fact_name(), None);
}

#[test]
fn user_declarations_are_the_word_schemas() {
    assert!(ObservationSchema::work_designated_v1().is_user_declaration());
    assert!(ObservationSchema::work_grouped_v1().is_user_declaration());
    assert!(ObservationSchema::continuation_surface_v1().is_user_declaration());
    assert!(!ObservationSchema::repository_membership_v1().is_user_declaration());
    assert!(ObservationSchema::repository_membership_v1().is_reference_only());
    assert!(!ObservationSchema::file_saved_v1().is_reference_only());
}
