use evo::observation::provenance::{ObservationSource, Provenance, SourceError};
use std::collections::HashMap;
use std::time::SystemTime;

#[test]
fn source_valid_construction_succeeds() {
    assert!(ObservationSource::new("accessibility_api").is_ok());
}

#[test]
fn source_empty_name_is_rejected() {
    assert_eq!(ObservationSource::new(""), Err(SourceError::Empty));
}

#[test]
fn source_as_str_returns_name() {
    let src = ObservationSource::new("file_watcher").unwrap();
    assert_eq!(src.as_str(), "file_watcher");
}

#[test]
fn source_display_equals_name() {
    let src = ObservationSource::new("input_monitor").unwrap();
    assert_eq!(src.to_string(), "input_monitor");
}

#[test]
fn source_equal_names_are_equal() {
    let a = ObservationSource::new("accessibility_api").unwrap();
    let b = ObservationSource::new("accessibility_api").unwrap();
    assert_eq!(a, b);
}

#[test]
fn source_different_names_are_not_equal() {
    let a = ObservationSource::new("accessibility_api").unwrap();
    let b = ObservationSource::new("file_watcher").unwrap();
    assert_ne!(a, b);
}

#[test]
fn source_clone_produces_equal_value() {
    let original = ObservationSource::new("accessibility_api").unwrap();
    assert_eq!(original.clone(), original);
}

#[test]
fn source_usable_as_hashmap_key() {
    let src = ObservationSource::new("accessibility_api").unwrap();
    let mut map: HashMap<ObservationSource, u32> = HashMap::new();
    map.insert(src.clone(), 1);
    assert_eq!(map.get(&src), Some(&1));
}

#[test]
fn source_error_displays_meaningful_message() {
    let msg = SourceError::Empty.to_string();
    assert!(msg.contains("source") || msg.contains("empty") || msg.contains("name"));
}

#[test]
fn source_error_implements_std_error() {
    // The error carries its message as a method on a plain value.
    let e = SourceError::Empty;
    assert_eq!(e.clone(), SourceError::Empty);
    assert!(!e.to_string().is_empty());
}

#[test]
fn provenance_constructs_with_empty_context() {
    let src = ObservationSource::new("accessibility_api").unwrap();
    let now = SystemTime::now();
    let _p = Provenance::new(src, now, HashMap::new());
}

#[test]
fn provenance_constructs_with_populated_context() {
    let src = ObservationSource::new("accessibility_api").unwrap();
    let now = SystemTime::now();
    let mut ctx = HashMap::new();
    ctx.insert("observer_version".to_string(), "0.1.0".to_string());
    ctx.insert("session_id".to_string(), "abc123".to_string());
    let p = Provenance::new(src, now, ctx);
    assert_eq!(p.context().len(), 2);
}

#[test]
fn provenance_source_accessor_returns_correct_value() {
    let src = ObservationSource::new("file_watcher").unwrap();
    let p = Provenance::new(src.clone(), SystemTime::now(), HashMap::new());
    assert_eq!(p.source(), &src);
}

#[test]
fn provenance_observed_at_accessor_returns_correct_value() {
    let src = ObservationSource::new("accessibility_api").unwrap();
    let now = SystemTime::now();
    let p = Provenance::new(src, now, HashMap::new());
    assert_eq!(p.observed_at(), now);
}

#[test]
fn provenance_context_accessor_returns_map() {
    let src = ObservationSource::new("accessibility_api").unwrap();
    let mut ctx = HashMap::new();
    ctx.insert("k".to_string(), "v".to_string());
    let p = Provenance::new(src, SystemTime::now(), ctx);
    assert_eq!(p.context().get("k"), Some(&"v".to_string()));
}

#[test]
fn provenance_empty_context_is_valid() {
    let src = ObservationSource::new("input_monitor").unwrap();
    let p = Provenance::new(src, SystemTime::now(), HashMap::new());
    assert!(p.context().is_empty());
}

#[test]
fn identical_provenances_are_equal() {
    let src_a = ObservationSource::new("accessibility_api").unwrap();
    let src_b = ObservationSource::new("accessibility_api").unwrap();
    let ts = SystemTime::UNIX_EPOCH;
    let p1 = Provenance::new(src_a, ts, HashMap::new());
    let p2 = Provenance::new(src_b, ts, HashMap::new());
    assert_eq!(p1, p2);
}

#[test]
fn different_source_provenances_are_not_equal() {
    let ts = SystemTime::UNIX_EPOCH;
    let p1 = Provenance::new(ObservationSource::new("accessibility_api").unwrap(), ts, HashMap::new());
    let p2 = Provenance::new(ObservationSource::new("file_watcher").unwrap(), ts, HashMap::new());
    assert_ne!(p1, p2);
}

#[test]
fn different_timestamp_provenances_are_not_equal() {
    let src_a = ObservationSource::new("accessibility_api").unwrap();
    let src_b = ObservationSource::new("accessibility_api").unwrap();
    let t1 = SystemTime::UNIX_EPOCH;
    let t2 = SystemTime::UNIX_EPOCH + std::time::Duration::from_secs(1);
    let p1 = Provenance::new(src_a, t1, HashMap::new());
    let p2 = Provenance::new(src_b, t2, HashMap::new());
    assert_ne!(p1, p2);
}

#[test]
fn provenance_clone_produces_equal_value() {
    let src = ObservationSource::new("accessibility_api").unwrap();
    let mut ctx = HashMap::new();
    ctx.insert("k".to_string(), "v".to_string());
    let original = Provenance::new(src, SystemTime::UNIX_EPOCH, ctx);
    let cloned = original.clone();
    assert_eq!(original, cloned);
}

#[test]
fn provenance_display_is_non_empty() {
    let src = ObservationSource::new("accessibility_api").unwrap();
    let p = Provenance::new(src, SystemTime::now(), HashMap::new());
    assert!(!p.to_string().is_empty());
}

#[test]
fn provenance_display_contains_source_name() {
    let src = ObservationSource::new("accessibility_api").unwrap();
    let p = Provenance::new(src, SystemTime::now(), HashMap::new());
    assert!(p.to_string().contains("accessibility_api"));
}
