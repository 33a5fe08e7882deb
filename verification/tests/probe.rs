use evo::ledger::probe::{extract_json_str, extract_json_u64, probe_event};

#[test]
fn json_number_is_the_digits_after_the_key() {
    let row = r#"{"ts_ms":1700000000123,"dwell_ms":42,"app_id":"Safari"}"#;
    assert_eq!(extract_json_u64(row, "ts_ms"), Some(1700000000123));
    assert_eq!(extract_json_u64(row, "dwell_ms"), Some(42));
}

#[test]
fn json_number_is_missing_without_key_or_digits() {
    let row = r#"{"ts_ms":null,"app_id":"Safari"}"#;
    assert_eq!(extract_json_u64(row, "ts_ms"), None);
    assert_eq!(extract_json_u64(row, "dwell_ms"), None);
    assert_eq!(extract_json_u64(row, "app_id"), None);
}

#[test]
fn json_number_that_overflows_is_missing() {
    let row = r#"{"n":99999999999999999999}"#;
    assert_eq!(extract_json_u64(row, "n"), None);
}

#[test]
fn json_text_runs_to_the_next_quote() {
    let row = r#"{"app_id":"Safari","window_title":"Docs — Draft","url":""}"#;
    assert_eq!(extract_json_str(row, "app_id"), Some("Safari".to_string()));
    assert_eq!(extract_json_str(row, "window_title"), Some("Docs — Draft".to_string()));
    assert_eq!(extract_json_str(row, "url"), Some(String::new()));
}

#[test]
fn json_text_is_missing_for_numbers_absent_keys_and_open_strings() {
    assert_eq!(extract_json_str(r#"{"n":5}"#, "n"), None);
    assert_eq!(extract_json_str(r#"{"a":"x"}"#, "b"), None);
    assert_eq!(extract_json_str(r#"{"a":"open"#, "a"), None);
}

#[test]
fn probe_line_becomes_an_event() {
    let line = r#"[{"ts_ms":1700000000000,"app_id":"Safari","window_title":"Docs","url":"","doc":"/tmp/a.txt","input_chars":3,"dwell_ms":900000},"#;
    let e = probe_event(line).expect("an event");
    assert_eq!(e.timestamp_ms, 1700000000000);
    assert_eq!(e.app_name, "Safari");
    assert_eq!(e.window_title, "Docs");
    assert_eq!(e.url, None);
    assert_eq!(e.document_path, Some("/tmp/a.txt".to_string()));
    assert!(e.typed);
    assert_eq!(e.dwell_ms, 600000);
    assert_eq!((e.keys, e.clicks, e.scrolls), (0, 0, 0));
}

#[test]
fn probe_line_keeps_a_short_dwell_and_untyped_event() {
    let line = r#"  {"ts_ms":5,"app_id":"Code","window_title":"main.rs","url":"https://example.com","doc":"","input_chars":0,"dwell_ms":1500}]  "#;
    let e = probe_event(line).expect("an event");
    assert_eq!(e.url, Some("https://example.com".to_string()));
    assert_eq!(e.document_path, None);
    assert!(!e.typed);
    assert_eq!(e.dwell_ms, 1500);
}

#[test]
fn probe_skips_lines_without_a_row_timestamp_or_app() {
    assert!(probe_event("[").is_none());
    assert!(probe_event("]").is_none());
    assert!(probe_event("").is_none());
    assert!(probe_event(r#"{"ts_ms":0,"app_id":"Code"}"#).is_none());
    assert!(probe_event(r#"{"ts_ms":7,"app_id":""}"#).is_none());
    assert!(probe_event(r#"{"ts_ms":7}"#).is_none());
}
