use evo::ledger::engine::{json_str, json_u64, legacy_event_from_line, representative_subject};
use evo::ledger::event::ObservedEvent;
use evo::ledger::intervals::compute_intervals_at;
use evo::ledger::works::group_into_works;

#[test]
fn json_fields_read_by_key() {
    let line = r#"{"ts_ms":1700000000123,"app_id":"Chrome","window_title":"Docs","url":"","input_chars":12a}"#;
    assert_eq!(json_u64(line, "ts_ms"), Some(1_700_000_000_123));
    assert_eq!(json_u64(line, "input_chars"), Some(12));
    assert_eq!(json_u64(line, "dwell_ms"), None);
    assert_eq!(json_u64(r#"{"n":x}"#, "n"), None);
    assert_eq!(json_str(line, "app_id"), Some("Chrome".to_string()));
    assert_eq!(json_str(line, "url"), Some(String::new()));
    assert_eq!(json_str(line, "doc"), None);
    assert_eq!(json_str(r#"{"a":"open"#, "a"), None);
}

#[test]
fn legacy_lines_become_events() {
    let e = legacy_event_from_line(
        r#" [{"ts_ms":5000,"app_id":"Editor","window_title":"a.rs","url":"","doc":"/p/a.rs","input_chars":3,"dwell_ms":900000}, "#,
    );
    // The trailing comma keeps the line from ending in a bracket: it still
    // opens an object.
    let e = e.unwrap();
    assert_eq!(e.timestamp_ms, 5000);
    assert_eq!(e.app_name, "Editor");
    assert_eq!(e.window_title, "a.rs");
    assert_eq!(e.url, None);
    assert_eq!(e.document_path, Some("/p/a.rs".to_string()));
    assert!(e.typed);
    assert_eq!(e.dwell_ms, 600_000, "dwell is capped at ten minutes");
    assert!(legacy_event_from_line(r#"{"ts_ms":0,"app_id":"Editor"}"#).is_none());
    assert!(legacy_event_from_line(r#"{"ts_ms":5,"app_id":""}"#).is_none());
    assert!(legacy_event_from_line("[").is_none());
    assert!(legacy_event_from_line("]").is_none());
}

fn ev(ts: u64, title: &str, url: Option<&str>, dwell: u64) -> ObservedEvent {
    ObservedEvent {
        timestamp_ms: ts,
        app_name: "Chrome".to_string(),
        window_title: title.to_string(),
        url: url.map(String::from),
        document_path: None,
        typed: false,
        dwell_ms: dwell,
        keys: 0,
        clicks: 0,
        scrolls: 0,
    }
}

#[test]
fn the_most_dwelt_page_names_the_work() {
    let events = vec![
        ev(0, "Intro", Some("https://site.example/a?utm_source=x"), 10_000),
        ev(600_000, "Body", Some("https://site.example/b"), 30_000),
        ev(1_200_000, "Intro again", Some("https://site.example/a"), 10_000),
    ];
    let works = group_into_works(compute_intervals_at(&events, 0));
    assert_eq!(works.len(), 1);
    assert_eq!(representative_subject(&works[0]), "https://site.example/b");
    let events = vec![
        ev(0, "Intro", Some("https://site.example/a?utm_source=x"), 30_000),
        ev(600_000, "Body", Some("https://site.example/b"), 30_000),
        ev(1_200_000, "Intro", Some("https://site.example/a"), 10_000),
    ];
    let works = group_into_works(compute_intervals_at(&events, 0));
    assert_eq!(representative_subject(&works[0]), "https://site.example/a?utm_source=x");
}
