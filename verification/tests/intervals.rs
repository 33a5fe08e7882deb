use evo::ledger::event::ObservedEvent;
use evo::ledger::intervals::{
    compute_intervals, compute_intervals_at, interval_from_record, nonblank_lines_of, IntervalRecord,
    IntervalStatus,
};

fn event(ts: u64, app: &str, title: &str, url: Option<&str>, doc: Option<&str>) -> ObservedEvent {
    ObservedEvent {
        timestamp_ms: ts,
        app_name: app.to_string(),
        window_title: title.to_string(),
        url: url.map(String::from),
        document_path: doc.map(String::from),
        typed: false,
        dwell_ms: 60_000,
        keys: 0,
        clicks: 0,
        scrolls: 0,
    }
}

/// The intervals a reader sees: at least two events each.
fn engaged(events: &[ObservedEvent]) -> Vec<evo::ledger::intervals::WorkInterval> {
    compute_intervals(events).into_iter().filter(|i| i.event_count >= 2).collect()
}

#[test]
fn same_document_groups_into_one_interval() {
    let intervals = engaged(&[
        event(1000, "VS Code", "main.rs — project", None, Some("/project/src/main.rs")),
        event(61000, "VS Code", "main.rs — project", None, Some("/project/src/main.rs")),
        event(121000, "VS Code", "main.rs — project", None, Some("/project/src/main.rs")),
    ]);
    assert_eq!(intervals.len(), 1, "three events on the same document = one interval");
    assert_eq!(intervals[0].task_key.document_path, Some("/project/src/main.rs".to_string()));
}

#[test]
fn different_apps_different_intervals() {
    let intervals = engaged(&[
        event(1000, "VS Code", "main.rs", None, Some("/src/main.rs")),
        event(61000, "VS Code", "main.rs", None, Some("/src/main.rs")),
        event(121000, "Chrome", "GitHub — repo", Some("https://github.com/repo"), None),
        event(181000, "Chrome", "GitHub — repo", Some("https://github.com/repo"), None),
    ]);
    assert_eq!(intervals.len(), 2, "different task keys = different intervals");
}

#[test]
fn gap_creates_new_interval() {
    let intervals = engaged(&[
        event(1000, "Chrome", "docs", Some("https://docs.example.com"), None),
        event(61000, "Chrome", "docs", Some("https://docs.example.com"), None),
        event(601000, "Chrome", "docs", Some("https://docs.example.com"), None),
        event(661000, "Chrome", "docs", Some("https://docs.example.com"), None),
    ]);
    assert_eq!(intervals.len(), 2, "a 9-minute gap splits the work into two intervals");
}

#[test]
fn page_identity_separates_and_groups() {
    let intervals = engaged(&[
        event(1000, "Chrome", "Page 1", Some("https://example.com/page1"), None),
        event(61000, "Chrome", "Page 1 changed title", Some("https://example.com/page1"), None),
        event(121000, "Chrome", "Page 2", Some("https://example.com/page2"), None),
        event(181000, "Chrome", "Page 2", Some("https://example.com/page2"), None),
    ]);
    assert_eq!(intervals.len(), 2, "same page across titles = one interval; different page = another");
}

#[test]
fn events_are_taken_in_time_order() {
    let mut late = event(200_000, "Editor", "b.txt", None, Some("/b.txt"));
    late.keys = 3;
    let intervals = compute_intervals_at(
        &[late, event(100_000, "Editor", "a.txt", None, Some("/a.txt"))],
        0,
    );
    assert_eq!(intervals.len(), 2);
    assert_eq!(intervals[0].task_key.document_path.as_deref(), Some("/a.txt"));
    assert_eq!(intervals[1].keys, 3);
}

#[test]
fn exactly_the_gap_still_joins() {
    let a = event(0, "Chrome", "docs", Some("https://docs.example.com"), None);
    let b = event(300_000, "Chrome", "docs", Some("https://docs.example.com"), None);
    let c = event(600_001, "Chrome", "docs", Some("https://docs.example.com"), None);
    let intervals = compute_intervals_at(&[a, b, c], 0);
    assert_eq!(intervals.len(), 2);
    assert_eq!(intervals[0].event_count, 2);
    assert_eq!(intervals[0].total_dwell_ms, 120_000);
    assert_eq!(intervals[0].end_ms, 300_000);
}

#[test]
fn interval_collects_evidence_once_each() {
    let mut typed = event(60_000, "Editor", "notes — Editor", None, Some("/notes.md"));
    typed.typed = true;
    typed.keys = 10;
    let events = [
        event(0, "Editor", "notes — Editor", None, Some("/notes.md")),
        typed,
        event(120_000, "Shell", "   ", None, Some("/notes.md")),
    ];
    let intervals = compute_intervals_at(&events, 0);
    assert_eq!(intervals.len(), 1);
    let iv = &intervals[0];
    assert_eq!(iv.event_count, 3);
    assert_eq!(iv.typed_count, 1);
    assert_eq!(iv.keys, 10);
    assert!(iv.has_production());
    assert_eq!(iv.titles, vec!["notes — Editor".to_string()]);
    assert_eq!(iv.document_paths, vec!["/notes.md".to_string()]);
    assert_eq!(iv.app_names, vec!["Editor".to_string(), "Shell".to_string()]);
    assert_eq!(iv.duration_secs(), 120);
    assert_eq!(iv.title(), "notes.md");
}

#[test]
fn status_follows_the_clock() {
    let events = [event(1_000, "Chrome", "docs", Some("https://docs.example.com"), None)];
    let recent = compute_intervals_at(&events, 1_000 + 300_000);
    assert_eq!(recent[0].status, IntervalStatus::Provisional);
    let old = compute_intervals_at(&events, 1_000 + 300_001);
    assert_eq!(old[0].status, IntervalStatus::Final);
    assert_eq!(IntervalStatus::Final.as_str(), "final");
    assert_eq!(IntervalStatus::Provisional.as_str(), "provisional");
    // Long-past events are final by the real clock too.
    assert_eq!(compute_intervals(&events)[0].status, IntervalStatus::Final);
}

#[test]
fn no_events_no_intervals() {
    assert!(compute_intervals(&[]).is_empty());
}

#[test]
fn stored_rows_read_back() {
    let row = IntervalRecord {
        id: 7,
        document_path: Some("/src/app.rs".into()),
        page: None,
        window_title: Some("app.rs".into()),
        url_host: None,
        app_name: "Editor".into(),
        confidence: 85,
        start_ms: -5,
        end_ms: 9_000,
        event_count: 3,
        total_dwell_ms: 4_000,
        typed_count: 1,
        status: "final".into(),
        urls_text: "https://a.example\n\n  \nhttps://b.example".into(),
        titles_text: "app.rs\n".into(),
        keys: -2,
        clicks: 4,
        scrolls: 0,
        production_docs: "/src/lib.rs\n/src/app.rs\n".into(),
    };
    let iv = interval_from_record(&row);
    assert_eq!(iv.id, 7);
    assert_eq!(iv.start_ms, (-5i64) as u64);
    assert_eq!(iv.keys, 0);
    assert_eq!(iv.clicks, 4);
    assert_eq!(iv.status, IntervalStatus::Final);
    assert_eq!(iv.urls, vec!["https://a.example", "https://b.example"]);
    assert_eq!(iv.titles, vec!["app.rs"]);
    assert_eq!(iv.attached_saves, 2);
    assert_eq!(iv.document_paths, vec!["/src/lib.rs", "/src/app.rs"]);
    let fresh = IntervalRecord { production_docs: "/src/lib.rs".into(), status: "provisional".into(), ..row };
    let iv = interval_from_record(&fresh);
    assert_eq!(iv.document_paths, vec!["/src/app.rs", "/src/lib.rs"]);
    assert_eq!(iv.status, IntervalStatus::Provisional);
}

#[test]
fn blank_lines_are_skipped() {
    assert_eq!(nonblank_lines_of("a\r\n \n\tb\n"), vec!["a", "\tb"]);
    assert!(nonblank_lines_of("").is_empty());
}
