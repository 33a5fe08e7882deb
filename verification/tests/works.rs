use evo::ledger::event::{ObservedEvent, ProductionSave};
use evo::ledger::hypotheses::MergeProposal;
use evo::ledger::intervals::compute_intervals;
use evo::ledger::production::{attention_row, attribute_saves};
use evo::ledger::works::{group_into_works, retain_recent_works, Engagement, IdentityKind};

fn ev(ts: u64, app: &str, title: &str, url: Option<&str>, doc: Option<&str>, dwell: u64) -> ObservedEvent {
    ObservedEvent {
        timestamp_ms: ts,
        app_name: app.to_string(),
        window_title: title.to_string(),
        url: url.map(String::from),
        document_path: doc.map(String::from),
        typed: false,
        dwell_ms: dwell,
        keys: 0,
        clicks: 0,
        scrolls: 0,
    }
}

#[test]
fn same_url_host_groups_into_one_work() {
    let events = vec![
        ev(1000, "Chrome", "Page 1", Some("https://framer.com/project"), None, 5000),
        ev(61000, "Chrome", "Page 2", Some("https://framer.com/other"), None, 10000),
        ev(121000, "Chrome", "Page 3", Some("https://framer.com/third"), None, 8000),
    ];
    let intervals = compute_intervals(&events);
    let works = group_into_works(intervals);
    assert_eq!(works.len(), 1, "all framer.com pages = one work");
    assert_eq!(works[0].identity, "framer.com");
    assert_eq!(works[0].identity_kind, IdentityKind::UrlHost);
    assert_eq!(works[0].total_time_ms, 23000);
}

#[test]
fn different_sites_are_different_works() {
    let events = vec![
        ev(1000, "Chrome", "a", Some("https://framer.com/x"), None, 10000),
        ev(61000, "Chrome", "b", Some("https://github.com/y"), None, 10000),
    ];
    let intervals = compute_intervals(&events);
    let works = group_into_works(intervals);
    assert_eq!(works.len(), 2, "framer.com and github.com are different works");
}

#[test]
fn same_document_groups_across_sessions() {
    let events = vec![
        ev(1000, "VS Code", "main.rs", None, Some("/src/main.rs"), 30000),
        ev(3600000, "VS Code", "main.rs", None, Some("/src/main.rs"), 60000),
    ];
    let intervals = compute_intervals(&events);
    let works = group_into_works(intervals);
    assert_eq!(works.len(), 1, "same file across sessions = one work");
    assert_eq!(works[0].identity_kind, IdentityKind::Document);
    assert_eq!(works[0].session_count(), 2, "two separate sessions");
}

#[test]
fn work_has_production_evidence() {
    let events = vec![ev(1000, "Chrome", "chat", Some("https://chat.example.com/c"), None, 30000)];
    let mut typed_event = ev(61000, "Chrome", "chat", Some("https://chat.example.com/c"), None, 30000);
    typed_event.typed = true;
    let all = vec![events[0].clone(), typed_event];
    let intervals = compute_intervals(&all);
    let works = group_into_works(intervals);
    assert!(works[0].has_production, "typing on the site = production");
}

#[test]
fn most_recent_work_first() {
    let events = vec![
        ev(1000, "Chrome", "old", Some("https://old.example.com"), None, 10000),
        ev(1000000, "Chrome", "new", Some("https://new.example.com"), None, 10000),
    ];
    let intervals = compute_intervals(&events);
    let works = group_into_works(intervals);
    assert_eq!(works[0].identity, "new.example.com", "most recent work first");
}

#[test]
fn engagement_classifies_the_input_mix() {
    let mut browsing = ev(1000, "Chrome", "page", Some("https://shop.example.com/products"), None, 10_000);
    browsing.keys = 3;
    browsing.clicks = 8;
    browsing.scrolls = 40;
    let works = group_into_works(compute_intervals(&[browsing]));
    assert_eq!(works[0].engagement(), Engagement::Reading);

    let mut writing = ev(1000, "Chrome", "chat", Some("https://chat.example.com/c/1"), None, 10_000);
    writing.typed = true;
    writing.keys = 220;
    writing.clicks = 4;
    writing.scrolls = 6;
    let works = group_into_works(compute_intervals(&[writing]));
    assert_eq!(works[0].engagement(), Engagement::Writing);

    // Producing: a save attributed to the work outweighs the mix.
    let mut building = ev(1000, "ZCode", "app.rs — project", None, Some("/src/app.rs"), 350_000);
    building.typed = true;
    building.keys = 100;
    let mut intervals = compute_intervals(&[building]);
    let iv = &intervals[0];
    let row = attention_row(
        1,
        iv.start_ms as i64,
        iv.end_ms as i64,
        iv.typed_count as i64,
        "app.rs — project",
        "",
        "/src/app.rs",
        "",
    );
    let outcome = attribute_saves(
        &vec![row],
        &vec![ProductionSave { timestamp_ms: 2000, path: "/src/app.rs".to_string() }],
    );
    assert_eq!(outcome.attached, 1);
    intervals[0].attached_saves = outcome.per_interval[0].1.len();
    let works = group_into_works(intervals);
    assert_eq!(works[0].engagement(), Engagement::Building);
}

#[test]
fn titles_survive_into_works() {
    let events = vec![
        ev(1000, "Chrome", "Waitlist Template Copy — Framer", Some("https://framer.com/project/123"), None, 10_000),
        ev(61_000, "Chrome", "Landing Page — Framer", Some("https://framer.com/project/123"), None, 10_000),
    ];
    let works = group_into_works(compute_intervals(&events));
    assert_eq!(works[0].identity, "framer.com");
    assert!(works[0].titles.contains(&"Waitlist Template Copy — Framer".to_string()));
    assert!(works[0].titles.contains(&"Landing Page — Framer".to_string()));
}

#[test]
fn app_for_resource_returns_the_witnessed_app_per_document() {
    let events = vec![
        ev(1000, "VS Code", "main.rs", None, Some("/src/main.rs"), 30000),
        ev(61000, "Preview", "report.pdf", None, Some("/docs/report.pdf"), 30000),
    ];
    let works = group_into_works(compute_intervals(&events));
    assert_eq!(works.len(), 2, "different documents = different works");
    let code = works.iter().find(|w| w.identity == "/src/main.rs").unwrap();
    assert_eq!(code.app_for_resource("/src/main.rs").as_deref(), Some("VS Code"));
    assert_eq!(code.app_for_resource("/docs/report.pdf"), None);
    let pdf = works.iter().find(|w| w.identity == "/docs/report.pdf").unwrap();
    assert_eq!(pdf.app_for_resource("/docs/report.pdf").as_deref(), Some("Preview"));
}

#[test]
fn app_for_resource_prefers_the_most_recent_witness() {
    let events = vec![
        ev(1000, "TextEdit", "notes.md", None, Some("/notes.md"), 30000),
        ev(3_661_000, "VS Code", "notes.md", None, Some("/notes.md"), 30000),
    ];
    let works = group_into_works(compute_intervals(&events));
    assert_eq!(works.len(), 1, "same document = one work");
    assert_eq!(works[0].app_for_resource("/notes.md").as_deref(), Some("VS Code"));
}

#[test]
fn app_for_resource_covers_urls_and_unknown_resources() {
    let events = vec![ev(1000, "Safari", "Article", Some("https://example.com/article"), None, 30000)];
    let works = group_into_works(compute_intervals(&events));
    assert_eq!(works.len(), 1);
    assert_eq!(works[0].app_for_resource("https://example.com/article").as_deref(), Some("Safari"));
    assert_eq!(works[0].app_for_resource("https://other.example/"), None);
}

#[test]
fn ties_order_by_identity() {
    let events = vec![
        ev(1000, "Notes", "zeta", None, None, 10000),
        ev(1000, "Notes", "alpha", None, None, 10000),
    ];
    let works = group_into_works(compute_intervals(&events));
    assert_eq!(works.len(), 2);
    assert_eq!(works[0].identity, "alpha");
    assert_eq!(works[0].identity_kind, IdentityKind::WindowTitle);
    assert_eq!(works[0].title(), "alpha");
    assert_eq!(IdentityKind::WindowTitle.label(), "window");
}

#[test]
fn time_summary_reads_seconds_minutes_hours() {
    let mut works = group_into_works(compute_intervals(&[ev(0, "A", "t", None, None, 59_999)]));
    assert_eq!(works[0].time_summary(), "59s");
    works[0].total_time_ms = 61_000;
    assert_eq!(works[0].time_summary(), "1m");
    works[0].total_time_ms = 3_600_000 + 25 * 60_000;
    assert_eq!(works[0].time_summary(), "1h 25m");
}

#[test]
fn display_keeps_substantial_recent_works_and_renumbers_proposals() {
    let events = vec![
        ev(0, "A", "one", None, None, 20_000),
        ev(1_000_000, "A", "two", None, None, 5_000),
        ev(2_000_000, "A", "three", None, None, 20_000),
        ev(3_000_000, "A", "four", None, None, 20_000),
    ];
    let works = group_into_works(compute_intervals(&events));
    // Order: four, three, two (a glance), one.
    assert_eq!(works[2].identity, "two");
    let proposals = vec![
        MergeProposal { work_a: 0, work_b: 2, shared_sittings: 2 },
        MergeProposal { work_a: 0, work_b: 5, shared_sittings: 3 },
    ];
    let (kept, renumbered) = retain_recent_works(works, proposals, 1);
    // "two" is a glance; of the rest the first and the proposed third stay.
    let names: Vec<&str> = kept.iter().map(|w| w.identity.as_str()).collect();
    assert_eq!(names, vec!["four", "one"]);
    assert_eq!(renumbered, vec![MergeProposal { work_a: 0, work_b: 1, shared_sittings: 2 }]);
}

fn bare_work(session_count_override: Option<usize>) -> evo::ledger::works::Work {
    evo::ledger::works::Work {
        identity: "doc".to_string(),
        identity_kind: IdentityKind::Document,
        intervals: vec![],
        total_time_ms: 0,
        urls: vec![],
        documents: vec![],
        titles: vec![],
        apps: vec![],
        has_production: false,
        keys: 0,
        clicks: 0,
        scrolls: 0,
        attached_saves: 0,
        last_active_ms: 0,
        session_count_override,
    }
}

#[test]
fn session_count_override_replaces_the_interval_count() {
    assert_eq!(bare_work(Some(1)).session_count(), 1);
    assert_eq!(bare_work(None).session_count(), 0);
}
