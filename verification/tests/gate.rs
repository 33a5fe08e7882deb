use evo::ledger::event::ObservedEvent;
use evo::ledger::gate::{evaluate_gates, gate_work, GateFixture};
use evo::ledger::intervals::compute_intervals_at;
use evo::ledger::works::{group_into_works, Work};

fn event(ts: u64, app: &str, title: &str, url: Option<&str>, doc: Option<&str>) -> ObservedEvent {
    ObservedEvent {
        timestamp_ms: ts,
        app_name: app.to_string(),
        window_title: title.to_string(),
        url: url.map(String::from),
        document_path: doc.map(String::from),
        typed: false,
        dwell_ms: 60_000,
        keys: 0,
        clicks: 0,
        scrolls: 0,
    }
}

fn fixture() -> GateFixture {
    GateFixture {
        hosts: vec!["youtube.com".into(), "google.com".into()],
        playlist: "PLtrek".into(),
        gear_title: "Gear".into(),
        gear_host: "gear.example".into(),
        chat: "chat.example/c/42".into(),
        dev_app: "ZCode".into(),
        dev_path: "project/crates".into(),
        unrelated: vec!["otherVid".into()],
    }
}

fn works(events: &[ObservedEvent]) -> Vec<Work> {
    group_into_works(compute_intervals_at(events, 0))
}

#[test]
fn a_healthy_history_passes_every_gate() {
    let ws = works(&[
        event(0, "Chrome", "Trek 1", Some("https://video.example/watch?v=a&list=PLtrek"), None),
        event(10 * 60_000, "Chrome", "Gear shop", Some("https://gear.example/boots"), None),
        event(20 * 60_000, "ZCode", "main.rs", None, Some("/home/project/crates/main.rs")),
    ]);
    assert_eq!(ws.len(), 3);
    assert!(evaluate_gates(&ws, &fixture()).is_empty());
}

#[test]
fn a_host_work_and_missing_scenarios_fail_in_gate_order() {
    let ws = works(&[event(0, "Chrome", "", Some("https://google.com/"), None)]);
    assert_eq!(ws[0].identity, "google.com");
    let failures = evaluate_gates(&ws, &fixture());
    assert_eq!(
        failures,
        vec![
            "a work is keyed by the host google.com".to_string(),
            "expected the trek playlist to live in exactly one work, found 0".to_string(),
            "expected exactly one Arc'teryx gear work, found 0".to_string(),
            "a mega-work holds 1 of 1 resources".to_string(),
        ]
    );
}

#[test]
fn chat_in_the_gear_work_and_an_unrelated_video_fail() {
    let ws = works(&[
        event(0, "Chrome", "Gear", Some("https://gear.example/shells"), None),
        event(60_000, "Chrome", "Gear", Some("https://chat.example/c/42"), None),
        event(20 * 60_000, "Chrome", "Trek", Some("https://video.example/watch?v=a&list=PLtrek"), None),
        event(21 * 60_000, "Chrome", "Trek", Some("https://video.example/watch?v=otherVid"), None),
    ]);
    let failures = evaluate_gates(&ws, &fixture());
    assert!(failures.contains(&"the kundli chat merged into the Arc'teryx gear work".to_string()));
    assert!(failures.contains(&"an unrelated video joined the trek work".to_string()));
}

#[test]
fn development_spread_over_three_works_fails() {
    let ws = works(&[
        event(0, "ZCode", "a", None, Some("/x/project/crates/a.rs")),
        event(60 * 60_000, "ZCode", "b", None, Some("/x/project/crates/b.rs")),
        event(120 * 60_000, "ZCode", "c", None, Some("/x/project/crates/c.rs")),
    ]);
    let failures = evaluate_gates(&ws, &fixture());
    assert!(failures.contains(&"evo development spans 3 works, expected at most 2".to_string()));
}

#[test]
fn gate_work_cuts_identity_and_titles() {
    let long_title: String = std::iter::repeat('é').take(100).collect();
    let mut ws = works(&[event(0, "Notes", &long_title, None, None)]);
    for i in 0..10 {
        ws[0].titles.push(format!("t{i}"));
    }
    let gw = gate_work(&ws[0]);
    assert_eq!(gw.identity.chars().count(), 80);
    assert_eq!(gw.titles.len(), 8);
    assert_eq!(gw.sessions, 1);
    assert_eq!(gw.apps, vec!["Notes".to_string()]);
    assert_eq!(gw.total_time_ms, 60_000);
}

#[test]
fn recorded_fixture_names_the_recorded_history() {
    let fx = GateFixture::recorded();
    assert_eq!(fx.hosts, vec!["youtube.com", "google.com", "www.youtube.com"]);
    assert_eq!(fx.playlist, "PLiM-TFJI81");
    assert_eq!(fx.gear_title, "Arc'teryx");
    assert_eq!(fx.gear_host, "arcteryx.com");
    assert_eq!(fx.chat, "/chat/f5c116b5");
    assert_eq!(fx.dev_path, "Evo-Evolution.nosync/crates");
    assert_eq!(fx.unrelated, vec!["RdWnMbsZhxk", "eswW2BoFAUs"]);
}
