use evo::ledger::event::ObservedEvent;
use evo::ledger::hypotheses::sittings_from_intervals;
use evo::ledger::intervals::{compute_intervals, compute_intervals_at};

fn event(ts: u64, url: Option<&str>, title: &str, app: &str, dwell: u64, keys: u64) -> ObservedEvent {
    ObservedEvent {
        timestamp_ms: ts,
        app_name: app.to_string(),
        window_title: title.to_string(),
        url: url.map(String::from),
        document_path: None,
        typed: keys > 0,
        dwell_ms: dwell,
        keys,
        clicks: 0,
        scrolls: 0,
    }
}

#[test]
fn sittings_split_at_thirty_minutes() {
    let events = vec![
        event(1000, None, "A", "App", 60_000, 0),
        event(1000 + 29 * 60 * 1000, None, "A", "App", 60_000, 0),
        event(1000 + 70 * 60 * 1000, None, "A", "App", 60_000, 0),
    ];
    let intervals = compute_intervals(&events);
    let sittings = sittings_from_intervals(&intervals);
    assert_eq!(sittings.len(), 2, "70 minutes apart = two sittings");
}

#[test]
fn sittings_join_across_resources_and_sum_dwell() {
    let events = vec![
        event(0, None, "A", "App", 60_000, 0),
        event(10 * 60 * 1000, None, "B", "App", 30_000, 0),
        event(40 * 60 * 1000, None, "C", "App", 10_000, 0),
        event(71 * 60 * 1000, None, "D", "App", 5_000, 0),
    ];
    let intervals = compute_intervals_at(&events, 0);
    assert_eq!(intervals.len(), 4);
    let sittings = sittings_from_intervals(&intervals);
    assert_eq!(sittings.len(), 2);
    assert_eq!(sittings[0].interval_indices, vec![0, 1, 2]);
    assert_eq!(sittings[0].total_dwell_ms, 100_000);
    assert_eq!(sittings[0].start_ms, 0);
    assert_eq!(sittings[0].end_ms, 40 * 60 * 1000);
    assert_eq!(sittings[1].interval_indices, vec![3]);
}

#[test]
fn sittings_follow_start_order_not_position() {
    let events = vec![
        event(0, None, "A", "App", 1_000, 0),
        event(90 * 60 * 1000, None, "B", "App", 1_000, 0),
    ];
    let mut intervals = compute_intervals_at(&events, 0);
    intervals.reverse();
    let sittings = sittings_from_intervals(&intervals);
    assert_eq!(sittings.len(), 2);
    assert_eq!(sittings[0].interval_indices, vec![1]);
    assert_eq!(sittings[1].interval_indices, vec![0]);
}

#[test]
fn no_intervals_no_sittings() {
    assert!(sittings_from_intervals(&[]).is_empty());
}
