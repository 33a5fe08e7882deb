use evo::ledger::event::ObservedEvent;
use evo::ledger::input_fusion::attribute_input_to_surfaces;

fn surface(ts: u64, app: &str, title: &str) -> ObservedEvent {
    ObservedEvent {
        timestamp_ms: ts,
        app_name: app.to_string(),
        window_title: title.to_string(),
        url: None,
        document_path: Some("/doc".to_string()),
        typed: false,
        dwell_ms: 5_000,
        keys: 0,
        clicks: 0,
        scrolls: 0,
    }
}

fn input(ts: u64, keys: u64) -> ObservedEvent {
    ObservedEvent {
        timestamp_ms: ts,
        app_name: "Input".to_string(),
        window_title: String::new(),
        url: None,
        document_path: None,
        typed: keys > 0,
        dwell_ms: 0,
        keys,
        clicks: 0,
        scrolls: 0,
    }
}

#[test]
fn input_near_a_surface_takes_its_identity() {
    let out = attribute_input_to_surfaces(&[surface(1_000, "Editor", "app.rs")], &[input(50_000, 12)]);
    assert_eq!(out.len(), 2);
    assert_eq!(out[1].app_name, "Editor");
    assert_eq!(out[1].window_title, "app.rs");
    assert_eq!(out[1].document_path, None);
    assert_eq!(out[1].dwell_ms, 10_000);
    assert_eq!(out[1].keys, 12);
    assert!(out[1].typed);
}

#[test]
fn input_far_from_any_surface_keeps_its_own_identity() {
    let out = attribute_input_to_surfaces(&[surface(1_000, "Editor", "app.rs")], &[input(200_000, 3)]);
    assert_eq!(out[1].app_name, "Input");
    assert_eq!(out[1].dwell_ms, 0);
}

#[test]
fn continuous_typing_reanchors_to_the_same_surface() {
    let out = attribute_input_to_surfaces(
        &[surface(0, "Editor", "app.rs")],
        &[input(170_000, 1), input(80_000, 1)],
    );
    // In time order: the bucket at 80 s anchors on the surface, the one at
    // 170 s on that attributed bucket.
    assert_eq!(out.len(), 3);
    assert_eq!(out[1].timestamp_ms, 80_000);
    assert_eq!(out[2].timestamp_ms, 170_000);
    assert_eq!(out[2].app_name, "Editor");
}

#[test]
fn surfaces_come_back_in_time_order() {
    let out = attribute_input_to_surfaces(&[surface(9, "B", "b"), surface(3, "A", "a")], &[]);
    assert_eq!(out[0].app_name, "A");
    assert_eq!(out[1].app_name, "B");
}

#[test]
fn fused_timeline_stays_in_time_order() {
    let out = attribute_input_to_surfaces(
        &[surface(1_000, "Ed", "a.rs"), surface(5_000, "Mail", "Inbox")],
        &[input(3_000, 5)],
    );
    assert_eq!(out.len(), 3);
    assert!(out.windows(2).all(|w| w[0].timestamp_ms <= w[1].timestamp_ms));
    assert_eq!(out[1].timestamp_ms, 3_000);
    assert_eq!(out[1].app_name, "Ed");
    assert_eq!(out[1].window_title, "a.rs");
    assert_eq!(out[1].document_path, None);
    assert_eq!(out[1].dwell_ms, 10_000);
    assert_eq!(out[1].keys, 5);
    assert_eq!(out[2].app_name, "Mail");
}
