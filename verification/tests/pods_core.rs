use evo::pods::gesture::{gesture_to_declaration, Declaration, GestureOutcome, PodGesture};
use evo::pods::lease::{LeaseStep, PodLease};
use evo::pods::policy::{default_policies, parse_policies};
use evo::pods::wrapper::{info_plist, launcher_script, normalize_bundle_id, WrapperSpec};
use evo::pods::config::ContainMode;
use evo::pods::dim::{plan_activation, window_match, WindowFacts, WindowMatch};
use evo::pods::pod::{PodApp, PodSurfaces};
use evo::pods::pod::{badges_from_bundle, pod_badges, BadgeKind, Delta};
use evo::pods::gesture::merge_ready;
use evo::pods::stage::DisplaySignature;

/// A frame as the platform reports it, carried through a lease untouched.
type Frame = (f64, f64, f64, f64);

fn rt(x: f64, y: f64, w: f64, h: f64) -> Frame {
    (x, y, w, h)
}

#[test]
fn policies_parse_and_never_ship_by_default() {
    let text = "# evo-instance-policies-v1\napp=Fancy Editor|data_dir_flag=--user-data-dir=|extra_flag=--extensions-dir=\n";
    let policies = parse_policies(text).unwrap();
    assert_eq!(policies.len(), 1);
    assert_eq!(
        policies[0].launch_args("/pods/pod-1"),
        vec!["--user-data-dir=/pods/pod-1", "--extensions-dir=/pods/pod-1"]
    );
    assert!(default_policies().is_empty(), "no product knowledge ships in code");
    assert!(parse_policies("bogus line").is_err());
}

#[test]
fn wrapper_generates_plist_launcher_and_identity_without_app_names() {
    let spec = WrapperSpec {
        label: "Evo Pod — invoice-sync".into(),
        bundle_id: normalize_bundle_id("dev.evo", "invoice-sync"),
        target_binary: "/Applications/X.app/Contents/MacOS/x".into(),
        target_args: vec!["--user-data-dir=/pods/pod-1".into()],
    };
    assert_eq!(spec.bundle_id, "dev.evo.invoice-sync");
    let plist = info_plist(&spec);
    assert!(plist.contains("<string>dev.evo.invoice-sync</string>"));
    let script = launcher_script(&spec);
    assert!(script.starts_with("#!/bin/sh"));
    assert!(script.contains("/Applications/X.app/Contents/MacOS/x"));
    assert!(script.contains("--user-data-dir=/pods/pod-1"));
}

#[test]
fn reversal_reparks_members_last_after_frames_restore() {
    let mut lease: PodLease<Frame> = PodLease::new("w", 1);
    lease.parked_windows.push((2, 20));
    lease.moved_windows.push((1, 10, rt(1.0, 1.0, 100.0, 100.0)));
    lease.unparked_members.push((1, 10));
    let steps = lease.reversal();
    assert!(matches!(steps[0], LeaseStep::UnparkWindow { pid: 2, .. }));
    assert!(matches!(steps[1], LeaseStep::MoveWindowBack { pid: 1, .. }));
    assert!(
        matches!(steps[steps.len() - 1], LeaseStep::ReparkWindow { pid: 1, window_id: 10 }),
        "the space's windows return into the space LAST (moves need visibility)"
    );
}

#[test]
fn lease_reversal_is_exact_inverse_order() {
    let mut lease: PodLease<Frame> = PodLease::new("w", 1);
    lease.moved_windows.push((1, 10, rt(1.0, 1.0, 100.0, 100.0)));
    lease.parked_windows.push((2, 20));
    lease.veils.push(7);
    lease.hidden_apps.push(5);
    let steps = lease.reversal();
    assert!(matches!(steps[0], LeaseStep::CloseVeil { handle: 7 }));
    assert!(matches!(steps[1], LeaseStep::UnhideApp { pid: 5 }));
    assert!(matches!(steps[2], LeaseStep::UnparkWindow { pid: 2, .. }));
    assert!(matches!(steps[3], LeaseStep::MoveWindowBack { pid: 1, .. }));
}

#[test]
fn reversal_replays_each_list_newest_first() {
    let mut lease: PodLease<Frame> = PodLease::new("w", 1);
    lease.veils.push(1);
    lease.veils.push(2);
    lease.moved_windows.push((1, 10, rt(0.0, 0.0, 10.0, 10.0)));
    lease.moved_windows.push((1, 11, rt(5.0, 5.0, 20.0, 20.0)));
    lease.unhidden_apps.push(9);
    let steps = lease.reversal();
    assert_eq!(steps.len(), 5);
    assert_eq!(steps[0], LeaseStep::CloseVeil { handle: 2 });
    assert_eq!(steps[1], LeaseStep::CloseVeil { handle: 1 });
    assert_eq!(steps[2], LeaseStep::RehideApp { pid: 9 });
    assert_eq!(
        steps[3],
        LeaseStep::MoveWindowBack { pid: 1, window_id: 11, frame: rt(5.0, 5.0, 20.0, 20.0) }
    );
    assert_eq!(
        steps[4],
        LeaseStep::MoveWindowBack { pid: 1, window_id: 10, frame: rt(0.0, 0.0, 10.0, 10.0) }
    );
}

#[test]
fn empty_lease_reverses_to_nothing() {
    let lease: PodLease<Frame> = PodLease::new("idle", 5);
    assert_eq!(lease.pod, "idle");
    assert_eq!(lease.entered_at_ms, 5);
    assert!(lease.reversal().is_empty());
}

#[test]
fn merge_two_pods_emits_same_work_with_their_anchors() {
    let out = gesture_to_declaration(&PodGesture::MergePods {
        source_pod: 1,
        source_anchor: Some("a.rs".into()),
        target_pod: 2,
        target_anchor: Some("b.rs".into()),
    });
    assert_eq!(
        out,
        GestureOutcome::Declare(Declaration::SameWork { a: "a.rs".into(), b: "b.rs".into() })
    );
}

#[test]
fn merge_without_anchor_is_honestly_unbound() {
    let out = gesture_to_declaration(&PodGesture::MergePods {
        source_pod: 1,
        source_anchor: None,
        target_pod: 2,
        target_anchor: Some("b".into()),
    });
    assert!(matches!(out, GestureOutcome::Unbound(_)));
}

#[test]
fn eject_with_counterparty_separates_without_falls_to_quarantine() {
    let separated = gesture_to_declaration(&PodGesture::EjectWindow {
        subject: "stray".into(),
        source_pod: 1,
        source_anchor: Some("anchor".into()),
    });
    assert!(matches!(separated, GestureOutcome::Declare(Declaration::SeparateWork { .. })));
    let quarantined = gesture_to_declaration(&PodGesture::EjectWindow {
        subject: "stray".into(),
        source_pod: 1,
        source_anchor: None,
    });
    assert!(matches!(quarantined, GestureOutcome::Declare(Declaration::NotMine { .. })));
}

// ---- containment -----------------------------------------------------------


fn app(pid: i32, name: &str, hidden: bool) -> PodApp {
    PodApp { pid, name: name.to_string(), hidden, regular: true }
}

fn window(pid: i32, window_id: u32, title: &str, ax_document: Option<&str>) -> WindowFacts {
    WindowFacts {
        pid,
        owner: format!("app-{pid}"),
        title: title.to_string(),
        ax_document: ax_document.map(str::to_string),
        window_id,
        minimized: false,
        frame_usable: true,
    }
}

fn pod_surfaces() -> PodSurfaces {
    PodSurfaces {
        urls: vec!["https://docs.example/api".into()],
        documents: vec!["file:///repo/main.ts".into()],
        titles: vec![],
        apps: vec!["Editor".into()],
        resource_apps: Default::default(),
    }
}

#[test]
fn window_match_prefers_documents_over_pages_over_titles() {
    let surfaces = PodSurfaces {
        urls: vec!["https://tab.example".into()],
        documents: vec!["file:///repo/main.ts".into()],
        titles: vec!["Terminal".into()],
        apps: vec![],
        resource_apps: Default::default(),
    };
    assert_eq!(window_match(&window(1, 10, "anything", Some("/repo/main.ts")), &surfaces), WindowMatch::Document);
    assert_eq!(window_match(&window(1, 11, "Tab", Some("https://tab.example")), &surfaces), WindowMatch::Page);
    assert_eq!(window_match(&window(1, 12, "Terminal", None), &surfaces), WindowMatch::Title);
    assert_eq!(window_match(&window(2, 13, "Else", None), &surfaces), WindowMatch::NoMatch);
}

#[test]
fn dim_veils_foreign_and_arranges_own_under_containment() {
    let apps = vec![app(1, "Editor", false), app(2, "Mail", false), app(3, "Evo", false)];
    let hero = window(1, 10, "main.ts", Some("/repo/main.ts"));
    let foreign = window(2, 20, "Inbox", None);
    let protected = window(3, 30, "Evo Home", None);
    let plan = plan_activation(&pod_surfaces(), &[hero, foreign, protected], &apps, &[3], ContainMode::Dim);
    assert_eq!(plan.arrange.len(), 1);
    assert_eq!(plan.veil.len(), 1, "exactly the foreign window veils");
    assert_eq!(plan.veil[0].1, 20);
    assert!(plan.park.is_empty() && plan.hide_apps.is_empty());
}

#[test]
fn hide_mode_hides_only_foreign_regular_apps() {
    let mut apps = vec![app(1, "Editor", false), app(2, "Mail", false), app(9, "System", false)];
    apps[2].regular = false;
    let hero = window(1, 10, "main.ts", Some("/repo/main.ts"));
    let plan = plan_activation(&pod_surfaces(), &[hero], &apps, &[], ContainMode::Hide);
    assert_eq!(plan.hide_apps, vec![2]);
}

#[test]
fn stage_hides_alien_apps_and_parks_only_split_app_windows() {
    let surfaces = PodSurfaces {
        urls: vec!["https://tab.example".into()],
        documents: vec![],
        titles: vec![],
        apps: vec![],
        resource_apps: Default::default(),
    };
    let apps = vec![app(2, "Browser", false), app(3, "Mail", false)];
    let pod_page = window(2, 40, "Tab", Some("https://tab.example"));
    let foreign_same_app = window(2, 41, "Other tab", None);
    let alien = window(3, 50, "Inbox", None);
    let plan = plan_activation(&surfaces, &[pod_page, foreign_same_app, alien], &apps, &[], ContainMode::Stage);
    assert_eq!(plan.arrange.len(), 1, "only the witnessed page stages");
    assert_eq!(plan.park, vec![(2, 41)], "the split app's foreign window parks singly");
    assert_eq!(plan.hide_apps, vec![3], "the alien app hides whole");
    assert!(plan.veil.is_empty());
}

#[test]
fn stage_resurrects_the_pods_own_minimized_windows() {
    let apps = vec![app(1, "Editor", false)];
    let mut parked_member = window(1, 10, "main.ts", Some("/repo/main.ts"));
    parked_member.minimized = true;
    let plan = plan_activation(&pod_surfaces(), &[parked_member], &apps, &[], ContainMode::Stage);
    assert_eq!(plan.unpark_members, vec![(1, 10)], "the space remembers its own parked window");
    assert_eq!(plan.arrange.len(), 1);
    assert!(plan.park.is_empty() && plan.hide_apps.is_empty(), "nothing foreign exists here");
}

#[test]
fn stage_is_the_default_containment() {
    assert_eq!(ContainMode::DEFAULT, ContainMode::Stage);
}

#[test]
fn protected_processes_are_never_touched_in_any_mode() {
    let apps = vec![app(1, "Editor", true), app(2, "Mail", false), app(3, "Evo", true)];
    let windows = [
        window(1, 10, "main.ts", Some("/repo/main.ts")),
        window(2, 20, "Inbox", None),
        window(3, 30, "main.ts", Some("/repo/main.ts")),
        window(3, 31, "Evo Home", None),
    ];
    for mode in [ContainMode::Dim, ContainMode::Park, ContainMode::Hide, ContainMode::Stage] {
        let plan = plan_activation(&pod_surfaces(), &windows, &apps, &[3], mode);
        assert!(plan.arrange.iter().all(|a| a.pid != 3));
        assert!(plan.veil.iter().chain(plan.park.iter()).all(|w| w.0 == 2));
        assert!(!plan.hide_apps.contains(&3) && !plan.unhide_apps.contains(&3));
        assert_ne!(plan.activate, Some(3));
        assert_eq!(plan.unhide_apps, vec![1]);
        if mode == ContainMode::Dim || mode == ContainMode::Park {
            assert!(plan.hide_apps.is_empty());
        }
    }
}

#[test]
fn badges_come_only_from_engine_deltas() {
    let open_deltas = vec![
        Delta::UnsavedEdits { resource: "a.rs".into() },
        Delta::DownloadedNotYetUsed { path: "x.zip".into() },
    ];
    let badges = badges_from_bundle(&open_deltas);
    assert_eq!(badges.len(), 2);
    assert_eq!(badges[0].kind, BadgeKind::UnsavedEdits);
    assert_eq!(badges[1].kind, BadgeKind::DownloadReady);
    assert_eq!(badges[1].subject, "x.zip");
}

#[test]
fn merge_needs_two_anchored_distinct_pods() {
    let a = Some("file:///repo/main.ts".to_string());
    assert!(merge_ready(7, &a, 8, &a));
    assert!(!merge_ready(7, &a, 7, &a));
    assert!(!merge_ready(7, &None, 8, &a));
}

#[test]
fn display_signature_is_sorted_screens_joined() {
    let a = DisplaySignature::from_parts(&vec!["800x600@0,0".to_string(), "1440x900@0,0".to_string()]);
    let b = DisplaySignature::from_parts(&vec!["1440x900@0,0".to_string(), "800x600@0,0".to_string()]);
    assert_eq!(a.0, "1440x900@0,0|800x600@0,0");
    assert_eq!(a, b);
}

#[test]
fn pod_badges_are_ranked_and_listed_once() {
    let open_deltas = vec![
        Delta::DownloadedNotYetUsed { path: "x.zip".into() },
        Delta::UnsavedEdits { resource: "b.rs".into() },
        Delta::UnsavedEdits { resource: "a.rs".into() },
        Delta::UnsavedEdits { resource: "b.rs".into() },
    ];
    let badges = pod_badges(&open_deltas, &vec!["shared.md".to_string()]);
    let shown: Vec<(BadgeKind, &str)> = badges.iter().map(|b| (b.kind, b.subject.as_str())).collect();
    assert_eq!(
        shown,
        vec![
            (BadgeKind::UnsavedEdits, "a.rs"),
            (BadgeKind::UnsavedEdits, "b.rs"),
            (BadgeKind::DownloadReady, "x.zip"),
            (BadgeKind::Contested, "shared.md"),
        ]
    );
}

#[test]
fn bundle_slug_is_dns_safe() {
    assert_eq!(normalize_bundle_id("com.evo", "--Hello  World!!--"), "com.evo.hello-world");
    assert_eq!(normalize_bundle_id("com.evo", "***"), "com.evo.work");
    assert_eq!(normalize_bundle_id("com.evo", "Q3 — Plan"), "com.evo.q3-plan");
}

#[test]
fn ascii_pod_name_gives_lowercase_slug() {
    let id = normalize_bundle_id("com.evo", "Deep WORK -- 2024!");
    assert_eq!(id, "com.evo.deep-work-2024");
    let slug = &id["com.evo.".len()..];
    assert!(slug.chars().all(|c| c.is_ascii_lowercase() || c.is_ascii_digit() || c == '-'));
}

#[test]
fn non_ascii_pod_name_gives_lowercase_slug() {
    assert_eq!(normalize_bundle_id("com.evo", "ÀB Ça"), "com.evo.b-a");
    assert_eq!(normalize_bundle_id("com.evo", "ΣΟΦΙΑ Notes"), "com.evo.notes");
}
