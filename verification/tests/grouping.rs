use evo::ledger::event::ObservedEvent;
use evo::ledger::grouping::{group_works, group_works_traced, grouping_inputs_readable, order_works, page_key_of};
use evo::ledger::hypotheses::Declarations;
use evo::ledger::intervals::{compute_intervals, WorkInterval};
use evo::ledger::titles::{
    near_duplicate_tokens, recurring_title_chrome, specific_tokens_of, strip_title_chrome, title_segments_of, title_tokens_of,
};
use evo::ledger::works::Work;

fn event(ts: u64, url: Option<&str>, title: &str, app: &str, dwell: u64, keys: u64) -> ObservedEvent {
    ObservedEvent {
        timestamp_ms: ts,
        app_name: app.to_string(),
        window_title: title.to_string(),
        url: url.map(String::from),
        document_path: None,
        typed: keys > 0,
        dwell_ms: dwell,
        keys,
        clicks: 0,
        scrolls: 0,
    }
}

fn video_url(id: &str, list: &str) -> String {
    format!("https://www.youtube.com/watch?v={id}&list={list}")
}

fn grouped(intervals: &[WorkInterval], declarations: &Declarations) -> (Vec<Work>, Vec<evo::ledger::hypotheses::MergeProposal>) {
    assert!(grouping_inputs_readable(intervals, declarations));
    group_works(intervals, declarations)
}

#[test]
fn playlist_and_gear_pages_form_one_trek_work_via_attachment() {
    let day1 = 1_000_000_u64;
    let mut events = vec![
        event(
            day1,
            Some("https://www.arcteryx.com/us/en/c/mens/footwear-hike"),
            "Hiking Boots | Arc'teryx",
            "Chrome",
            400_000,
            40,
        ),
        event(
            day1 + 500_000,
            Some("https://www.arcteryx.com/us/en/c/mens/hats-caps"),
            "Unisex Hats | Arc'teryx",
            "Chrome",
            300_000,
            20,
        ),
    ];
    let day2 = day1 + 40 * 60 * 60 * 1000;
    for i in 0..3 {
        events.push(event(
            day2 + i * 700_000,
            Some(&video_url(&format!("q2VTtop1Zt{i}"), "PLiM-TFJI81RkXy")),
            &format!("Trek Vlog {i} — Gokyo"),
            "Chrome",
            500_000,
            0,
        ));
    }
    let day3 = day2 + 30 * 60 * 60 * 1000;
    events.push(event(
        day3,
        Some("https://www.arcteryx.com/us/en/c/mens/jackets"),
        "Shells | Arc'teryx",
        "Chrome",
        350_000,
        30,
    ));
    events.push(event(
        day3 + 400_000,
        Some(&video_url("q2VTtop1Zt9", "PLiM-TFJI81RkXy")),
        "Renjo La Pass",
        "Chrome",
        100_000,
        0,
    ));
    let intervals = compute_intervals(&events);
    let (works, proposals) = grouped(&intervals, &Declarations::default());
    assert!(works.len() >= 2, "playlist and gear are distinct evidence groups");
    assert!(proposals.is_empty(), "one shared sitting is not enough to propose");
    for work in &works {
        assert!(!work.identity.contains("youtube.com"));
        assert!(!work.identity.contains("arcteryx.com"));
    }
}

#[test]
fn unrelated_videos_never_share_a_work() {
    let base = 1_000_000_u64;
    let events = vec![
        event(base, Some(&video_url("trekVideo001", "PLtreklist00")), "Gokyo Trek", "Chrome", 500_000, 0),
        event(base + 700_000, Some(&video_url("trekVideo002", "PLtreklist00")), "Renjo La", "Chrome", 500_000, 0),
        event(
            base + 40 * 60 * 60 * 1000,
            Some(&video_url("comedyVid01", "PLcomedylist")),
            "Standup Night",
            "Chrome",
            500_000,
            0,
        ),
    ];
    let intervals = compute_intervals(&events);
    let (works, _) = grouped(&intervals, &Declarations::default());
    assert_eq!(works.len(), 2, "trek playlist and comedy are different works");
}

#[test]
fn ambient_music_never_bridges_works() {
    let base = 1_000_000_u64;
    let mut events = vec![
        event(base, Some("https://music.example.com/playlist/lofi"), "Lo-fi Beats", "Browser", 50_000, 0),
        event(base + 10_000, None, "main.rs — project", "ZCode", 600_000, 300),
    ];
    let day2 = base + 40 * 60 * 60 * 1000;
    events.push(event(day2, Some("https://music.example.com/playlist/lofi"), "Lo-fi Beats", "Browser", 60_000, 0));
    for i in 0..3 {
        events.push(event(
            day2 + 20_000 + i * 500_000,
            Some(&video_url(&format!("trekVid000{i}"), "PLtreklist00")),
            &format!("Trek {i}"),
            "Chrome",
            400_000,
            0,
        ));
    }
    let intervals = compute_intervals(&events);
    let (works, _) = grouped(&intervals, &Declarations::default());
    for work in &works {
        for title in &work.titles {
            assert!(title != "Lo-fi Beats", "ambient music joined a work: {title}");
        }
        for url in &work.urls {
            assert!(!url.contains("music.example.com"), "ambient music page joined a work");
        }
    }
    assert_eq!(works.len(), 2, "coding and trek stay separate");
}

#[test]
fn attachment_requires_meaningful_share() {
    let base = 1_000_000_u64;
    let events = vec![
        event(base, Some("https://www.arcteryx.com/us/en/c/gear"), "Gear | Arc'teryx", "Chrome", 640_000, 60),
        event(base + 100_000, Some(&video_url("somevideo01", "PLotherlist0")), "Some Video", "Chrome", 20_000, 0),
    ];
    let intervals = compute_intervals(&events);
    let (works, _) = grouped(&intervals, &Declarations::default());
    assert_eq!(works.len(), 1);
    assert!(works[0].urls.iter().all(|u| !u.contains("youtube.com")));
}

#[test]
fn declared_same_work_merges_and_names() {
    let base = 1_000_000_u64;
    let day2 = base + 40 * 60 * 60 * 1000;
    let events = vec![
        event(base, Some("https://www.arcteryx.com/us/en/c/gear"), "Gear | Arc'teryx", "Chrome", 600_000, 60),
        event(day2, Some(&video_url("trekVid0001", "PLtreklist00")), "Gokyo Trek", "Chrome", 600_000, 0),
    ];
    let intervals = compute_intervals(&events);
    let before = grouped(&intervals, &Declarations::default()).0;
    assert_eq!(before.len(), 2, "without the declaration they are separate");

    let declarations = Declarations {
        same_work: vec![(
            "https://www.arcteryx.com/us/en/c/gear".to_string(),
            video_url("trekVid0001", "PLtreklist00"),
        )],
        named: vec![("https://www.arcteryx.com/us/en/c/gear".to_string(), "Gokyo Trek Planning".to_string())],
    };
    let (works, _) = grouped(&intervals, &declarations);
    assert_eq!(works.len(), 1, "the declaration is ground truth");
    assert_eq!(works[0].identity, "Gokyo Trek Planning");
    assert!(works[0].urls.len() >= 2, "both resources belong to the work");
}

#[test]
fn co_sitting_works_get_a_merge_proposal() {
    let base = 1_000_000_u64;
    let mut events = Vec::new();
    for day in 0..2 {
        let day_start = base + day * 40 * 60 * 60 * 1000;
        events.push(event(day_start, Some("https://www.arcteryx.com/us/en/c/gear"), "Gear | Arc'teryx", "Chrome", 500_000, 50));
        events.push(event(
            day_start + 550_000,
            Some(&video_url("trekVid0001", "PLtreklist00")),
            "Gokyo Trek",
            "Chrome",
            400_000,
            0,
        ));
    }
    let intervals = compute_intervals(&events);
    let (works, proposals) = grouped(&intervals, &Declarations::default());
    assert_eq!(works.len(), 2, "they remain two works");
    assert_eq!(proposals.len(), 1, "one merge proposal across two sittings");
    assert_eq!(proposals[0].shared_sittings, 2);
    let (a, b) = (proposals[0].work_a, proposals[0].work_b);
    assert!(a < works.len() && b < works.len() && a != b, "proposals index the returned works");
}

#[test]
fn a_substantial_interleaved_chat_stays_its_own_work() {
    let base = 1_000_000_u64;
    let events = vec![
        event(base, Some("https://www.arcteryx.com/us/en/c/boots"), "Boots | Arc'teryx", "Chrome", 300_000, 30),
        event(
            base + 50_000,
            Some("https://chat.example.ai/chat/f5c116b5-5fea-4f64-bfda-ef61c96c886e"),
            "Kundli Analysis",
            "Chrome",
            400_000,
            500,
        ),
        event(base + 460_000, Some("https://www.arcteryx.com/us/en/c/shells"), "Shells | Arc'teryx", "Chrome", 300_000, 20),
        event(
            base + 770_000,
            Some("https://chat.example.ai/chat/f5c116b5-5fea-4f64-bfda-ef61c96c886e"),
            "Kundli Analysis",
            "Chrome",
            300_000,
            400,
        ),
    ];
    let intervals = compute_intervals(&events);
    let (works, _) = grouped(&intervals, &Declarations::default());
    let chat_works: Vec<&Work> = works.iter().filter(|w| w.urls.iter().any(|u| u.contains("chat.example.ai"))).collect();
    let gear_works: Vec<&Work> = works.iter().filter(|w| w.urls.iter().any(|u| u.contains("arcteryx.com"))).collect();
    assert_eq!(chat_works.len(), 1, "the chat is its own work");
    assert_eq!(gear_works.len(), 1, "the gear browsing is its own work");
    assert_ne!(chat_works[0].identity, gear_works[0].identity, "2-second adjacency must not merge them");
}

#[test]
fn recurring_title_chrome_is_stripped_before_comparison() {
    let titles: Vec<String> = vec![
        "Boots — Google Chrome – BHAVIT".into(),
        "Chart — Google Chrome – BHAVIT".into(),
        "Maps — Google Chrome – BHAVIT".into(),
        "one thing".into(),
        "another thing entirely".into(),
    ];
    let chrome = recurring_title_chrome(&titles);
    assert!(chrome.contains(&"Google Chrome – BHAVIT".to_string()), "suffix detected: {chrome:?}");
    assert_eq!(
        strip_title_chrome("Boots — Google Chrome – BHAVIT", &chrome),
        "Boots",
        "chrome and everything after it is not the page's name"
    );

    let mut events = vec![
        event(1_000, Some("https://shop.example.com/boots"), "Boots — Google Chrome – BHAVIT", "Chrome", 400_000, 10),
        event(500_000, Some("https://shop.example.com/chart"), "Chart — Google Chrome – BHAVIT", "Chrome", 400_000, 10),
        event(1_000_000, Some("https://shop.example.com/maps"), "Maps — Google Chrome – BHAVIT", "Chrome", 400_000, 10),
    ];
    for i in 0..27 {
        events.push(event(
            2_000_000 + i * 100_000,
            Some(&format!("https://other{i}.example.com/page{i}")),
            &format!("Distinct page number {i}"),
            "Chrome",
            10_000,
            0,
        ));
    }
    let intervals = compute_intervals(&events);
    let (works, _) = grouped(&intervals, &Declarations::default());
    let boots_work: Vec<&Work> = works.iter().filter(|w| w.titles.iter().any(|t| t.starts_with("Boots"))).collect();
    let chart_in_boots = boots_work.first().map(|w| w.titles.iter().any(|t| t.starts_with("Chart"))).unwrap_or(false);
    assert!(!chart_in_boots, "a shared browser suffix must never bridge two pages");
}

#[test]
fn work_members_are_sticky_across_sittings() {
    let day2 = 40 * 60 * 60 * 1000_u64;
    let events = vec![
        event(1_000, Some(&video_url("stickyVid001", "PLstickylist0")), "Trek A", "Chrome", 240_000, 0),
        event(day2, Some(&video_url("stickyVid002", "PLstickylist0")), "Trek B", "Chrome", 60_000, 0),
        event(2 * day2, Some("https://www.arcteryx.com/us/en/c/gear"), "Gear | Arc'teryx", "Chrome", 500_000, 50),
        event(2 * day2 + 520_000, Some(&video_url("stickyVid001", "PLstickylist0")), "Trek A", "Chrome", 50_000, 0),
    ];
    let intervals = compute_intervals(&events);
    let (works, _) = grouped(&intervals, &Declarations::default());
    let gear_works: Vec<&Work> = works.iter().filter(|w| w.urls.iter().any(|u| u.contains("arcteryx.com"))).collect();
    assert_eq!(gear_works.len(), 1, "the gear work exists");
    assert!(
        !gear_works[0].urls.iter().any(|u| u.contains("stickyVid")),
        "a playlist member never attaches into the gear work"
    );
}

fn token_corpus(n: usize) -> Vec<ObservedEvent> {
    (0..n)
        .map(|i| {
            event(
                1_000 + i as u64 * 100_000,
                Some(&format!("https://site.example.com/page{i}?session=SharedSessionToken01")),
                &format!("Page {i}"),
                "Chrome",
                60_000,
                0,
            )
        })
        .collect()
}

#[test]
fn shared_token_links_cap_at_thirty_pages() {
    let intervals = compute_intervals(&token_corpus(30));
    assert!(grouping_inputs_readable(&intervals, &Declarations::default()));
    let (_, _, trace) = group_works_traced(&intervals, &Declarations::default());
    assert!(
        trace.iter().any(|t| t.contains("token SharedSessionToken01")),
        "30 pages sharing a token are one structural group"
    );
    let intervals = compute_intervals(&token_corpus(31));
    let (_, _, trace) = group_works_traced(&intervals, &Declarations::default());
    assert!(
        !trace.iter().any(|t| t.contains("token SharedSessionToken01")),
        "31 pages sharing a token is a site-wide id, not a collection"
    );
}

#[test]
fn quarantine_spares_shared_ground_and_same_work_presence() {
    let day2 = 40 * 60 * 60 * 1000_u64;
    let events = vec![
        event(1_000, None, "ZCode", "ZCode", 500_000, 300),
        event(520_000, Some("https://chat.example.ai/chat/aaa11111-bbbb"), "Planning Chat", "Chrome", 100_000, 200),
        event(day2, Some("https://www.arcteryx.com/us/en/c/gear"), "Gear | Arc'teryx", "Chrome", 500_000, 50),
        event(day2 + 520_000, Some("https://chat.example.ai/chat/aaa11111-bbbb"), "Planning Chat", "Chrome", 100_000, 150),
        event(1_000 + 500_000, Some("https://docs.example.com/reference"), "Reference Guide", "Chrome", 80_000, 0),
        event(2 * day2, None, "ZCode", "ZCode", 400_000, 200),
        event(2 * day2 + 420_000, Some("https://docs.example.com/reference"), "Reference Guide", "Chrome", 80_000, 0),
    ];
    let intervals = compute_intervals(&events);
    let (works, _) = grouped(&intervals, &Declarations::default());
    let chat_works: Vec<&Work> =
        works.iter().filter(|w| w.urls.iter().any(|u| u.contains("chat.example.ai/chat/aaa11111"))).collect();
    assert!(
        chat_works.len() >= 2,
        "a typed page spanning two works joins both, expected >= 2, got {}",
        chat_works.len()
    );
    let zcode_works: Vec<&Work> = works.iter().filter(|w| w.apps.iter().any(|a| a == "ZCode")).collect();
    assert_eq!(zcode_works.len(), 1, "one ZCode work");
    assert!(
        zcode_works[0].urls.iter().any(|u| u.contains("docs.example.com/reference")),
        "a page recurring within one work's sittings attaches to it"
    );
}

// ── Further cases ──────────────────────────────────────────────────────────

#[test]
fn no_intervals_no_works_no_trace() {
    let declarations = Declarations {
        same_work: vec![("https://a.example.com/x".to_string(), "https://b.example.com/y".to_string())],
        named: Vec::new(),
    };
    let (works, proposals, trace) = group_works_traced(&[], &declarations);
    assert!(works.is_empty());
    assert!(proposals.is_empty());
    assert!(trace.is_empty());
}

#[test]
fn page_keys_follow_identity_precedence() {
    let events = vec![
        event(1_000, Some("https://shop.example.com/boots"), "Boots", "Chrome", 60_000, 0),
        event(200_000, None, "Notes", "Editor", 60_000, 0),
        event(400_000, None, "", "Terminal", 60_000, 0),
    ];
    let intervals = compute_intervals(&events);
    let keys: Vec<String> = intervals.iter().map(page_key_of).collect();
    assert_eq!(keys[0], "page:https://shop.example.com/boots");
    assert_eq!(keys[1], "title:Notes");
    assert_eq!(keys[2], "app:Terminal");
}

#[test]
fn title_tokens_drop_function_words_and_numbers() {
    let tokens = title_tokens_of("The Gokyo Trek, day 12 — and the Renjo La pass 2024");
    assert_eq!(tokens, vec!["gokyo".to_string(), "trek".to_string(), "renjo".to_string(), "pass".to_string()]);
}

#[test]
fn title_segments_split_on_both_dashes() {
    let segs = title_segments_of("Boots — Google Chrome - Profile -  ");
    assert_eq!(segs, vec!["Boots".to_string(), "Google Chrome".to_string(), "Profile".to_string()]);
}

#[test]
fn near_duplicates_need_a_quarter_shared() {
    let a = vec!["gokyo".to_string(), "trek".to_string(), "map".to_string()];
    let b = vec!["gokyo".to_string(), "lakes".to_string(), "boots".to_string()];
    let c = vec!["renjo".to_string(), "lakes".to_string(), "boots".to_string(), "shell".to_string()];
    // 1 shared of 5 distinct: 1/5 < 1/4.
    assert!(!near_duplicate_tokens(&a, &b));
    // 2 shared of 5 distinct.
    assert!(near_duplicate_tokens(&b, &c));
    assert!(!near_duplicate_tokens(&a, &Vec::new()));
}

#[test]
fn established_work_reports_its_totals() {
    let events = vec![
        event(1_000, Some("https://docs.example.com/guide"), "Guide", "Chrome", 400_000, 12),
        event(500_000, Some("https://docs.example.com/guide"), "Guide", "Chrome", 100_000, 3),
    ];
    let intervals = compute_intervals(&events);
    let (works, proposals, trace) = group_works_traced(&intervals, &Declarations::default());
    assert_eq!(works.len(), 1);
    assert_eq!(works[0].identity, "Guide");
    assert_eq!(works[0].total_time_ms, 500_000);
    assert_eq!(works[0].keys, 15);
    assert!(works[0].has_production);
    assert_eq!(works[0].session_count_override, Some(1));
    assert!(proposals.is_empty());
    assert_eq!(trace.last().unwrap(), "[work] Guide from page:https://docs.example.com/guide: 1 pages");
}

#[test]
fn works_are_shown_most_recent_first() {
    let events = vec![
        event(1_000, Some("https://old.example.com/a"), "Old", "Chrome", 400_000, 5),
        event(40 * 60 * 60 * 1000, Some("https://new.example.com/b"), "New", "Chrome", 400_000, 5),
    ];
    let intervals = compute_intervals(&events);
    let (works, _) = grouped(&intervals, &Declarations::default());
    assert_eq!(works.len(), 2);
    assert_eq!(works[0].identity, "New");
    let again = order_works(&works);
    assert_eq!(again[0].identity, "New");
    assert_eq!(again[1].identity, "Old");
}

#[test]
fn hub_tokens_in_most_titles_are_discounted() {
    let sets = vec![
        vec!["chrome".to_string()],
        vec!["chrome".to_string(), "beta".to_string()],
        vec!["alpha chrome".to_string()],
    ];
    assert_eq!(specific_tokens_of(&sets, &vec![], "alpha chrome"), vec!["alpha".to_string()]);
    assert_eq!(specific_tokens_of(&sets, &vec![], "beta gamma"), vec!["gamma".to_string()]);
}
