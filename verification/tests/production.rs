use evo::ledger::event::{ObservedEvent, ProductionSave};
use evo::ledger::intervals::compute_intervals_at;
use evo::ledger::production::{attention_row, attribute_saves, merge_saves, AttentionRow};

fn row(id: i64, start: u64, end: u64, typed: u32, surface: &str) -> AttentionRow {
    attention_row(id, start as i64, end as i64, typed as i64, surface, "", "", "")
}

fn save(ts: u64, path: &str) -> ProductionSave {
    ProductionSave { timestamp_ms: ts, path: path.to_string() }
}

fn focus_event(ts: u64, title: &str) -> ObservedEvent {
    ObservedEvent {
        timestamp_ms: ts,
        app_name: title.to_string(),
        window_title: title.to_string(),
        url: None,
        document_path: None,
        typed: false,
        dwell_ms: 350_000,
        keys: 0,
        clicks: 0,
        scrolls: 0,
    }
}

fn input_event(ts: u64, app: &str) -> ObservedEvent {
    ObservedEvent { typed: true, ..focus_event(ts, app) }
}

/// The attention rows a ledger holds after ingesting `events`: the
/// intervals formed from them, read back as the ledger reads them.
fn ledger_rows(events: &[ObservedEvent]) -> Vec<AttentionRow> {
    let intervals = compute_intervals_at(events, 10_000_000_000);
    intervals
        .iter()
        .enumerate()
        .map(|(i, iv)| {
            attention_row(
                i as i64 + 1,
                iv.start_ms as i64,
                iv.end_ms as i64,
                iv.typed_count as i64,
                iv.task_key.window_title.as_deref().unwrap_or(""),
                iv.task_key.url_host.as_deref().unwrap_or(""),
                iv.task_key.document_path.as_deref().unwrap_or(""),
                &iv.urls.join("\n"),
            )
        })
        .collect()
}

fn documents_of(per_interval: &[(i64, Vec<String>)]) -> Vec<String> {
    per_interval.iter().flat_map(|(_, d)| d.iter().cloned()).collect()
}

#[test]
fn save_attaches_to_interval_naming_the_file() {
    let rows = ledger_rows(&[
        focus_event(1000, "app.rs — Evo-Evolution — Untracked"),
        focus_event(61_000, "app.rs — Evo-Evolution — Untracked"),
    ]);
    let out = attribute_saves(&rows, &vec![save(30_000, "/Users/…/crates/evo-desktop/src/app.rs")]);
    assert_eq!((out.attached, out.dropped), (1, 0), "title names app.rs → attaches");
    assert!(documents_of(&out.per_interval).contains(&"/Users/…/crates/evo-desktop/src/app.rs".to_string()));
}

#[test]
fn background_save_is_dropped_not_a_work() {
    let rows = ledger_rows(&[
        focus_event(1000, "app.rs — Evo-Evolution — Untracked"),
        focus_event(61_000, "app.rs — Evo-Evolution — Untracked"),
    ]);
    let out = attribute_saves(
        &rows,
        &vec![
            save(30_000, "/Users/…/Photos Library.photoslibrary/database/search/Spotlight/NSFileProtection.idx"),
            save(35_000, "/Users/…/target/debug/incremental/evo_daemon-3c3bu2-a1b2c3d4e5f6.lock"),
        ],
    );
    assert_eq!((out.attached, out.dropped), (0, 2), "no attention surface names these files");
    assert_eq!(rows.len(), 1, "saves alone never create works");
    assert!(out.per_interval.is_empty());
}

#[test]
fn save_too_far_from_attention_is_dropped() {
    let rows = ledger_rows(&[focus_event(1000, "report.pdf — Preview"), focus_event(61_000, "report.pdf — Preview")]);
    let out = attribute_saves(&rows, &vec![save(61_000 + 30 * 60 * 1000, "/Users/…/report.pdf")]);
    assert_eq!((out.attached, out.dropped), (0, 1), "save long after attention = noise");
}

#[test]
fn presence_rule_attaches_agent_and_terminal_work() {
    let rows = ledger_rows(&[focus_event(1000, "ZCode"), input_event(20_000, "ZCode"), input_event(30_000, "ZCode")]);
    let out = attribute_saves(&rows, &vec![save(25_000, "/Users/…/Evo/crates/evo-ledger/src/production.rs")]);
    assert_eq!((out.attached, out.dropped), (1, 0), "typing + quiet path = the person's production");
    assert!(documents_of(&out.per_interval).contains(&"/Users/…/Evo/crates/evo-ledger/src/production.rs".to_string()));
}

#[test]
fn periodically_written_path_is_machine_managed() {
    let rows = ledger_rows(&[focus_event(1000, "ZCode"), input_event(20_000, "ZCode")]);
    let saves: Vec<ProductionSave> =
        (0..5).map(|i| save(10_000 + i * 60_000, "/Users/…/Music/MusicCatalogData.db")).collect();
    let out = attribute_saves(&rows, &saves);
    assert_eq!((out.attached, out.dropped), (0, 5), "periodic same-path writes = machine-managed");
}

#[test]
fn save_during_directory_storm_is_dropped() {
    let rows = ledger_rows(&[focus_event(1000, "ZCode"), input_event(20_000, "ZCode")]);
    let saves: Vec<ProductionSave> =
        (0..10).map(|i| save(15_000 + i * 1_000, &format!("/Users/…/Evo/target/debug/deps/libpart_{i}.rlib"))).collect();
    let out = attribute_saves(&rows, &saves);
    assert_eq!((out.attached, out.dropped), (0, 10), "write storms are machine output, never production");
}

#[test]
fn save_attaches_to_nearest_naming_interval() {
    let rows = ledger_rows(&[
        focus_event(1000, "notes.md"),
        focus_event(61_000, "notes.md"),
        focus_event(3_661_000, "notes.md — older session"),
        focus_event(3_721_000, "notes.md — older session"),
    ]);
    let out = attribute_saves(&rows, &vec![save(3_700_000, "/Users/…/notes.md")]);
    assert_eq!(out.attached, 1);
    assert!(documents_of(&out.per_interval).contains(&"/Users/…/notes.md".to_string()));
}

#[test]
fn attach_is_idempotent_across_rebuilds() {
    let rows = ledger_rows(&[focus_event(1000, "app.rs — Evo"), focus_event(61_000, "app.rs — Evo")]);
    let saves = vec![save(30_000, "/Users/…/app.rs")];
    let first = attribute_saves(&rows, &saves);
    assert_eq!(first.per_interval.len(), 1);
    let paths = &first.per_interval[0].1;
    let (docs, search, _) = merge_saves("", "", paths);
    // Engine rebuilds re-run attach.
    let again = attribute_saves(&rows, &saves);
    let (docs2, _, added) = merge_saves(&docs, &search, &again.per_interval[0].1);
    assert_eq!(added, 0);
    let doc_count = docs2.lines().filter(|d| *d == "/Users/…/app.rs").count();
    assert_eq!(doc_count, 1, "the same save attaches exactly once");
}

#[test]
fn attached_document_is_searchable() {
    let rows = ledger_rows(&[
        focus_event(1000, "waitlist template — Figma"),
        focus_event(61_000, "waitlist template — Figma"),
    ]);
    let out = attribute_saves(&rows, &vec![save(30_000, "/Users/…/Designs/waitlist-template-copy.fig")]);
    let paths: Vec<String> = documents_of(&out.per_interval);
    let (_docs, search, _) = merge_saves("", "waitlist template — Figma", &paths);
    assert!(search.contains("waitlist"), "attached document keeps the work findable");
}

#[test]
fn background_photo_store_save_is_dropped() {
    let rows = vec![row(1, 1000, 61_000, 0, "app.rs — Evo-Evolution — Untracked")];
    let out = attribute_saves(&rows, &vec![save(30_000, "/Users/me/Pictures/Photos Library.photoslibrary/database/Photos.sqlite-wal")]);
    assert_eq!((out.attached, out.dropped), (0, 1));
    assert!(out.per_interval.is_empty());
}

#[test]
fn grace_window_ends_five_minutes_after_attention() {
    let rows = vec![row(1, 1000, 61_000, 0, "app.rs — editor")];
    let out = attribute_saves(&rows, &vec![save(61_000 + 300_001, "/src/app.rs")]);
    assert_eq!((out.attached, out.dropped), (0, 1));
    let out = attribute_saves(&rows, &vec![save(61_000 + 300_000, "/src/app.rs")]);
    assert_eq!((out.attached, out.dropped), (1, 0));
}

#[test]
fn typing_in_a_terminal_attaches_a_quiet_path() {
    let rows = vec![row(4, 1000, 400_000, 2, "terminal")];
    let out = attribute_saves(&rows, &vec![save(200_000, "/Users/me/project/src/engine.rs")]);
    assert_eq!((out.attached, out.dropped), (1, 0));
    assert_eq!(out.per_interval[0].0, 4);
}

#[test]
fn hourly_writes_of_one_path_are_machine_managed() {
    let rows = vec![row(1, 0, 86_400_000 * 3, 1, "terminal")];
    let saves: Vec<ProductionSave> = (0..13).map(|i| save(1_000 + i * 3_600_000, "/Users/me/project/state.json")).collect();
    let out = attribute_saves(&rows, &saves);
    assert_eq!(out.attached, 0, "a path written like a schedule is not production");
    assert_eq!(out.dropped, 13);
}

#[test]
fn build_output_storm_is_dropped() {
    let rows = vec![row(1, 0, 600_000, 1, "terminal")];
    let saves: Vec<ProductionSave> =
        (0..8).map(|i| save(100_000 + i * 1_000, &format!("/Users/me/project/target/debug/f{i}.o"))).collect();
    let out = attribute_saves(&rows, &saves);
    assert_eq!(out.attached, 0, "a build storm is machine output");
}

#[test]
fn nearest_of_two_naming_intervals_wins() {
    let rows = vec![
        row(1, 0, 10_000, 0, "report.md — editor"),
        row(2, 200_000, 210_000, 0, "report.md — editor"),
    ];
    let out = attribute_saves(&rows, &vec![save(190_000, "/docs/report.md")]);
    assert_eq!(out.per_interval, vec![(2, vec!["/docs/report.md".to_string()])]);
}

#[test]
fn hidden_and_blob_names_never_attach_by_presence() {
    let rows = vec![row(1, 0, 600_000, 3, "terminal")];
    let out = attribute_saves(
        &rows,
        &vec![
            save(1_000, "/Users/me/project/.DS_Store"),
            save(2_000, "/Users/me/cache/3f2a9c0d4b1e8f7a6c5d4e3f2a1b0c9d.bin"),
            save(3_000, "/Users/me/jobs/20240917123456.log"),
        ],
    );
    assert_eq!((out.attached, out.dropped), (0, 3));
}

#[test]
fn fanned_out_names_are_machine_generated() {
    let rows = vec![row(1, 0, 600_000, 3, "terminal")];
    let saves: Vec<ProductionSave> =
        (0..4).map(|i| save(1_000 + i * 200_000, &format!("/Users/me/b{i}/out/build.sh"))).collect();
    let out = attribute_saves(&rows, &saves);
    assert_eq!(out.attached, 0, "one name in four directories is a build script fan-out");
}

#[test]
fn merging_the_same_paths_twice_adds_nothing() {
    let paths = vec!["/src/app.rs".to_string()];
    let (docs, search, newly) = merge_saves("", "Editor app.rs", &paths);
    assert_eq!((docs.as_str(), search.as_str(), newly), ("/src/app.rs", "Editor app.rs /src/app.rs app.rs", 1));
    let (docs2, search2, newly2) = merge_saves(&docs, &search, &paths);
    assert_eq!((docs2, search2, newly2), (docs, search, 0), "the same save attaches exactly once");
}

#[test]
fn merged_document_names_join_the_search_text() {
    let (docs, search, newly) =
        merge_saves("/a.md\n", "x", &vec!["/a.md".to_string(), "/deep/dir/b.txt".to_string()]);
    assert_eq!(newly, 1);
    assert_eq!(docs, "/a.md\n/deep/dir/b.txt");
    assert!(search.contains("b.txt"));
}

#[test]
fn rows_read_their_surface_lowercased() {
    let r = attention_row(9, -1, 5, -3, "Main.RS", "Example.com", "/A/B.rs", "HTTPS://X");
    assert_eq!(r.surface, "main.rs example.com /a/b.rs https://x");
    assert_eq!((r.start_ms, r.end_ms, r.typed_count), (0, 5, 0));
}

#[test]
fn attaching_never_lists_a_path_twice() {
    let paths = vec!["/w/b.rs".to_string(), "/w/c.rs".to_string(), "/w/c.rs".to_string()];
    let (docs, _search, added) = merge_saves("/w/a.rs\n/w/b.rs", "", &paths);
    assert_eq!(docs, "/w/a.rs\n/w/b.rs\n/w/c.rs");
    assert_eq!(added, 1);
}
