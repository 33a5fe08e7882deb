use evo::ledger::event::ObservedEvent;
use evo::ledger::intervals::{compute_intervals_at, IntervalStatus};
use evo::ledger::search::{build_search_text, extract_urls, match_query, read_hit, SearchRecord};

fn event(ts: u64, app: &str, title: &str, url: Option<&str>, doc: Option<&str>) -> ObservedEvent {
    ObservedEvent {
        timestamp_ms: ts,
        app_name: app.to_string(),
        window_title: title.to_string(),
        url: url.map(String::from),
        document_path: doc.map(String::from),
        typed: false,
        dwell_ms: 1000,
        keys: 0,
        clicks: 0,
        scrolls: 0,
    }
}

#[test]
fn index_text_names_apps_files_titles_hosts_and_urls() {
    let intervals = compute_intervals_at(
        &[event(0, "VS Code", "main.rs — evo", None, Some("/evo/src/main.rs"))],
        0,
    );
    assert_eq!(
        build_search_text(&intervals[0]),
        "VS Code /evo/src/main.rs main.rs main.rs — evo VS Code main.rs — evo /evo/src/main.rs main.rs"
    );
    let intervals = compute_intervals_at(
        &[event(0, "Chrome", "Pitch Deck", Some("https://app.pitch.com/presentation/123"), None)],
        0,
    );
    let text = build_search_text(&intervals[0]);
    assert!(text.contains("app.pitch.com"));
    assert!(text.contains("https://app.pitch.com/presentation/123"));
}

#[test]
fn plain_queries_become_prefix_terms() {
    assert_eq!(match_query("  pitch deck "), Some("pitch* deck*".to_string()));
    assert_eq!(match_query("evo"), Some("evo*".to_string()));
    assert_eq!(match_query("   "), None);
    assert_eq!(match_query(""), None);
}

#[test]
fn index_syntax_passes_through() {
    assert_eq!(match_query("\"pitch deck\""), Some("\"pitch deck\"".to_string()));
    assert_eq!(match_query("task_key_app:Chrome"), Some("task_key_app:Chrome".to_string()));
    assert_eq!(match_query(" pitch OR deck "), Some("pitch OR deck".to_string()));
}

#[test]
fn urls_are_the_url_words() {
    assert_eq!(
        extract_urls("Chrome https://a.example/x  docs http://b.example ftp://c.example"),
        vec!["https://a.example/x", "http://b.example"]
    );
    assert!(extract_urls("").is_empty());
}

#[test]
fn hits_read_back_with_their_matched_field() {
    let row = SearchRecord {
        id: 3,
        document_path: None,
        window_title: Some("Pitch Deck".into()),
        url_host: Some("App.Pitch.com".into()),
        app_name: "Chrome".into(),
        confidence: 80,
        start_ms: 1000,
        end_ms: 2000,
        event_count: 2,
        total_dwell_ms: 900,
        typed_count: 0,
        status: "final".into(),
        search_text: "Chrome Pitch Deck app.pitch.com https://app.pitch.com/presentation/123".into(),
    };
    let (interval, field) = read_hit(&row);
    assert_eq!(field, "url");
    assert_eq!(interval.urls, vec!["https://app.pitch.com/presentation/123"]);
    assert_eq!(interval.task_key.page, None);
    assert_eq!(interval.status, IntervalStatus::Final);
    assert_eq!(interval.event_count, 2);
    let other = SearchRecord { url_host: Some("github.com".into()), ..row };
    assert_eq!(read_hit(&other).1, "text");
    let none = SearchRecord { url_host: None, ..other };
    assert_eq!(read_hit(&none).1, "text");
}
