use evo::ledger::event::ObservedEvent;
use evo::ledger::identity::{extract_host, IdentityChain};

fn ev(app: &str, title: &str, url: Option<&str>, doc: Option<&str>) -> ObservedEvent {
    ObservedEvent {
        timestamp_ms: 1000,
        app_name: app.to_string(),
        window_title: title.to_string(),
        url: url.map(String::from),
        document_path: doc.map(String::from),
        typed: false,
        dwell_ms: 5000,
        keys: 0,
        clicks: 0,
        scrolls: 0,
    }
}

// Confidence is kept in hundredths: 85 stands for 0.85.

#[test]
fn document_path_outranks_everything() {
    let event = ev("VS Code", "some title", Some("https://example.com"), Some("/src/main.rs"));
    let key = IdentityChain::resolve(&event);
    assert_eq!(key.document_path, Some("/src/main.rs".to_string()));
    assert_eq!(key.confidence, 85);
}

#[test]
fn page_outranks_window_title() {
    let a = IdentityChain::resolve(&ev("Chrome", "Page 1", Some("https://example.com/a?x=1"), None));
    let b = IdentityChain::resolve(&ev("Chrome", "Page 2", Some("https://example.com/a?x=1"), None));
    assert!(IdentityChain::same_work(&a, &b), "same page = same resource despite different titles");
    let c = IdentityChain::resolve(&ev("Chrome", "Page 2", Some("https://example.com/b"), None));
    assert!(!IdentityChain::same_work(&a, &c), "different pages on one host are different resources");
    assert_eq!(a.confidence, 80, "page confidence");
}

#[test]
fn window_title_when_no_url() {
    let event = ev("Terminal", "My Project — Terminal", None, None);
    let key = IdentityChain::resolve(&event);
    assert_eq!(key.window_title, Some("My Project — Terminal".to_string()));
    assert_eq!(key.confidence, 70);
}

#[test]
fn app_name_is_the_fallback() {
    let event = ev("Terminal", "", None, None);
    let key = IdentityChain::resolve(&event);
    assert_eq!(key.app_name, "Terminal");
    assert_eq!(key.confidence, 60);
}

#[test]
fn same_document_means_same_work() {
    let a = IdentityChain::resolve(&ev("VS Code", "title A", None, Some("/doc.rs")));
    let b = IdentityChain::resolve(&ev("Other App", "title B", None, Some("/doc.rs")));
    assert!(IdentityChain::same_work(&a, &b));
}

#[test]
fn different_domains_mean_different_work() {
    let a = IdentityChain::resolve(&ev("Chrome", "x", Some("https://github.com/a"), None));
    let b = IdentityChain::resolve(&ev("Chrome", "x", Some("https://gitlab.com/b"), None));
    assert!(!IdentityChain::same_work(&a, &b));
}

#[test]
fn different_apps_different_work() {
    let a = IdentityChain::resolve(&ev("Terminal", "", None, None));
    let b = IdentityChain::resolve(&ev("Chrome", "", None, None));
    assert!(!IdentityChain::same_work(&a, &b));
}

#[test]
fn host_extraction_strips_www_and_path() {
    assert_eq!(extract_host("https://www.example.com/path?q=1"), Some("example.com".to_string()));
    assert_eq!(extract_host("http://api.service.io/v2/endpoint"), Some("api.service.io".to_string()));
    assert_eq!(extract_host("not-a-url"), None);
}

#[test]
fn blank_signals_fall_through_the_chain() {
    let key = IdentityChain::resolve(&ev("Chrome", "  ", Some("   "), Some(" ")));
    assert_eq!(key.document_path, None);
    assert_eq!(key.page, None);
    assert_eq!(key.window_title, None);
    assert_eq!(key.url_host, None);
    assert_eq!(key.confidence, 60);
    let key = IdentityChain::resolve(&ev("Chrome", "t", Some("https://www.site.org/x"), None));
    assert_eq!(key.url_host, Some("site.org".to_string()));
    assert_eq!(key.page, Some("https://site.org/x".to_string()));
}
