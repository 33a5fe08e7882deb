use evo::ledger::pages::{canonical_page, is_opaque_token, opaque_tokens, percent_decode};

#[test]
fn youtube_video_and_playlist_identity() {
    let a = canonical_page("https://www.youtube.com/watch?v=q2VTtop1Ztk&list=PLiM-TFJI81RkXy&index=4").unwrap();
    let b = canonical_page("https://www.youtube.com/watch?list=PLiM-TFJI81RkXy&v=q2VTtop1Ztk").unwrap();
    assert_eq!(a, b, "parameter order must not change page identity");
    assert!(a.contains("v=q2VTtop1Ztk"));
    assert!(a.contains("list=PLiM-TFJI81RkXy"));
    assert!(!a.contains("index="), "word-valued filter dropped");

    let tokens = opaque_tokens(&a);
    assert!(tokens.contains(&"q2VTtop1Ztk".to_string()));
    assert!(tokens.contains(&"PLiM-TFJI81RkXy".to_string()));
}

#[test]
fn different_videos_on_one_host_are_different_pages() {
    let a = canonical_page("https://www.youtube.com/watch?v=eswW2BoFAUs").unwrap();
    let b = canonical_page("https://www.youtube.com/watch?v=teILJMaplT4").unwrap();
    assert_ne!(a, b, "the video id, not the host, is the identity");
}

#[test]
fn chat_pages_are_path_identified() {
    let chat = canonical_page("https://chat.example.ai/chat/f5c116b5-5fea-4f64-bfda-ef61c96c886e").unwrap();
    assert_eq!(chat, "https://chat.example.ai/chat/f5c116b5-5fea-4f64-bfda-ef61c96c886e");
    let other = canonical_page("https://chat.example.ai/chat/0743b1a2-other").unwrap();
    assert_ne!(chat, other, "each chat is its own page");
}

#[test]
fn search_pages_keep_their_query() {
    let search = canonical_page("https://www.google.com/search?q=how+to+screen+cast+mac+to+redmi+tv&rlz=1E5").unwrap();
    assert!(search.contains("q=how+to+screen+cast"), "the query text is the page");
    assert!(!search.contains("rlz="), "tracking/nonce param dropped");
    let other = canonical_page("https://www.google.com/search?q=laptop+deals").unwrap();
    assert_ne!(search, other);
}

#[test]
fn category_pages_are_path_identified() {
    let a = canonical_page("https://arcteryx.com/us/en/c/mens/footwear-hike/wid-kjyr4dq9?activity=trail").unwrap();
    assert_eq!(
        a, "https://arcteryx.com/us/en/c/mens/footwear-hike/wid-kjyr4dq9",
        "activity filter is not identity, the path is"
    );
    let b = canonical_page("https://www.arcteryx.com/us/en/c/mens/footwear-hike/").unwrap();
    assert_ne!(a, b, "different category paths are different pages");
}

#[test]
fn tracking_standard_is_stripped_everywhere() {
    let a = canonical_page("https://example.com/page?utm_source=newsletter&utm_campaign=hike&id=88f2a1Bc").unwrap();
    assert!(!a.contains("utm_"));
    assert!(a.contains("id=88f2a1Bc"), "the opaque id survives");
}

#[test]
fn non_urls_are_rejected() {
    assert!(canonical_page("not a url").is_none());
    assert!(canonical_page("localhost").is_none());
    assert!(canonical_page("https://").is_none());
    assert!(canonical_page("file:///Users/a/report.md").is_none());
}

#[test]
fn opaque_detection_separates_tokens_from_words() {
    assert!(is_opaque_token("q2VTtop1Ztk"));
    assert!(is_opaque_token("PLiM-TFJI81RkXy"));
    assert!(is_opaque_token("f5c116b5-5fea-4f64-bfda-ef61c96c886e"));
    assert!(is_opaque_token("6a9a869fc1ae2e6ef84e439f"));
    assert!(!is_opaque_token("hiking"));
    assert!(!is_opaque_token("products"));
    assert!(!is_opaque_token("trail"));
    assert!(!is_opaque_token("v"));
    assert!(!is_opaque_token("youtube.com"));
    assert!(!is_opaque_token("music.example.com"));
    assert!(!is_opaque_token("how-to-page"));
    assert!(!is_opaque_token("playlist"));
    assert!(!is_opaque_token("s+%3D+s%5B1%3A%5D.strip%28%29"));
    assert!(!is_opaque_token("how%20to%20screen%20cast"));
    assert!(is_opaque_token("PLiM-TFJI81RkXy"));
}

#[test]
fn canonical_page_renders_host_path_and_sorted_params() {
    assert_eq!(
        canonical_page("http://user@www.www.Example.org:8080/a/b//?z=Zz9999&a=Aa1111#frag").unwrap(),
        "https://Example.org/a/b?a=Aa1111#frag&z=Zz9999"
    );
    assert_eq!(canonical_page("https://example.com").unwrap(), "https://example.com");
    assert_eq!(canonical_page("https://example.com/?fbclid=AbC123xyz").unwrap(), "https://example.com");
    assert!(canonical_page("https://nodot/path").is_none());
}

#[test]
fn percent_decoding_decodes_escapes_and_plus() {
    assert_eq!(percent_decode("a%20b+c"), "a b c");
    assert_eq!(percent_decode("%+5x"), "\u{5}x");
    assert_eq!(percent_decode("%zz%4"), "%zz%4");
    assert_eq!(percent_decode("%C3%A9"), "é");
    assert_eq!(percent_decode("%FF"), "\u{FFFD}");
}

#[test]
fn tokens_are_distinct_and_ordered() {
    let tokens = opaque_tokens("https://x.com/AbC123/AbC123?id=AbC123&k=Zy98xw");
    assert_eq!(tokens, vec!["AbC123".to_string(), "Zy98xw".to_string()]);
    assert!(opaque_tokens("no separator here").is_empty());
}

#[test]
fn canonical_page_reads_escapes_before_multibyte_characters() {
    let page = canonical_page("https://example.com/a?id=%éAb12cd&utm_source=x");
    assert!(page.is_some());
    assert!(page.unwrap().starts_with("https://example.com/a"));
    assert_eq!(percent_decode("%é"), "%é");
}
