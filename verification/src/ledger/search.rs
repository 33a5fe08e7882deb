//! Full-text search over work intervals: the text an interval is indexed
//! by, the query handed to the index, and the reading of a hit.
//!
//! An interval is indexed by its app names, document paths and file
//! names, window titles, URL host and full URLs — so searching "main.rs"
//! finds the interval editing that file.

use vstd::prelude::*;
use crate::chars::{after_last, after_last_char, contains_char, contains_text, has_char, has_sub};
use crate::ledger::identity::{KeyModel, TaskKey};
use crate::ledger::intervals::{IntervalModel, IntervalStatus, WorkInterval};
use crate::ledger::pages::opt_text;
use crate::pods::wrapper::{lowercase, lowercased};
use crate::sorting::views;
use crate::text::{chars_of, concat2, has_prefix, join_texts, join_with, starts_with, string_of, str_eq,
    to_owned_string, trim, trimmed, words, words_of};

verus! {

/// A document path followed by its file name.
pub open spec fn path_and_file(d: Seq<char>) -> Seq<Seq<char>> {
    seq![d, after_last(d, '/')]
}

/// Each path followed by its file name.
pub open spec fn paths_and_files(ds: Seq<Seq<char>>) -> Seq<Seq<char>>
    decreases ds.len(),
{
    if ds.len() == 0 {
        seq![]
    } else {
        paths_and_files(ds.drop_last()) + path_and_file(ds.last())
    }
}

/// The texts an interval is indexed by, in order: its app names, the
/// key's document and file name, the key's title and host, the key's app,
/// every title, every URL, and every document with its file name.
pub open spec fn search_parts(iv: IntervalModel) -> Seq<Seq<char>> {
    iv.app_names + match iv.task_key.document_path {
        Some(d) => path_and_file(d),
        None => seq![],
    } + match iv.task_key.window_title {
        Some(t) => seq![t],
        None => seq![],
    } + match iv.task_key.url_host {
        Some(h) => seq![h],
        None => seq![],
    } + seq![iv.task_key.app_name] + iv.titles + iv.urls + paths_and_files(iv.document_paths)
}

/// The text an interval is indexed by: its parts joined by spaces.
pub open spec fn search_text(iv: IntervalModel) -> Seq<char> {
    join_with(search_parts(iv), " "@)
}

fn push_copy(v: &mut Vec<String>, s: &str)
    ensures
        views(final(v)@) == views(old(v)@).push(s@),
{
    let ghost before = v@;
    v.push(to_owned_string(s));
    assert(views(v@) =~= views(before).push(s@));
}

fn push_path_and_file(v: &mut Vec<String>, d: &str)
    ensures
        views(final(v)@) == views(old(v)@) + path_and_file(d@),
{
    let ghost before = views(v@);
    push_copy(v, d);
    let dv = chars_of(d);
    let file = string_of(&after_last_char(&dv, '/'));
    push_copy(v, file.as_str());
    assert(views(v@) =~= before + path_and_file(d@));
}

fn push_all_copies(v: &mut Vec<String>, xs: &Vec<String>)
    ensures
        views(final(v)@) == views(old(v)@) + views(xs@),
{
    let ghost v0 = views(v@);
    let mut i: usize = 0;
    while i < xs.len()
        invariant
            i <= xs@.len(),
            views(v@) == v0 + views(xs@).take(i as int),
        decreases xs@.len() - i,
    {
        push_copy(v, xs[i].as_str());
        assert(views(xs@).take(i + 1) =~= views(xs@).take(i as int).push(xs@[i as int]@));
        i = i + 1;
    }
    assert(views(xs@).take(xs@.len() as int) =~= views(xs@));
}

/// The text an interval is indexed by.
pub fn build_search_text(interval: &WorkInterval) -> (r: String)
    ensures
        r@ == search_text(interval@),
{
    let mut parts: Vec<String> = Vec::new();
    push_all_copies(&mut parts, &interval.app_names);
    let ghost p1 = views(parts@);
    if let Some(doc) = &interval.task_key.document_path {
        push_path_and_file(&mut parts, doc.as_str());
    }
    let ghost p2 = views(parts@);
    if let Some(title) = &interval.task_key.window_title {
        push_copy(&mut parts, title.as_str());
    }
    let ghost p3 = views(parts@);
    if let Some(host) = &interval.task_key.url_host {
        push_copy(&mut parts, host.as_str());
    }
    push_copy(&mut parts, interval.task_key.app_name.as_str());
    push_all_copies(&mut parts, &interval.titles);
    push_all_copies(&mut parts, &interval.urls);
    let ghost p4 = views(parts@);
    let ghost docs = views(interval.document_paths@);
    let mut i: usize = 0;
    while i < interval.document_paths.len()
        invariant
            i <= interval.document_paths@.len(),
            docs == views(interval.document_paths@),
            views(parts@) == p4 + paths_and_files(docs.take(i as int)),
        decreases interval.document_paths@.len() - i,
    {
        assert(docs.take(i + 1).drop_last() =~= docs.take(i as int));
        assert(docs.take(i + 1).last() == interval.document_paths@[i as int]@);
        push_path_and_file(&mut parts, interval.document_paths[i].as_str());
        assert(views(parts@) =~= p4 + paths_and_files(docs.take(i + 1)));
        i = i + 1;
    }
    assert(docs.take(docs.len() as int) =~= docs);
    assert(views(parts@) =~= search_parts(interval@));
    join_texts(&parts, " ")
}

// ── Queries ────────────────────────────────────────────────────────────────

/// A query that already uses the index's syntax: a quote, a field colon,
/// or ` OR `.
pub open spec fn index_syntax(q: Seq<char>) -> bool {
    has_char(q, '"') || has_char(q, ':') || has_sub(q, " OR "@)
}

/// Each word made a prefix term, joined by spaces.
pub open spec fn prefix_terms(ws: Seq<Seq<char>>) -> Seq<char> {
    join_with(ws.map_values(|w: Seq<char>| w + "*"@), " "@)
}

/// The query handed to the index: `None` for a blank query; a query in
/// the index's syntax as it stands (trimmed); any other query with each
/// word a prefix term.
pub open spec fn index_query(q: Seq<char>) -> Option<Seq<char>> {
    let t = trim(q);
    if t.len() == 0 {
        None
    } else if index_syntax(t) {
        Some(t)
    } else {
        Some(prefix_terms(words(t)))
    }
}

/// The query handed to the index for a search text.
pub fn match_query(query: &str) -> (r: Option<String>)
    ensures
        opt_text(r) == index_query(query@),
{
    let t = trimmed(query);
    let tv = chars_of(t.as_str());
    if tv.len() == 0 {
        return None;
    }
    if contains_char(&tv, '"') || contains_char(&tv, ':') || contains_text(t.as_str(), " OR ") {
        return Some(t);
    }
    let ws = words_of(t.as_str());
    let ghost wv = views(ws@);
    let mut terms: Vec<String> = Vec::new();
    let mut i: usize = 0;
    while i < ws.len()
        invariant
            i <= ws@.len(),
            wv == views(ws@),
            views(terms@) == wv.take(i as int).map_values(|w: Seq<char>| w + "*"@),
        decreases ws@.len() - i,
    {
        let ghost before = terms@;
        terms.push(concat2(ws[i].as_str(), "*"));
        assert(views(terms@) =~= views(before).push(wv[i as int] + "*"@));
        assert(wv.take(i + 1).map_values(|w: Seq<char>| w + "*"@) =~= wv.take(i as int).map_values(
            |w: Seq<char>| w + "*"@,
        ).push(wv[i as int] + "*"@));
        i = i + 1;
    }
    assert(wv.take(ws@.len() as int) =~= wv);
    Some(join_texts(&terms, " "))
}

/// Words that are URLs.
pub open spec fn is_url_word() -> spec_fn(Seq<char>) -> bool {
    |w: Seq<char>| has_prefix(w, "http://"@) || has_prefix(w, "https://"@)
}

/// The URLs in an index text (its space-separated words that are URLs).
pub fn extract_urls(text: &str) -> (r: Vec<String>)
    ensures
        views(r@) == words(text@).filter(is_url_word()),
{
    let ws = words_of(text);
    let ghost wv = views(ws@);
    let mut out: Vec<String> = Vec::new();
    let mut i: usize = 0;
    while i < ws.len()
        invariant
            i <= ws@.len(),
            wv == views(ws@),
            views(out@) == wv.take(i as int).filter(is_url_word()),
        decreases ws@.len() - i,
    {
        assert(wv.take(i + 1) =~= wv.take(i as int).push(wv[i as int]));
        proof {
            wv.take(i as int).lemma_filter_push(wv[i as int], is_url_word());
        }
        assert(wv[i as int] == ws@[i as int]@);
        if starts_with(ws[i].as_str(), "http://") || starts_with(ws[i].as_str(), "https://") {
            push_copy(&mut out, ws[i].as_str());
        }
        i = i + 1;
    }
    assert(wv.take(ws@.len() as int) =~= wv);
    out
}

/// One hit as the index returns it.
pub struct SearchRecord {
    pub id: i64,
    pub document_path: Option<String>,
    pub window_title: Option<String>,
    pub url_host: Option<String>,
    pub app_name: String,
    pub confidence: u32,
    pub start_ms: i64,
    pub end_ms: i64,
    pub event_count: i64,
    pub total_dwell_ms: i64,
    pub typed_count: i64,
    pub status: String,
    pub search_text: String,
}

/// Which field a hit matched: `url` when the index text holds the host
/// (case-insensitively), else `text`.
pub open spec fn matched_field(host: Option<Seq<char>>, text: Seq<char>) -> Seq<char> {
    match host {
        Some(h) => if has_sub(lowercased(text), lowercased(h)) {
            "url"@
        } else {
            "text"@
        },
        None => "text"@,
    }
}

/// The interval a hit stands for: the key without a page, the counters
/// as stored, the URLs of the index text, and nothing else.
pub open spec fn hit_interval(row: SearchRecord) -> IntervalModel {
    IntervalModel {
        id: row.id,
        task_key: KeyModel {
            document_path: opt_text(row.document_path),
            page: None,
            window_title: opt_text(row.window_title),
            url_host: opt_text(row.url_host),
            app_name: row.app_name@,
            confidence: row.confidence,
        },
        start_ms: (row.start_ms as u64) as int,
        end_ms: (row.end_ms as u64) as int,
        event_count: (row.event_count as u32) as int,
        total_dwell_ms: (row.total_dwell_ms as u64) as int,
        typed_count: (row.typed_count as u32) as int,
        keys: 0,
        clicks: 0,
        scrolls: 0,
        attached_saves: 0,
        status: if row.status@ == "final"@ {
            IntervalStatus::Final
        } else {
            IntervalStatus::Provisional
        },
        urls: words(row.search_text@).filter(is_url_word()),
        titles: seq![],
        document_paths: seq![],
        app_names: seq![],
    }
}

fn copy_opt(o: &Option<String>) -> (r: Option<String>)
    ensures
        opt_text(r) == opt_text(*o),
{
    match o {
        Some(x) => Some(to_owned_string(x.as_str())),
        None => None,
    }
}

/// Reads a hit: its interval and the field it matched.
pub fn read_hit(row: &SearchRecord) -> (r: (WorkInterval, String))
    ensures
        r.0@ == hit_interval(*row),
        r.1@ == matched_field(opt_text(row.url_host), row.search_text@),
{
    let field = match &row.url_host {
        Some(host) => {
            let text = lowercase(row.search_text.as_str());
            let h = lowercase(host.as_str());
            if contains_text(text.as_str(), h.as_str()) {
                to_owned_string("url")
            } else {
                to_owned_string("text")
            }
        },
        None => to_owned_string("text"),
    };
    let empty_titles: Vec<String> = Vec::new();
    let empty_docs: Vec<String> = Vec::new();
    let empty_apps: Vec<String> = Vec::new();
    assert(views(empty_titles@) =~= Seq::<Seq<char>>::empty());
    assert(views(empty_docs@) =~= Seq::<Seq<char>>::empty());
    assert(views(empty_apps@) =~= Seq::<Seq<char>>::empty());
    let interval = WorkInterval {
        id: row.id,
        task_key: TaskKey {
            document_path: copy_opt(&row.document_path),
            page: None,
            window_title: copy_opt(&row.window_title),
            url_host: copy_opt(&row.url_host),
            app_name: to_owned_string(row.app_name.as_str()),
            confidence: row.confidence,
        },
        start_ms: row.start_ms as u64,
        end_ms: row.end_ms as u64,
        event_count: row.event_count as u32,
        total_dwell_ms: row.total_dwell_ms as u64,
        typed_count: row.typed_count as u32,
        keys: 0,
        clicks: 0,
        scrolls: 0,
        attached_saves: 0,
        status: if str_eq(row.status.as_str(), "final") {
            IntervalStatus::Final
        } else {
            IntervalStatus::Provisional
        },
        urls: extract_urls(row.search_text.as_str()),
        titles: empty_titles,
        document_paths: empty_docs,
        app_names: empty_apps,
    };
    (interval, field)
}

} // verus!
