//! The ledger engine's decisions: reading the legacy event export, and
//! naming a work by its most-attended member when proposing a merge.

use vstd::prelude::*;
use crate::chars::{find_char, find_sub, first_pos, first_sub, slice};
use crate::ledger::event::{opt_chars, ObservedEvent};
use crate::ledger::intervals::IntervalModel;
use crate::ledger::works::{work_views, Work, WorkModel};
use crate::text::{blank, chars_of, concat3, is_digit, parse_u64_range, parse_u64_spec, string_of,
    to_owned_string, trim, trimmed};

verus! {

/// Legacy dwell is capped at ten minutes per event.
pub const LEGACY_DWELL_CAP_MS: u64 = 600_000;

// ── Reading the legacy export ──────────────────────────────────────────────

/// The run of ASCII digits at the start of a text.
pub open spec fn digit_run(s: Seq<char>) -> Seq<char>
    decreases s.len(),
{
    if s.len() > 0 && is_digit(s[0]) {
        seq![s[0]] + digit_run(s.drop_first())
    } else {
        seq![]
    }
}

/// The number written right after `"key":` in a JSON object line.
pub open spec fn json_number(json: Seq<char>, key: Seq<char>) -> Option<u64> {
    let needle = "\""@ + key + "\":"@;
    match first_sub(json, needle) {
        Some(k) => parse_u64_spec(digit_run(json.skip(k + needle.len()))),
        None => None,
    }
}

/// The text between `"key":"` and the next quote in a JSON object line.
pub open spec fn json_text(json: Seq<char>, key: Seq<char>) -> Option<Seq<char>> {
    let needle = "\""@ + key + "\":\""@;
    match first_sub(json, needle) {
        Some(k) => {
            let rest = json.skip(k + needle.len());
            match first_pos(rest, '"') {
                Some(e) => Some(rest.take(e)),
                None => None,
            }
        },
        None => None,
    }
}

proof fn lemma_digit_run_split(s: Seq<char>, i: int)
    requires
        0 <= i <= s.len(),
        forall|j: int| 0 <= j < i ==> is_digit(#[trigger] s[j]),
    ensures
        digit_run(s) == s.take(i) + digit_run(s.skip(i)),
    decreases i,
{
    if i > 0 {
        lemma_digit_run_split(s.drop_first(), i - 1);
        assert(s.drop_first().take(i - 1) =~= s.take(i).drop_first());
        assert(s.drop_first().skip(i - 1) =~= s.skip(i));
        assert(s.take(i) =~= seq![s[0]] + s.take(i).drop_first());
        assert forall|j: int| 0 <= j < i - 1 implies is_digit(#[trigger] s.drop_first()[j]) by {
            assert(s.drop_first()[j] == s[j + 1]);
        }
    } else {
        assert(s.take(0) =~= Seq::<char>::empty());
        assert(s.skip(0) =~= s);
    }
}

/// The number after `"key":` in a JSON object line.
pub fn json_u64(json: &str, key: &str) -> (r: Option<u64>)
    ensures
        r == json_number(json@, key@),
{
    let needle_s = concat3("\"", key, "\":");
    let v = chars_of(json);
    let needle = chars_of(needle_s.as_str());
    match find_sub(&v, &needle) {
        None => None,
        Some(k) => {
            let start = k + needle.len();
            let mut end = start;
            while end < v.len() && '0' <= v[end] && v[end] <= '9'
                invariant
                    start <= end <= v@.len(),
                    forall|j: int| start <= j < end ==> is_digit(#[trigger] v@[j]),
                decreases v@.len() - end,
            {
                end = end + 1;
            }
            proof {
                let rest = v@.skip(start as int);
                let n = end - start;
                assert forall|j: int| 0 <= j < n implies is_digit(#[trigger] rest[j]) by {
                    assert(rest[j] == v@[start + j]);
                }
                lemma_digit_run_split(rest, n as int);
                if end < v@.len() {
                    assert(rest.skip(n as int)[0] == v@[end as int]);
                } else {
                    assert(rest.skip(n as int).len() == 0);
                }
                assert(digit_run(rest.skip(n as int)) =~= Seq::<char>::empty());
                assert(rest.take(n as int) =~= v@.subrange(start as int, end as int));
                assert(digit_run(rest) =~= v@.subrange(start as int, end as int));
            }
            parse_u64_range(&v, start, end)
        },
    }
}

/// The text after `"key":"` up to the next quote in a JSON object line.
pub fn json_str(json: &str, key: &str) -> (r: Option<String>)
    ensures
        opt_chars(r) == json_text(json@, key@),
{
    let needle_s = concat3("\"", key, "\":\"");
    let v = chars_of(json);
    let needle = chars_of(needle_s.as_str());
    match find_sub(&v, &needle) {
        None => None,
        Some(k) => {
            let rest = slice(&v, k + needle.len(), v.len());
            assert(rest@ =~= v@.skip(k + needle@.len()));
            match find_char(&rest, '"') {
                Some(e) => {
                    let t = slice(&rest, 0, e);
                    assert(t@ =~= rest@.take(e as int));
                    Some(string_of(&t))
                },
                None => None,
            }
        },
    }
}

/// A text with every leading `c` removed.
pub open spec fn strip_leading(s: Seq<char>, c: char) -> Seq<char>
    decreases s.len(),
{
    if s.len() > 0 && s[0] == c {
        strip_leading(s.drop_first(), c)
    } else {
        s
    }
}

/// A text with every trailing `c` removed.
pub open spec fn strip_trailing(s: Seq<char>, c: char) -> Seq<char>
    decreases s.len(),
{
    if s.len() > 0 && s.last() == c {
        strip_trailing(s.drop_last(), c)
    } else {
        s
    }
}

/// A present text that is not empty.
pub open spec fn non_empty(o: Option<Seq<char>>) -> Option<Seq<char>> {
    match o {
        Some(t) => if t.len() > 0 {
            Some(t)
        } else {
            None
        },
        None => None,
    }
}

/// The event a line of the legacy JSON export holds: the line trimmed of
/// white space and of the array's brackets must open an object with a
/// non-zero timestamp and a non-empty app id; typing is any input, dwell
/// is capped at ten minutes, and empty URLs and documents are absent.
pub open spec fn legacy_event(line: Seq<char>) -> Option<crate::ledger::event::EventModel> {
    let t = strip_trailing(strip_leading(trim(line), '['), ']');
    let ts = match json_number(t, "ts_ms"@) {
        Some(n) => n,
        None => 0,
    };
    let app = match json_text(t, "app_id"@) {
        Some(a) => a,
        None => seq![],
    };
    if t.len() == 0 || t[0] != '{' || ts == 0 || app.len() == 0 {
        None
    } else {
        let dwell = match json_number(t, "dwell_ms"@) {
            Some(d) => if d < LEGACY_DWELL_CAP_MS {
                d
            } else {
                LEGACY_DWELL_CAP_MS
            },
            None => 0,
        };
        Some(
            crate::ledger::event::EventModel {
                timestamp_ms: ts,
                app_name: app,
                window_title: match json_text(t, "window_title"@) {
                    Some(w) => w,
                    None => seq![],
                },
                url: non_empty(json_text(t, "url"@)),
                document_path: non_empty(json_text(t, "doc"@)),
                typed: match json_number(t, "input_chars"@) {
                    Some(n) => n > 0,
                    None => false,
                },
                dwell_ms: dwell,
                keys: 0,
                clicks: 0,
                scrolls: 0,
            },
        )
    }
}

fn strip_brackets(v: &Vec<char>) -> (r: Vec<char>)
    ensures
        r@ == strip_trailing(strip_leading(v@, '['), ']'),
{
    let mut lo: usize = 0;
    assert(v@.skip(0) =~= v@);
    while lo < v.len() && v[lo] == '['
        invariant
            lo <= v@.len(),
            strip_leading(v@, '[') == strip_leading(v@.skip(lo as int), '['),
        decreases v@.len() - lo,
    {
        assert(v@.skip(lo as int).drop_first() =~= v@.skip(lo + 1));
        lo = lo + 1;
    }
    let mid = slice(v, lo, v.len());
    assert(mid@ =~= v@.skip(lo as int));
    let mut hi: usize = mid.len();
    assert(mid@.take(hi as int) =~= mid@);
    while hi > 0 && mid[hi - 1] == ']'
        invariant
            hi <= mid@.len(),
            strip_trailing(mid@, ']') == strip_trailing(mid@.take(hi as int), ']'),
        decreases hi,
    {
        assert(mid@.take(hi as int).drop_last() =~= mid@.take(hi - 1));
        hi = hi - 1;
    }
    let r = slice(&mid, 0, hi);
    assert(r@ =~= mid@.take(hi as int));
    r
}

fn present(o: Option<String>) -> (r: Option<String>)
    ensures
        opt_chars(r) == non_empty(opt_chars(o)),
{
    match o {
        Some(t) => {
            let v = chars_of(t.as_str());
            if v.len() > 0 {
                Some(t)
            } else {
                None
            }
        },
        None => None,
    }
}

/// Reads one line of the legacy JSON export.
pub fn legacy_event_from_line(line: &str) -> (r: Option<ObservedEvent>)
    ensures
        match r {
            Some(e) => legacy_event(line@) == Some(e@),
            None => legacy_event(line@) is None,
        },
{
    let t0 = trimmed(line);
    let v = chars_of(t0.as_str());
    let tv = strip_brackets(&v);
    let t = string_of(&tv);
    let ts = match json_u64(t.as_str(), "ts_ms") {
        Some(n) => n,
        None => 0,
    };
    let app = match json_str(t.as_str(), "app_id") {
        Some(a) => a,
        None => String::new(),
    };
    let app_len = chars_of(app.as_str()).len();
    if tv.len() == 0 || tv[0] != '{' || ts == 0 || app_len == 0 {
        return None;
    }
    let dwell = match json_u64(t.as_str(), "dwell_ms") {
        Some(d) => if d < LEGACY_DWELL_CAP_MS {
            d
        } else {
            LEGACY_DWELL_CAP_MS
        },
        None => 0,
    };
    let title = match json_str(t.as_str(), "window_title") {
        Some(w) => w,
        None => String::new(),
    };
    let typed = match json_u64(t.as_str(), "input_chars") {
        Some(n) => n > 0,
        None => false,
    };
    Some(
        ObservedEvent {
            timestamp_ms: ts,
            app_name: app,
            window_title: title,
            url: present(json_str(t.as_str(), "url")),
            document_path: present(json_str(t.as_str(), "doc")),
            typed,
            dwell_ms: dwell,
            keys: 0,
            clicks: 0,
            scrolls: 0,
        },
    )
}

// ── Naming a work for a merge proposal ─────────────────────────────────────

/// The page an interval attended: its page, else its document, else its
/// title, else its app.
pub open spec fn page_of(iv: IntervalModel) -> Seq<char> {
    match iv.task_key.page {
        Some(p) => p,
        None => match iv.task_key.document_path {
            Some(d) => d,
            None => match iv.task_key.window_title {
                Some(t) => t,
                None => iv.task_key.app_name,
            },
        },
    }
}

/// The raw witness an interval recorded: its first URL, else its first
/// document, else its title, else its app.
pub open spec fn witness_of(iv: IntervalModel) -> Seq<char> {
    if iv.urls.len() > 0 {
        iv.urls[0]
    } else if iv.document_paths.len() > 0 {
        iv.document_paths[0]
    } else {
        match iv.task_key.window_title {
            Some(t) => t,
            None => iv.task_key.app_name,
        }
    }
}

/// A page with its total dwell and the witness of its first interval.
pub struct PageDwell {
    pub page: Seq<char>,
    pub dwell: int,
    pub witness: Seq<char>,
}

/// The position of `page` among the pages, or `-1`.
pub open spec fn page_at(ps: Seq<PageDwell>, page: Seq<char>) -> int
    decreases ps.len(),
{
    if ps.len() == 0 {
        -1
    } else if ps.last().page == page {
        ps.len() - 1
    } else {
        page_at(ps.drop_last(), page)
    }
}

/// The pages of the intervals, in first-seen order, with their dwell.
pub open spec fn page_dwells(ivs: Seq<IntervalModel>) -> Seq<PageDwell>
    decreases ivs.len(),
{
    if ivs.len() == 0 {
        seq![]
    } else {
        let ps = page_dwells(ivs.drop_last());
        let iv = ivs.last();
        let at = page_at(ps, page_of(iv));
        if at >= 0 {
            ps.update(at, PageDwell { dwell: ps[at].dwell + iv.total_dwell_ms, ..ps[at] })
        } else {
            ps.push(PageDwell { page: page_of(iv), dwell: iv.total_dwell_ms, witness: witness_of(iv) })
        }
    }
}

/// The most-dwelt of the first `n` pages, the greater page among equals;
/// `-1` for none.
pub open spec fn most_dwelt(ps: Seq<PageDwell>, n: int) -> int
    decreases n,
{
    if n <= 0 {
        -1
    } else {
        let b = most_dwelt(ps, n - 1);
        let p = ps[n - 1];
        if b < 0 || p.dwell > ps[b].dwell || (p.dwell == ps[b].dwell && crate::text::lex_lt(ps[b].page, p.page)) {
            n - 1
        } else {
            b
        }
    }
}

/// The subject a work is proposed under: the raw witness of its most
/// attended page (empty for a work without intervals).
pub open spec fn representative(w: WorkModel) -> Seq<char> {
    let ps = page_dwells(w.intervals);
    let k = most_dwelt(ps, ps.len() as int);
    if k >= 0 {
        ps[k].witness
    } else {
        seq![]
    }
}

proof fn lemma_page_at(ps: Seq<PageDwell>, page: Seq<char>)
    ensures
        -1 <= page_at(ps, page) < ps.len(),
        page_at(ps, page) >= 0 ==> ps[page_at(ps, page)].page == page,
    decreases ps.len(),
{
    if ps.len() > 0 && ps.last().page != page {
        lemma_page_at(ps.drop_last(), page);
    }
}

proof fn lemma_most_dwelt(ps: Seq<PageDwell>, n: int)
    requires
        0 <= n <= ps.len(),
    ensures
        -1 <= most_dwelt(ps, n) < n,
        n > 0 ==> most_dwelt(ps, n) >= 0,
    decreases n,
{
    if n > 0 {
        lemma_most_dwelt(ps, n - 1);
    }
}

/// Each page's dwell is at most the dwell of all the intervals.
proof fn lemma_page_dwells_bound(ivs: Seq<IntervalModel>)
    requires
        crate::sums::nonneg_terms(ivs, crate::ledger::works::iv_dwell()),
    ensures
        forall|k: int|
            0 <= k < page_dwells(ivs).len() ==> 0 <= (#[trigger] page_dwells(ivs)[k]).dwell
                <= crate::sums::seq_sum(ivs, crate::ledger::works::iv_dwell()),
    decreases ivs.len(),
{
    if ivs.len() > 0 {
        let prev = ivs.drop_last();
        assert(crate::sums::nonneg_terms(prev, crate::ledger::works::iv_dwell())) by {
            assert forall|i: int| 0 <= i < prev.len() implies crate::ledger::works::iv_dwell()(
                #[trigger] prev[i],
            ) >= 0 by {
                assert(prev[i] == ivs[i]);
            }
        }
        lemma_page_dwells_bound(prev);
        crate::sums::lemma_sum_drop_last(ivs, crate::ledger::works::iv_dwell());
        lemma_page_at(page_dwells(prev), page_of(ivs.last()));
    }
}

fn find_page(pages: &Vec<String>, key: &String, Ghost(ps): Ghost<Seq<PageDwell>>) -> (r: Option<usize>)
    requires
        pages@.len() == ps.len(),
        forall|k: int| 0 <= k < pages@.len() ==> pages@[k]@ == (#[trigger] ps[k]).page,
    ensures
        match r {
            Some(a) => a as int == page_at(ps, key@) && a < pages@.len(),
            None => page_at(ps, key@) == -1,
        },
{
    let mut j: usize = pages.len();
    assert(ps.take(j as int) =~= ps);
    while j > 0
        invariant
            j <= pages@.len(),
            pages@.len() == ps.len(),
            forall|k: int| 0 <= k < pages@.len() ==> pages@[k]@ == (#[trigger] ps[k]).page,
            page_at(ps, key@) == page_at(ps.take(j as int), key@),
        decreases j,
    {
        assert(ps.take(j as int).last() == ps[j - 1]);
        assert(ps.take(j as int).drop_last() =~= ps.take(j - 1));
        if crate::text::str_eq(pages[j - 1].as_str(), key.as_str()) {
            return Some(j - 1);
        }
        j = j - 1;
    }
    None
}

fn page_key(iv: &crate::ledger::intervals::WorkInterval) -> (r: String)
    ensures
        r@ == page_of(iv@),
{
    if let Some(p) = &iv.task_key.page {
        return to_owned_string(p.as_str());
    }
    if let Some(d) = &iv.task_key.document_path {
        return to_owned_string(d.as_str());
    }
    if let Some(t) = &iv.task_key.window_title {
        return to_owned_string(t.as_str());
    }
    to_owned_string(iv.task_key.app_name.as_str())
}

fn witness(iv: &crate::ledger::intervals::WorkInterval) -> (r: String)
    ensures
        r@ == witness_of(iv@),
{
    if iv.urls.len() > 0 {
        return to_owned_string(iv.urls[0].as_str());
    }
    if iv.document_paths.len() > 0 {
        return to_owned_string(iv.document_paths[0].as_str());
    }
    if let Some(t) = &iv.task_key.window_title {
        return to_owned_string(t.as_str());
    }
    to_owned_string(iv.task_key.app_name.as_str())
}

/// The subject a work is proposed under in a merge proposal: the raw
/// witness (URL, document path or title the capture recorded) of the
/// member page with the most dwell.
pub fn representative_subject(work: &Work) -> (r: String)
    requires
        crate::sums::seq_sum(work@.intervals, crate::ledger::works::iv_dwell()) <= u64::MAX,
    ensures
        r@ == representative(work@),
{
    let ghost ivs = work@.intervals;
    let mut pages: Vec<String> = Vec::new();
    let mut dwells: Vec<u64> = Vec::new();
    let mut witnesses: Vec<String> = Vec::new();
    proof {
        assert(crate::sums::nonneg_terms(ivs, crate::ledger::works::iv_dwell())) by {
            assert forall|i: int| 0 <= i < ivs.len() implies crate::ledger::works::iv_dwell()(
                #[trigger] ivs[i],
            ) >= 0 by {
                assert(ivs[i] == work.intervals@[i]@);
            }
        }
    }
    let mut i: usize = 0;
    while i < work.intervals.len()
        invariant
            i <= work.intervals@.len(),
            ivs == work@.intervals,
            crate::sums::nonneg_terms(ivs, crate::ledger::works::iv_dwell()),
            crate::sums::seq_sum(ivs, crate::ledger::works::iv_dwell()) <= u64::MAX,
            pages@.len() == dwells@.len() && dwells@.len() == witnesses@.len(),
            pages@.len() == page_dwells(ivs.take(i as int)).len(),
            forall|k: int|
                0 <= k < pages@.len() ==> {
                    let p = #[trigger] page_dwells(ivs.take(i as int))[k];
                    &&& pages@[k]@ == p.page
                    &&& dwells@[k] as int == p.dwell
                    &&& witnesses@[k]@ == p.witness
                },
        decreases work.intervals@.len() - i,
    {
        let iv = &work.intervals[i];
        let ghost pre = ivs.take(i + 1);
        let ghost ps = page_dwells(ivs.take(i as int));
        proof {
            assert(ivs[i as int] == iv@);
            assert(pre.drop_last() =~= ivs.take(i as int));
            assert(pre.last() == iv@);
            assert(crate::sums::nonneg_terms(pre, crate::ledger::works::iv_dwell())) by {
                assert forall|q: int| 0 <= q < pre.len() implies crate::ledger::works::iv_dwell()(
                    #[trigger] pre[q],
                ) >= 0 by {
                    assert(pre[q] == ivs[q]);
                }
            }
            lemma_page_dwells_bound(pre);
            crate::sums::lemma_sum_take(ivs, i + 1, crate::ledger::works::iv_dwell());
            lemma_page_at(ps, page_of(iv@));
        }
        let key = page_key(iv);
        let found = find_page(&pages, &key, Ghost(ps));
        match found {
            Some(at) => {
                assert(page_dwells(pre)[at as int].dwell == dwells@[at as int] + iv.total_dwell_ms);
                let d = dwells[at] + iv.total_dwell_ms;
                dwells.set(at, d);
            },
            None => {
                assert(page_dwells(pre) == ps.push(PageDwell { page: page_of(iv@), dwell: iv@.total_dwell_ms, witness: witness_of(iv@) }));
                pages.push(key);
                dwells.push(iv.total_dwell_ms);
                witnesses.push(witness(iv));
            },
        }
        i = i + 1;
    }
    assert(ivs.take(work.intervals@.len() as int) =~= ivs);
    let ghost ps = page_dwells(ivs);
    let mut best: Option<usize> = None;
    let mut k: usize = 0;
    while k < pages.len()
        invariant
            k <= pages@.len(),
            pages@.len() == ps.len() && dwells@.len() == ps.len() && witnesses@.len() == ps.len(),
            forall|q: int|
                0 <= q < pages@.len() ==> {
                    let p = #[trigger] ps[q];
                    &&& pages@[q]@ == p.page
                    &&& dwells@[q] as int == p.dwell
                    &&& witnesses@[q]@ == p.witness
                },
            match best {
                Some(b) => b as int == most_dwelt(ps, k as int) && b < k,
                None => most_dwelt(ps, k as int) == -1,
            },
        decreases pages@.len() - k,
    {
        let take = match best {
            Some(b) => {
                assert(ps[b as int].dwell == dwells@[b as int]);
                dwells[k] > dwells[b] || (dwells[k] == dwells[b] && crate::text::str_less(
                    pages[b].as_str(),
                    pages[k].as_str(),
                ))
            },
            None => true,
        };
        assert(ps[k as int].dwell == dwells@[k as int]);
        if take {
            best = Some(k);
        }
        k = k + 1;
    }
    proof {
        lemma_most_dwelt(ps, ps.len() as int);
    }
    match best {
        Some(b) => to_owned_string(witnesses[b].as_str()),
        None => String::new(),
    }
}

} // verus!
