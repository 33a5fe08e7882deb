//! Reading fields out of one row of `sqlite3 -json` output: the plain
//! text scan the ledger probe uses on the activity database's rows.

use vstd::prelude::*;
use crate::chars::{find_char_from, find_sub, first_pos, first_sub};
use crate::ledger::event::{EventModel, ObservedEvent};
use crate::text::{chars_of, is_digit, parse_u64_range, parse_u64_spec, string_of_range, trim, trimmed};

verus! {

/// The text that introduces a field: `"key":`.
pub open spec fn field_tag(key: Seq<char>) -> Seq<char> {
    seq!['"'] + key + seq!['"', ':']
}

/// The text that introduces a string field: `"key":"`.
pub open spec fn string_tag(key: Seq<char>) -> Seq<char> {
    field_tag(key).push('"')
}

/// `e` ends the run of ASCII digits at the start of `s`.
pub open spec fn digit_end(s: Seq<char>, e: int) -> bool {
    &&& 0 <= e <= s.len()
    &&& forall|i: int| 0 <= i < e ==> is_digit(#[trigger] s[i])
    &&& (e == s.len() || !is_digit(s[e]))
}

/// The run of ASCII digits at the start of `s`.
pub open spec fn leading_digits(s: Seq<char>) -> Seq<char> {
    s.take(choose|e: int| digit_end(s, e))
}

/// What follows the first `"key":` in `json`, if it occurs.
pub open spec fn after_tag(json: Seq<char>, tag: Seq<char>) -> Option<Seq<char>> {
    match first_sub(json, tag) {
        Some(k) => Some(json.skip(k + tag.len())),
        None => None,
    }
}

/// The number of a field: the digits right after the first `"key":`,
/// read as a `u64`; nothing where the tag is missing, no digit follows
/// it, or the digits overflow.
pub open spec fn json_u64(json: Seq<char>, key: Seq<char>) -> Option<u64> {
    match after_tag(json, field_tag(key)) {
        Some(rest) => parse_u64_spec(leading_digits(rest)),
        None => None,
    }
}

/// The text of a string field: what lies between the first `"key":"` and
/// the next `"`; nothing where either is missing.
pub open spec fn json_str(json: Seq<char>, key: Seq<char>) -> Option<Seq<char>> {
    match after_tag(json, string_tag(key)) {
        Some(rest) => match first_pos(rest, '"') {
            Some(e) => Some(rest.take(e)),
            None => None,
        },
        None => None,
    }
}

fn tag_chars(key: &str, string_field: bool) -> (r: Vec<char>)
    ensures
        r@ == (if string_field { string_tag(key@) } else { field_tag(key@) }),
{
    let mut r: Vec<char> = Vec::new();
    r.push('"');
    let k = chars_of(key);
    let mut i: usize = 0;
    while i < k.len()
        invariant
            i <= k.len(),
            k@ == key@,
            r@ == seq!['"'] + k@.take(i as int),
        decreases k.len() - i,
    {
        r.push(k[i]);
        i = i + 1;
        assert(r@ =~= seq!['"'] + k@.take(i as int));
    }
    r.push('"');
    r.push(':');
    assert(k@.take(k.len() as int) =~= k@);
    assert(r@ =~= field_tag(key@));
    if string_field {
        r.push('"');
    }
    r
}

/// Where the text after the tag starts in `j`, if the tag occurs.
fn tag_end(j: &Vec<char>, key: &str, string_field: bool) -> (r: Option<usize>)
    ensures
        ({
            let tag = if string_field { string_tag(key@) } else { field_tag(key@) };
            match r {
                Some(s) => s <= j.len() && after_tag(j@, tag) == Some(j@.skip(s as int)),
                None => after_tag(j@, tag) is None,
            }
        }),
{
    let tag = tag_chars(key, string_field);
    match find_sub(j, &tag) {
        Some(k) => Some(k + tag.len()),
        None => None,
    }
}

/// The number of field `key` in one JSON row: the digits right after
/// `"key":`.
pub fn extract_json_u64(json: &str, key: &str) -> (r: Option<u64>)
    ensures
        r == json_u64(json@, key@),
{
    let j = chars_of(json);
    let start = match tag_end(&j, key, false) {
        Some(s) => s,
        None => return None,
    };
    let ghost rest = j@.skip(start as int);
    let mut end = start;
    while end < j.len() && '0' <= j[end] && j[end] <= '9'
        invariant
            start <= end <= j.len(),
            rest == j@.skip(start as int),
            forall|i: int| 0 <= i < end - start ==> is_digit(#[trigger] rest[i]),
        decreases j.len() - end,
    {
        end = end + 1;
    }
    proof {
        let e = end - start;
        assert(digit_end(rest, e));
        let c = choose|c: int| digit_end(rest, c);
        assert(digit_end(rest, c));
        if c < e {
            assert(is_digit(rest[c]));
        }
        if e < c {
            assert(is_digit(rest[e]));
        }
        assert(leading_digits(rest) =~= j@.subrange(start as int, end as int));
    }
    parse_u64_range(&j, start, end)
}

/// The text of string field `key` in one JSON row: what lies between
/// `"key":"` and the next `"`.
pub fn extract_json_str(json: &str, key: &str) -> (r: Option<String>)
    ensures
        match r {
            Some(s) => json_str(json@, key@) == Some(s@),
            None => json_str(json@, key@) is None,
        },
{
    let j = chars_of(json);
    let start = match tag_end(&j, key, true) {
        Some(s) => s,
        None => return None,
    };
    match find_char_from(&j, start, '"') {
        Some(end) => {
            assert(j@.skip(start as int).take(end - start) =~= j@.subrange(start as int, end as int));
            Some(string_of_range(&j, start, end))
        },
        None => None,
    }
}

/// `s` without its leading run of `c`.
pub open spec fn strip_front(s: Seq<char>, c: char) -> Seq<char>
    decreases s.len(),
{
    if s.len() > 0 && s[0] == c {
        strip_front(s.drop_first(), c)
    } else {
        s
    }
}

/// `s` without its trailing run of `c`.
pub open spec fn strip_back(s: Seq<char>, c: char) -> Seq<char>
    decreases s.len(),
{
    if s.len() > 0 && s.last() == c {
        strip_back(s.drop_last(), c)
    } else {
        s
    }
}

/// The row object of one output line: the line trimmed, then stripped of
/// the array's brackets.
pub open spec fn row_text(line: Seq<char>) -> Seq<char> {
    strip_back(strip_front(trim(line), '['), ']')
}

/// A number, or zero where there is none.
pub open spec fn or_zero(o: Option<u64>) -> u64 {
    match o {
        Some(n) => n,
        None => 0,
    }
}

/// A text, or the empty text where there is none.
pub open spec fn or_empty(o: Option<Seq<char>>) -> Seq<char> {
    match o {
        Some(t) => t,
        None => Seq::empty(),
    }
}

/// A text only where it is not empty.
pub open spec fn nonempty(o: Option<Seq<char>>) -> Option<Seq<char>> {
    match o {
        Some(t) => if t.len() > 0 { Some(t) } else { None },
        None => None,
    }
}

/// The longest dwell a probed event keeps: ten minutes.
pub const PROBE_DWELL_CAP_MS: u64 = 600000;

/// The event one output line describes: a row object with a non-zero
/// timestamp and a non-empty app; empty URLs and documents count as none,
/// any typed character marks the event typed, and the dwell is capped.
pub open spec fn probe_row(line: Seq<char>) -> Option<EventModel> {
    let r = row_text(line);
    let ts = or_zero(json_u64(r, "ts_ms"@));
    let app = or_empty(json_str(r, "app_id"@));
    let dwell = or_zero(json_u64(r, "dwell_ms"@));
    if r.len() == 0 || r[0] != '{' || ts == 0 || app.len() == 0 {
        None
    } else {
        Some(EventModel {
            timestamp_ms: ts,
            app_name: app,
            window_title: or_empty(json_str(r, "window_title"@)),
            url: nonempty(json_str(r, "url"@)),
            document_path: nonempty(json_str(r, "doc"@)),
            typed: or_zero(json_u64(r, "input_chars"@)) > 0,
            dwell_ms: if dwell < PROBE_DWELL_CAP_MS { dwell } else { PROBE_DWELL_CAP_MS },
            keys: 0,
            clicks: 0,
            scrolls: 0,
        })
    }
}

fn text_or_empty(o: Option<String>) -> (r: String)
    ensures
        r@ == or_empty(match o { Some(s) => Some(s@), None => None }),
{
    match o {
        Some(s) => s,
        None => String::new(),
    }
}

fn nonempty_text(o: Option<String>) -> (r: Option<String>)
    ensures
        match r {
            Some(s) => nonempty(match o { Some(t) => Some(t@), None => None }) == Some(s@),
            None => nonempty(match o { Some(t) => Some(t@), None => None }) is None,
        },
{
    match o {
        Some(s) => if s.as_str().is_empty() { None } else { Some(s) },
        None => None,
    }
}

/// The row object of one output line, as a range of its trimmed
/// characters.
fn row_bounds(t: &Vec<char>) -> (r: (usize, usize))
    ensures
        r.0 <= r.1 <= t.len(),
        t@.subrange(r.0 as int, r.1 as int) == strip_back(strip_front(t@, '['), ']'),
{
    let mut lo: usize = 0;
    assert(t@.skip(0) =~= t@);
    while lo < t.len() && t[lo] == '['
        invariant
            lo <= t.len(),
            strip_front(t@.skip(lo as int), '[') == strip_front(t@, '['),
        decreases t.len() - lo,
    {
        assert(t@.skip(lo as int).drop_first() =~= t@.skip(lo as int + 1));
        lo = lo + 1;
    }
    let ghost front = t@.skip(lo as int);
    assert(strip_front(front, '[') == front);
    let mut hi: usize = t.len();
    assert(t@.subrange(lo as int, hi as int) =~= front);
    while hi > lo && t[hi - 1] == ']'
        invariant
            lo <= hi <= t.len(),
            front == t@.skip(lo as int),
            strip_back(t@.subrange(lo as int, hi as int), ']') == strip_back(front, ']'),
        decreases hi,
    {
        assert(t@.subrange(lo as int, hi as int).drop_last() =~= t@.subrange(lo as int, hi - 1));
        hi = hi - 1;
    }
    (lo, hi)
}

/// The attention event one line of `sqlite3 -json` output over the
/// activity database describes, if the line holds one.
pub fn probe_event(line: &str) -> (r: Option<ObservedEvent>)
    ensures
        match r {
            Some(e) => probe_row(line@) == Some(e@),
            None => probe_row(line@) is None,
        },
{
    let t = chars_of(&trimmed(line));
    let (lo, hi) = row_bounds(&t);
    let row = string_of_range(&t, lo, hi);
    let ghost r = row_text(line@);
    assert(row@ == r);
    if lo == hi || t[lo] != '{' {
        return None;
    }
    let ts = match extract_json_u64(row.as_str(), "ts_ms") {
        Some(n) => n,
        None => 0,
    };
    if ts == 0 {
        return None;
    }
    let app = text_or_empty(extract_json_str(row.as_str(), "app_id"));
    if app.as_str().is_empty() {
        return None;
    }
    let title = text_or_empty(extract_json_str(row.as_str(), "window_title"));
    let url = nonempty_text(extract_json_str(row.as_str(), "url"));
    let doc = nonempty_text(extract_json_str(row.as_str(), "doc"));
    let typed = match extract_json_u64(row.as_str(), "input_chars") {
        Some(n) => n > 0,
        None => false,
    };
    let dwell = match extract_json_u64(row.as_str(), "dwell_ms") {
        Some(n) => n,
        None => 0,
    };
    let e = ObservedEvent {
        timestamp_ms: ts,
        app_name: app,
        window_title: title,
        url: url,
        document_path: doc,
        typed: typed,
        dwell_ms: if dwell < PROBE_DWELL_CAP_MS { dwell } else { PROBE_DWELL_CAP_MS },
        keys: 0,
        clicks: 0,
        scrolls: 0,
    };
    assert(e@ == probe_row(line@)->0);
    Some(e)
}

} // verus!
