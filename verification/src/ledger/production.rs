//! Production attribution: file saves attach to attention, never create it.
//!
//! A save is the person's production when the file's name appears on an
//! attention surface near that time (the surface rule), or when the person
//! was demonstrably typing nearby and the save is behaviorally human: its
//! path is not rewritten like a machine manages it, its directory tree is
//! not mid-storm, and its name is not a machine blob (the presence rule).
//! Everything else is background and is dropped.

use vstd::prelude::*;
use crate::chars::{after_last, after_last_char, contains_text, find_last_char, has_sub, last_pos,
    lines_of, piece_views, slice, split_all, split_all_char, text_lines};
use crate::ledger::event::ProductionSave;
use crate::ledger::intervals::{nonblank_lines, nonblank_lines_of};
use crate::pods::wrapper::{lowercase, lowercased};
use crate::sorting::{key_order, stable_key_order, views};
use crate::text::{chars_of, concat3, join_texts, join_with, holds_text, push_new, seq_eq, string_of,
    to_owned_string, trim, trimmed};

verus! {

/// How far (5 minutes) a save may fall outside an interval and attach.
pub const ATTACH_GRACE_MS: u64 = 5 * 60 * 1000;

/// A path saved more often than this in total is machine-managed.
pub const PATH_SAVES_TOTAL_MAX: usize = 12;

/// A path saved more often than this on one day is machine-managed.
pub const PATH_SAVES_PER_DAY_MAX: usize = 4;

/// A path saved on more days than this is machine-managed.
pub const PATH_DISTINCT_DAYS_MAX: usize = 2;

/// A directory tree with more saves than this inside the burst window is
/// mid-storm.
pub const TREE_BURST_MAX: usize = 6;

/// The burst window (2 minutes) on either side of a save.
pub const TREE_BURST_WINDOW_MS: u64 = 2 * 60 * 1000;

/// Directories with fewer components than this are never burst-checked.
pub const TREE_MIN_COMPONENTS: usize = 4;

/// A directory whose saves span at most this (10 minutes) is fresh.
pub const OWN_DIR_STABLE_MS: u64 = 10 * 60 * 1000;

/// Names with at least this many alphanumerics, four fifths of them hex
/// digits, are machine blobs.
pub const HEX_NAME_MIN_LEN: usize = 20;

/// Names with at least this many alphanumerics, three fifths of them
/// digits, are counters.
pub const DIGIT_NAME_MIN_LEN: usize = 10;

/// A name saved in more directories than this is fanned out by a machine.
pub const NAME_DIR_FANOUT_MAX: usize = 3;

/// Milliseconds in a day.
pub const DAY_MS: u64 = 86_400_000;

/// One interval as attribution sees it.
pub struct AttentionRow {
    pub id: i64,
    pub start_ms: u64,
    pub end_ms: u64,
    /// Lowercased window title, host, document path and URLs.
    pub surface: String,
    /// Events with typing (presence evidence).
    pub typed_count: u32,
}

/// The content of an [`AttentionRow`].
pub struct RowModel {
    pub id: i64,
    pub start_ms: u64,
    pub end_ms: u64,
    pub surface: Seq<char>,
    pub typed_count: u32,
}

impl View for AttentionRow {
    type V = RowModel;

    open spec fn view(&self) -> RowModel {
        RowModel {
            id: self.id,
            start_ms: self.start_ms,
            end_ms: self.end_ms,
            surface: self.surface@,
            typed_count: self.typed_count,
        }
    }
}

/// The views of a sequence of rows.
pub open spec fn row_views(v: Seq<AttentionRow>) -> Seq<RowModel> {
    v.map_values(|r: AttentionRow| r@)
}

// ── Paths ──────────────────────────────────────────────────────────────────

/// The directory of a path: everything before its last `/` (empty without
/// one).
pub open spec fn dir_of(p: Seq<char>) -> Seq<char> {
    match last_pos(p, '/') {
        Some(k) => p.take(k),
        None => seq![],
    }
}

/// The file name of a path: everything after its last `/`.
pub open spec fn base_of(p: Seq<char>) -> Seq<char> {
    after_last(p, '/')
}

/// The non-empty `/`-separated components of a directory.
pub open spec fn components(d: Seq<char>) -> nat {
    split_all(d, '/').filter(|c: Seq<char>| c.len() > 0).len()
}

/// A save in directory `f` counts for directory `d`: `d` is `f` or one of
/// its ancestors, and deep enough to be checked.
pub open spec fn counts_for(f: Seq<char>, d: Seq<char>) -> bool {
    &&& components(d) >= TREE_MIN_COMPONENTS
    &&& (f == d || (d.len() < f.len() && f.take(d.len() as int) == d && f[d.len() as int] == '/'))
}

/// The saves counted for directory `d`.
pub open spec fn in_dir(d: Seq<char>) -> spec_fn(ProductionSave) -> bool {
    |s: ProductionSave| counts_for(dir_of(s.path@), d)
}

/// The saves inside the burst window around `ts`.
pub open spec fn in_window(ts: u64) -> spec_fn(ProductionSave) -> bool {
    |s: ProductionSave| ts - TREE_BURST_WINDOW_MS <= s.timestamp_ms <= ts + TREE_BURST_WINDOW_MS
}

/// The saves counted for `d` inside the burst window around `ts`.
pub open spec fn in_burst(d: Seq<char>, ts: u64) -> spec_fn(ProductionSave) -> bool {
    |s: ProductionSave| in_dir(d)(s) && in_window(ts)(s)
}

/// Directory `d` is mid-storm at `ts`.
pub open spec fn burst(saves: Seq<ProductionSave>, d: Seq<char>, ts: u64) -> bool {
    saves.filter(in_burst(d, ts)).len() > TREE_BURST_MAX
}

/// Directory `d` is fresh: its counted saves span at most the stable age.
pub open spec fn fresh(saves: Seq<ProductionSave>, d: Seq<char>) -> bool {
    forall|i: int, j: int|
        0 <= i < saves.len() && 0 <= j < saves.len() && in_dir(d)(#[trigger] saves[i]) && in_dir(d)(
            #[trigger] saves[j],
        ) ==> saves[i].timestamp_ms - saves[j].timestamp_ms <= OWN_DIR_STABLE_MS
}

/// Some ancestor reached by stepping up from `d` while it has more than
/// the minimum components is mid-storm.
pub open spec fn storm_above(saves: Seq<ProductionSave>, d: Seq<char>, ts: u64) -> bool
    decreases d.len(),
{
    if components(d) > TREE_MIN_COMPONENTS {
        match last_pos(d, '/') {
            Some(k) => if 0 <= k < d.len() {
                burst(saves, d.take(k), ts) || storm_above(saves, d.take(k), ts)
            } else {
                false
            },
            None => false,
        }
    } else {
        false
    }
}

/// The save's tree is mid-storm: its own directory, or — when that
/// directory is fresh — an ancestor.
pub open spec fn stormy(saves: Seq<ProductionSave>, path: Seq<char>, ts: u64) -> bool {
    burst(saves, dir_of(path), ts) || (fresh(saves, dir_of(path)) && storm_above(saves, dir_of(path), ts))
}

// ── Path and name behavior ─────────────────────────────────────────────────

/// The saves of one path.
pub open spec fn same_path(p: Seq<char>) -> spec_fn(ProductionSave) -> bool {
    |s: ProductionSave| s.path@ == p
}

/// The day of a save.
pub open spec fn day_of(s: ProductionSave) -> int {
    (s.timestamp_ms / DAY_MS) as int
}

/// The saves of one path on one day.
pub open spec fn same_path_day(p: Seq<char>, day: int) -> spec_fn(ProductionSave) -> bool {
    |s: ProductionSave| s.path@ == p && day_of(s) == day
}

/// The distinct days of the saves, in first-seen order.
pub open spec fn distinct_days(ss: Seq<ProductionSave>) -> Seq<int>
    decreases ss.len(),
{
    if ss.len() == 0 {
        seq![]
    } else {
        let d = distinct_days(ss.drop_last());
        if d.contains(day_of(ss.last())) {
            d
        } else {
            d.push(day_of(ss.last()))
        }
    }
}

/// The path is written like a machine manages it: too often in total, on
/// too many days, or too often on one day.
pub open spec fn machine_managed(saves: Seq<ProductionSave>, p: Seq<char>) -> bool {
    ||| saves.filter(same_path(p)).len() > PATH_SAVES_TOTAL_MAX
    ||| distinct_days(saves.filter(same_path(p))).len() > PATH_DISTINCT_DAYS_MAX
    ||| exists|i: int|
        0 <= i < saves.len() && (#[trigger] saves[i]).path@ == p && saves.filter(
            same_path_day(p, day_of(saves[i])),
        ).len() > PATH_SAVES_PER_DAY_MAX
}

pub open spec fn is_ascii_alnum(c: char) -> bool {
    ('0' <= c && c <= '9') || ('a' <= c && c <= 'z') || ('A' <= c && c <= 'Z')
}

pub open spec fn is_hex(c: char) -> bool {
    ('0' <= c && c <= '9') || ('a' <= c && c <= 'f') || ('A' <= c && c <= 'F')
}

pub open spec fn is_ascii_digit(c: char) -> bool {
    '0' <= c && c <= '9'
}

/// The distinct directories of the saves with file name `b`, in
/// first-seen order.
pub open spec fn name_dirs(ss: Seq<ProductionSave>, b: Seq<char>) -> Seq<Seq<char>>
    decreases ss.len(),
{
    if ss.len() == 0 {
        seq![]
    } else {
        let d = name_dirs(ss.drop_last(), b);
        if base_of(ss.last().path@) == b {
            push_new(d, dir_of(ss.last().path@))
        } else {
            d
        }
    }
}

/// The file name is a machine blob: mostly hex, mostly digits, or fanned
/// out across many directories.
pub open spec fn machine_named(saves: Seq<ProductionSave>, p: Seq<char>) -> bool {
    let b = base_of(p);
    let alnum = b.filter(|c: char| is_ascii_alnum(c));
    let hex = alnum.filter(|c: char| is_hex(c)).len();
    let digits = alnum.filter(|c: char| is_ascii_digit(c)).len();
    ||| alnum.len() >= HEX_NAME_MIN_LEN && 5 * hex >= 4 * alnum.len()
    ||| alnum.len() >= DIGIT_NAME_MIN_LEN && 5 * digits >= 3 * alnum.len()
    ||| name_dirs(saves, b).len() > NAME_DIR_FANOUT_MAX
}

// ── Choosing the interval ──────────────────────────────────────────────────

/// The save time is within the grace of the interval.
pub open spec fn near(ts: u64, r: RowModel) -> bool {
    ts + ATTACH_GRACE_MS >= r.start_ms && r.end_ms + ATTACH_GRACE_MS >= ts
}

/// The distance from a time to an interval's span (zero inside).
pub open spec fn span_distance(ts: u64, r: RowModel) -> int {
    if ts < r.start_ms {
        r.start_ms - ts
    } else if ts > r.end_ms {
        ts - r.end_ms
    } else {
        0
    }
}

/// The closest row at or after position `i` satisfying `ok`, the later
/// position among equally close ones; `-1` for none.
pub open spec fn closest_from(rows: Seq<RowModel>, ok: spec_fn(RowModel) -> bool, ts: u64, i: int) -> int
    decreases rows.len() - i,
{
    if i >= rows.len() || i < 0 {
        -1
    } else {
        let b = closest_from(rows, ok, ts, i + 1);
        if ok(rows[i]) && (b < 0 || span_distance(ts, rows[i]) < span_distance(ts, rows[b])) {
            i
        } else {
            b
        }
    }
}

/// Rows near `ts` whose surface names `needle`.
pub open spec fn names_file(ts: u64, needle: Seq<char>) -> spec_fn(RowModel) -> bool {
    |r: RowModel| near(ts, r) && has_sub(r.surface, needle)
}

/// Rows near `ts` with typing.
pub open spec fn typed_near(ts: u64) -> spec_fn(RowModel) -> bool {
    |r: RowModel| near(ts, r) && r.typed_count > 0
}

/// The position of the row a save attaches to, or `-1` when it is
/// dropped: hidden and nameless files never attach; the closest row
/// naming the file wins; failing that, for a behaviorally human save, the
/// closest row with typing.
pub open spec fn target_of(rows: Seq<RowModel>, saves: Seq<ProductionSave>, s: ProductionSave) -> int {
    let b = trim(base_of(s.path@));
    if b.len() == 0 || b[0] == '.' {
        -1
    } else {
        let by_name = closest_from(rows, names_file(s.timestamp_ms, lowercased(b)), s.timestamp_ms, 0);
        if by_name >= 0 {
            by_name
        } else if machine_managed(saves, s.path@) || stormy(saves, s.path@, s.timestamp_ms)
            || machine_named(saves, s.path@) {
            -1
        } else {
            closest_from(rows, typed_near(s.timestamp_ms), s.timestamp_ms, 0)
        }
    }
}

/// Times attribution can add its windows to without overflow.
pub open spec fn attributable(rows: Seq<RowModel>, saves: Seq<ProductionSave>) -> bool {
    &&& forall|i: int| 0 <= i < rows.len() ==> (#[trigger] rows[i]).end_ms + ATTACH_GRACE_MS <= u64::MAX
    &&& forall|i: int| 0 <= i < saves.len() ==> (#[trigger] saves[i]).timestamp_ms + ATTACH_GRACE_MS
        <= u64::MAX
}

// ── Checks ─────────────────────────────────────────────────────────────────

fn dir_chars(v: &Vec<char>) -> (r: Vec<char>)
    ensures
        r@ == dir_of(v@),
{
    match find_last_char(v, '/') {
        Some(k) => {
            let r = slice(v, 0, k);
            assert(r@ =~= v@.take(k as int));
            r
        },
        None => Vec::new(),
    }
}

fn components_of(v: &Vec<char>) -> (r: usize)
    ensures
        r == components(v@),
{
    let pieces = split_all_char(v, '/');
    let ghost pv = piece_views(pieces@);
    let mut count: usize = 0;
    let mut i: usize = 0;
    while i < pieces.len()
        invariant
            i <= pieces@.len(),
            pv == piece_views(pieces@),
            pv == split_all(v@, '/'),
            count == pv.take(i as int).filter(|c: Seq<char>| c.len() > 0).len(),
            count <= i,
        decreases pieces@.len() - i,
    {
        assert(pv.take(i + 1) =~= pv.take(i as int).push(pv[i as int]));
        proof {
            pv.take(i as int).lemma_filter_push(pv[i as int], |c: Seq<char>| c.len() > 0);
        }
        assert(pv[i as int] == pieces@[i as int]@);
        if pieces[i].len() > 0 {
            count = count + 1;
        }
        i = i + 1;
    }
    assert(pv.take(pieces@.len() as int) =~= pv);
    count
}

fn counts_for_dir(f: &Vec<char>, d: &Vec<char>, dc: usize) -> (r: bool)
    requires
        dc == components(d@),
    ensures
        r == counts_for(f@, d@),
{
    if dc < TREE_MIN_COMPONENTS {
        return false;
    }
    if seq_eq(f, d) {
        return true;
    }
    if d.len() < f.len() && crate::text::prefix_at(f, 0, d) && f[d.len()] == '/' {
        assert(f@.subrange(0, f@.len() as int) =~= f@);
        assert(f@.take(d@.len() as int) =~= f@.subrange(0, d@.len() as int));
        return true;
    }
    proof {
        if d@.len() < f@.len() && f@.take(d@.len() as int) == d@ {
            assert(f@.subrange(0, f@.len() as int) =~= f@);
            assert(f@.take(d@.len() as int) =~= f@.subrange(0, d@.len() as int));
        }
    }
    false
}

fn save_dir(s: &ProductionSave) -> (r: Vec<char>)
    ensures
        r@ == dir_of(s.path@),
{
    let v = chars_of(s.path.as_str());
    dir_chars(&v)
}

fn burst_at(saves: &Vec<ProductionSave>, d: &Vec<char>, dc: usize, ts: u64) -> (r: bool)
    requires
        dc == components(d@),
        ts + TREE_BURST_WINDOW_MS <= u64::MAX,
    ensures
        r == burst(saves@, d@, ts),
{
    let mut count: usize = 0;
    let mut i: usize = 0;
    while i < saves.len()
        invariant
            i <= saves@.len(),
            dc == components(d@),
            ts + TREE_BURST_WINDOW_MS <= u64::MAX,
            count == saves@.take(i as int).filter(in_burst(d@, ts)).len(),
            count <= i,
        decreases saves@.len() - i,
    {
        assert(saves@.take(i + 1) =~= saves@.take(i as int).push(saves@[i as int]));
        proof {
            saves@.take(i as int).lemma_filter_push(saves@[i as int], in_burst(d@, ts));
        }
        let s = &saves[i];
        let low = if ts >= TREE_BURST_WINDOW_MS {
            ts - TREE_BURST_WINDOW_MS
        } else {
            0
        };
        if low <= s.timestamp_ms && s.timestamp_ms <= ts + TREE_BURST_WINDOW_MS {
            let f = save_dir(s);
            if counts_for_dir(&f, d, dc) {
                count = count + 1;
            }
        }
        i = i + 1;
    }
    assert(saves@.take(saves@.len() as int) =~= saves@);
    count > TREE_BURST_MAX
}

fn fresh_dir(saves: &Vec<ProductionSave>, d: &Vec<char>, dc: usize) -> (r: bool)
    requires
        dc == components(d@),
    ensures
        r == fresh(saves@, d@),
{
    let mut lo: u64 = 0;
    let mut hi: u64 = 0;
    let mut any = false;
    let ghost mut lo_at: int = 0;
    let ghost mut hi_at: int = 0;
    let mut i: usize = 0;
    while i < saves.len()
        invariant
            i <= saves@.len(),
            dc == components(d@),
            any == exists|j: int| 0 <= j < i && in_dir(d@)(#[trigger] saves@[j]),
            any ==> 0 <= lo_at < i && 0 <= hi_at < i && in_dir(d@)(saves@[lo_at]) && in_dir(d@)(
                saves@[hi_at],
            ) && saves@[lo_at].timestamp_ms == lo && saves@[hi_at].timestamp_ms == hi,
            forall|j: int|
                0 <= j < i && in_dir(d@)(#[trigger] saves@[j]) ==> lo <= saves@[j].timestamp_ms <= hi,
        decreases saves@.len() - i,
    {
        let f = save_dir(&saves[i]);
        if counts_for_dir(&f, d, dc) {
            let t = saves[i].timestamp_ms;
            if !any || t < lo {
                lo = t;
                proof {
                    lo_at = i as int;
                }
            }
            if !any || t > hi {
                hi = t;
                proof {
                    hi_at = i as int;
                }
            }
            any = true;
        }
        i = i + 1;
    }
    if !any {
        return true;
    }
    let r = hi - lo <= OWN_DIR_STABLE_MS;
    proof {
        if !r {
            assert(saves@[hi_at].timestamp_ms - saves@[lo_at].timestamp_ms > OWN_DIR_STABLE_MS);
        }
    }
    r
}

fn storm_above_dir(saves: &Vec<ProductionSave>, d: &Vec<char>, ts: u64) -> (r: bool)
    requires
        ts + TREE_BURST_WINDOW_MS <= u64::MAX,
    ensures
        r == storm_above(saves@, d@, ts),
{
    let mut dir = slice(d, 0, d.len());
    assert(dir@ =~= d@);
    let mut dc = components_of(&dir);
    loop
        invariant
            ts + TREE_BURST_WINDOW_MS <= u64::MAX,
            dc == components(dir@),
            storm_above(saves@, d@, ts) == storm_above(saves@, dir@, ts),
        decreases dir@.len(),
    {
        if dc <= TREE_MIN_COMPONENTS {
            return false;
        }
        match find_last_char(&dir, '/') {
            None => {
                return false;
            },
            Some(k) => {
                let parent = slice(&dir, 0, k);
                assert(parent@ =~= dir@.take(k as int));
                let pc = components_of(&parent);
                if burst_at(saves, &parent, pc, ts) {
                    return true;
                }
                dir = parent;
                dc = pc;
            },
        }
    }
}

fn stormy_path(saves: &Vec<ProductionSave>, path: &str, ts: u64) -> (r: bool)
    requires
        ts + TREE_BURST_WINDOW_MS <= u64::MAX,
    ensures
        r == stormy(saves@, path@, ts),
{
    let v = chars_of(path);
    let d = dir_chars(&v);
    let dc = components_of(&d);
    if burst_at(saves, &d, dc, ts) {
        return true;
    }
    if !fresh_dir(saves, &d, dc) {
        return false;
    }
    storm_above_dir(saves, &d, ts)
}

fn machine_managed_path(saves: &Vec<ProductionSave>, path: &str) -> (r: bool)
    ensures
        r == machine_managed(saves@, path@),
{
    let ghost p = path@;
    let mut total: usize = 0;
    let mut days: Vec<u64> = Vec::new();
    let mut i: usize = 0;
    while i < saves.len()
        invariant
            i <= saves@.len(),
            p == path@,
            total == saves@.take(i as int).filter(same_path(p)).len(),
            total <= i,
            days@.map_values(|d: u64| d as int) == distinct_days(saves@.take(i as int).filter(same_path(p))),
        decreases saves@.len() - i,
    {
        let ghost fp = saves@.take(i as int).filter(same_path(p));
        assert(saves@.take(i + 1) =~= saves@.take(i as int).push(saves@[i as int]));
        proof {
            saves@.take(i as int).lemma_filter_push(saves@[i as int], same_path(p));
        }
        if crate::text::str_eq(saves[i].path.as_str(), path) {
            total = total + 1;
            let day = saves[i].timestamp_ms / DAY_MS;
            let ghost dv = days@.map_values(|d: u64| d as int);
            let mut seen = false;
            let mut j: usize = 0;
            while j < days.len()
                invariant
                    j <= days@.len(),
                    dv == days@.map_values(|d: u64| d as int),
                    seen == exists|q: int| 0 <= q < j && #[trigger] dv[q] == day as int,
                decreases days@.len() - j,
            {
                assert(dv[j as int] == days@[j as int] as int);
                if days[j] == day {
                    seen = true;
                }
                j = j + 1;
            }
            assert(fp.push(saves@[i as int]).drop_last() =~= fp);
            if !seen {
                days.push(day);
                assert(days@.map_values(|d: u64| d as int) =~= dv.push(day as int));
            } else {
                assert(dv.contains(day as int));
            }
        }
        i = i + 1;
    }
    assert(saves@.take(saves@.len() as int) =~= saves@);
    if total > PATH_SAVES_TOTAL_MAX || days.len() > PATH_DISTINCT_DAYS_MAX {
        return true;
    }
    let mut i: usize = 0;
    while i < saves.len()
        invariant
            i <= saves@.len(),
            p == path@,
            forall|q: int|
                0 <= q < i && (#[trigger] saves@[q]).path@ == p ==> saves@.filter(
                    same_path_day(p, day_of(saves@[q])),
                ).len() <= PATH_SAVES_PER_DAY_MAX,
        decreases saves@.len() - i,
    {
        if crate::text::str_eq(saves[i].path.as_str(), path) {
            let day = saves[i].timestamp_ms / DAY_MS;
            let mut count: usize = 0;
            let mut j: usize = 0;
            while j < saves.len()
                invariant
                    j <= saves@.len(),
                    p == path@,
                    count == saves@.take(j as int).filter(same_path_day(p, day as int)).len(),
                    count <= j,
                decreases saves@.len() - j,
            {
                assert(saves@.take(j + 1) =~= saves@.take(j as int).push(saves@[j as int]));
                proof {
                    saves@.take(j as int).lemma_filter_push(saves@[j as int], same_path_day(p, day as int));
                }
                if saves[j].timestamp_ms / DAY_MS == day && crate::text::str_eq(saves[j].path.as_str(), path) {
                    count = count + 1;
                }
                j = j + 1;
            }
            assert(saves@.take(saves@.len() as int) =~= saves@);
            assert(day as int == day_of(saves@[i as int]));
            if count > PATH_SAVES_PER_DAY_MAX {
                return true;
            }
        }
        i = i + 1;
    }
    false
}

fn machine_named_path(saves: &Vec<ProductionSave>, path: &str) -> (r: bool)
    ensures
        r == machine_named(saves@, path@),
{
    let v = chars_of(path);
    let b = after_last_char(&v, '/');
    let ghost alnum = b@.filter(|c: char| is_ascii_alnum(c));
    let mut alnum_count: usize = 0;
    let mut hex: usize = 0;
    let mut digits: usize = 0;
    let mut i: usize = 0;
    while i < b.len()
        invariant
            i <= b@.len(),
            alnum_count == b@.take(i as int).filter(|c: char| is_ascii_alnum(c)).len(),
            hex == b@.take(i as int).filter(|c: char| is_ascii_alnum(c)).filter(|c: char| is_hex(c)).len(),
            digits == b@.take(i as int).filter(|c: char| is_ascii_alnum(c)).filter(|c: char| is_ascii_digit(c)).len(),
            hex <= alnum_count && digits <= alnum_count && alnum_count <= i,
        decreases b@.len() - i,
    {
        let c = b[i];
        let ghost pre = b@.take(i as int).filter(|c: char| is_ascii_alnum(c));
        assert(b@.take(i + 1) =~= b@.take(i as int).push(c));
        proof {
            b@.take(i as int).lemma_filter_push(c, |c: char| is_ascii_alnum(c));
            pre.lemma_filter_push(c, |c: char| is_hex(c));
            pre.lemma_filter_push(c, |c: char| is_ascii_digit(c));
        }
        if ('0' <= c && c <= '9') || ('a' <= c && c <= 'z') || ('A' <= c && c <= 'Z') {
            alnum_count = alnum_count + 1;
            if ('0' <= c && c <= '9') || ('a' <= c && c <= 'f') || ('A' <= c && c <= 'F') {
                hex = hex + 1;
            }
            if '0' <= c && c <= '9' {
                digits = digits + 1;
            }
        }
        i = i + 1;
    }
    assert(b@.take(b@.len() as int) =~= b@);
    if alnum_count >= HEX_NAME_MIN_LEN && 5 * (hex as u128) >= 4 * (alnum_count as u128) {
        return true;
    }
    if alnum_count >= DIGIT_NAME_MIN_LEN && 5 * (digits as u128) >= 3 * (alnum_count as u128) {
        return true;
    }
    let ghost bv = b@;
    let mut dirs: Vec<String> = Vec::new();
    let mut j: usize = 0;
    while j < saves.len()
        invariant
            j <= saves@.len(),
            bv == b@,
            views(dirs@) == name_dirs(saves@.take(j as int), bv),
        decreases saves@.len() - j,
    {
        assert(saves@.take(j + 1).drop_last() =~= saves@.take(j as int));
        assert(saves@.take(j + 1).last() == saves@[j as int]);
        let sv = chars_of(saves[j].path.as_str());
        let sb = after_last_char(&sv, '/');
        if seq_eq(&sb, &b) {
            let d = dir_chars(&sv);
            let ds = string_of(&d);
            crate::text::push_unique(&mut dirs, ds.as_str());
        }
        j = j + 1;
    }
    assert(saves@.take(saves@.len() as int) =~= saves@);
    dirs.len() > NAME_DIR_FANOUT_MAX
}

fn distance(ts: u64, r: &AttentionRow) -> (d: u64)
    ensures
        d == span_distance(ts, r@),
{
    if ts < r.start_ms {
        r.start_ms - ts
    } else if ts > r.end_ms {
        ts - r.end_ms
    } else {
        0
    }
}

/// The closest row naming `needle` near `ts` (when `needle` is given), or
/// the closest row with typing near `ts`.
fn closest(rows: &Vec<AttentionRow>, ts: u64, needle: Option<&str>) -> (r: Option<usize>)
    requires
        ts + ATTACH_GRACE_MS <= u64::MAX,
        forall|i: int| 0 <= i < rows@.len() ==> (#[trigger] row_views(rows@)[i]).end_ms + ATTACH_GRACE_MS <= u64::MAX,
    ensures
        ({
            let ok = match needle {
                Some(n) => names_file(ts, n@),
                None => typed_near(ts),
            };
            match r {
                Some(k) => k as int == closest_from(row_views(rows@), ok, ts, 0),
                None => closest_from(row_views(rows@), ok, ts, 0) == -1,
            }
        }),
{
    let ghost ok = match needle {
        Some(n) => names_file(ts, n@),
        None => typed_near(ts),
    };
    let mut best: Option<usize> = None;
    let mut i: usize = rows.len();
    while i > 0
        invariant
            i <= rows@.len(),
            ts + ATTACH_GRACE_MS <= u64::MAX,
            forall|q: int| 0 <= q < rows@.len() ==> (#[trigger] row_views(rows@)[q]).end_ms + ATTACH_GRACE_MS <= u64::MAX,
            ok == match needle {
                Some(n) => names_file(ts, n@),
                None => typed_near(ts),
            },
            match best {
                Some(k) => k as int == closest_from(row_views(rows@), ok, ts, i as int) && k < rows@.len(),
                None => closest_from(row_views(rows@), ok, ts, i as int) == -1,
            },
        decreases i,
    {
        i = i - 1;
        let row = &rows[i];
        assert(row_views(rows@)[i as int] == rows@[i as int]@);
        let is_near = ts + ATTACH_GRACE_MS >= row.start_ms && row.end_ms + ATTACH_GRACE_MS >= ts;
        let fits = is_near && match needle {
            Some(n) => contains_text(row.surface.as_str(), n),
            None => row.typed_count > 0,
        };
        assert(row_views(rows@)[i as int] == rows@[i as int]@);
        assert(fits == ok(row_views(rows@)[i as int]));
        if fits {
            let d = distance(ts, row);
            let better = match best {
                Some(b) => d < distance(ts, &rows[b]),
                None => true,
            };
            if better {
                best = Some(i);
            }
        }
    }
    best
}

/// The position of the row a save attaches to, if any.
fn target(rows: &Vec<AttentionRow>, saves: &Vec<ProductionSave>, save: &ProductionSave) -> (r: Option<usize>)
    requires
        attributable(row_views(rows@), saves@),
        save.timestamp_ms + ATTACH_GRACE_MS <= u64::MAX,
    ensures
        match r {
            Some(k) => k as int == target_of(row_views(rows@), saves@, *save) && k < rows@.len(),
            None => target_of(row_views(rows@), saves@, *save) == -1,
        },
{
    let v = chars_of(save.path.as_str());
    let raw = string_of(&after_last_char(&v, '/'));
    let b = trimmed(raw.as_str());
    let bv = chars_of(b.as_str());
    if bv.len() == 0 || bv[0] == '.' {
        return None;
    }
    let needle = lowercase(b.as_str());
    let ts = save.timestamp_ms;
    proof {
        lemma_closest_range(row_views(rows@), names_file(ts, needle@), ts, 0);
        lemma_closest_range(row_views(rows@), typed_near(ts), ts, 0);
    }
    match closest(rows, ts, Some(needle.as_str())) {
        Some(k) => {
            return Some(k);
        },
        None => {},
    }
    if machine_managed_path(saves, save.path.as_str()) || stormy_path(saves, save.path.as_str(), ts)
        || machine_named_path(saves, save.path.as_str()) {
        return None;
    }
    closest(rows, ts, None)
}

proof fn lemma_closest_range(rows: Seq<RowModel>, ok: spec_fn(RowModel) -> bool, ts: u64, i: int)
    requires
        0 <= i,
    ensures
        -1 <= closest_from(rows, ok, ts, i) < rows.len(),
    decreases rows.len() - i,
{
    if i < rows.len() {
        lemma_closest_range(rows, ok, ts, i + 1);
    }
}

// ── Attribution ────────────────────────────────────────────────────────────

/// The outcome of attributing saves to intervals.
pub struct Attribution {
    /// Saves that attached.
    pub attached: usize,
    /// Saves dropped as background.
    pub dropped: usize,
    /// Per interval id, ascending, the paths attached to it in save order.
    pub per_interval: Vec<(i64, Vec<String>)>,
}

/// The rows in order of their start, equal starts in their given order.
pub open spec fn by_start(rows: Seq<RowModel>) -> Seq<RowModel> {
    key_order(rows.map_values(|r: RowModel| r.start_ms), rows.len() as int).map_values(|i: int| rows[i])
}

/// The saves that attach to some interval.
pub open spec fn attaches(rows: Seq<RowModel>, saves: Seq<ProductionSave>) -> spec_fn(ProductionSave) -> bool {
    |s: ProductionSave| target_of(by_start(rows), saves, s) >= 0
}

/// The id of the interval a save attaches to.
pub open spec fn attached_id(rows: Seq<RowModel>, saves: Seq<ProductionSave>, s: ProductionSave) -> i64 {
    by_start(rows)[target_of(by_start(rows), saves, s)].id
}

/// The saves that attach to the interval with `id`.
pub open spec fn attaches_to(rows: Seq<RowModel>, saves: Seq<ProductionSave>, id: i64) -> spec_fn(ProductionSave) -> bool {
    |s: ProductionSave| target_of(by_start(rows), saves, s) >= 0 && attached_id(rows, saves, s) == id
}

/// Some target among the first `n` is the interval `id`.
pub open spec fn occurs(t: Seq<Option<i64>>, id: i64, n: int) -> bool {
    exists|m: int| 0 <= m < n && t[m] == Some(id)
}

/// Some entry is for the interval `id`.
pub open spec fn listed(per: Seq<(i64, Vec<String>)>, id: i64) -> bool {
    exists|k: int| 0 <= k < per.len() && per[k].0 == id
}

/// The paths of some saves.
pub open spec fn paths_of(ss: Seq<ProductionSave>) -> Seq<Seq<char>> {
    ss.map_values(|s: ProductionSave| s.path@)
}

fn copy_row(r: &AttentionRow) -> (c: AttentionRow)
    ensures
        c@ == r@,
{
    AttentionRow {
        id: r.id,
        start_ms: r.start_ms,
        end_ms: r.end_ms,
        surface: to_owned_string(r.surface.as_str()),
        typed_count: r.typed_count,
    }
}

fn rows_by_start(rows: &Vec<AttentionRow>) -> (sorted: Vec<AttentionRow>)
    ensures
        row_views(sorted@) == by_start(row_views(rows@)),
{
    let ghost rv = row_views(rows@);
    let mut keys: Vec<u64> = Vec::new();
    let mut i: usize = 0;
    while i < rows.len()
        invariant
            i <= rows@.len(),
            rv == row_views(rows@),
            keys@ == rv.map_values(|r: RowModel| r.start_ms).take(i as int),
        decreases rows@.len() - i,
    {
        keys.push(rows[i].start_ms);
        assert(keys@ =~= rv.map_values(|r: RowModel| r.start_ms).take(i + 1));
        i = i + 1;
    }
    assert(keys@ =~= rv.map_values(|r: RowModel| r.start_ms));
    let order = stable_key_order(&keys);
    let ghost ord = order@.map_values(|i: usize| i as int);
    let ghost sv = by_start(rv);
    let mut sorted: Vec<AttentionRow> = Vec::new();
    let mut k: usize = 0;
    while k < order.len()
        invariant
            k <= order@.len(),
            order@.len() == rows@.len(),
            forall|q: int| 0 <= q < order@.len() ==> order@[q] < rows@.len(),
            rv == row_views(rows@),
            ord == order@.map_values(|i: usize| i as int),
            sv == ord.map_values(|i: int| rv[i]),
            row_views(sorted@) == sv.take(k as int),
        decreases order@.len() - k,
    {
        let c = copy_row(&rows[order[k]]);
        let ghost before = sorted@;
        sorted.push(c);
        proof {
            assert(ord[k as int] == order@[k as int] as int);
            assert(sv[k as int] == rv[order@[k as int] as int]);
            assert(rv[order@[k as int] as int] == rows@[order@[k as int] as int]@);
            assert(row_views(sorted@) =~= row_views(before).push(c@));
            assert(sv.take(k + 1) =~= sv.take(k as int).push(sv[k as int]));
        }
        k = k + 1;
    }
    assert(sv.take(order@.len() as int) =~= sv);
    sorted
}

/// Each save's target interval id, and how many saves attach.
fn save_targets(sorted: &Vec<AttentionRow>, saves: &Vec<ProductionSave>, Ghost(rv): Ghost<Seq<RowModel>>) -> (r: (Vec<Option<i64>>, usize))
    requires
        row_views(sorted@) == by_start(rv),
        attributable(by_start(rv), saves@),
    ensures
        r.0@.len() == saves@.len(),
        forall|q: int|
            0 <= q < saves@.len() ==> match #[trigger] r.0@[q] {
                Some(id) => attaches(rv, saves@)(saves@[q]) && id == attached_id(rv, saves@, saves@[q]),
                None => !attaches(rv, saves@)(saves@[q]),
            },
        r.1 == saves@.filter(attaches(rv, saves@)).len(),
{
    let ghost sv = by_start(rv);
    let mut targets: Vec<Option<i64>> = Vec::new();
    let mut attached: usize = 0;
    let mut s: usize = 0;
    while s < saves.len()
        invariant
            s <= saves@.len(),
            row_views(sorted@) == sv,
            sv == by_start(rv),
            attributable(sv, saves@),
            targets@.len() == s,
            forall|q: int|
                0 <= q < s ==> match #[trigger] targets@[q] {
                    Some(id) => attaches(rv, saves@)(saves@[q]) && id == attached_id(rv, saves@, saves@[q]),
                    None => !attaches(rv, saves@)(saves@[q]),
                },
            attached == saves@.take(s as int).filter(attaches(rv, saves@)).len(),
            attached <= s,
        decreases saves@.len() - s,
    {
        assert(saves@.take(s + 1) =~= saves@.take(s as int).push(saves@[s as int]));
        proof {
            saves@.take(s as int).lemma_filter_push(saves@[s as int], attaches(rv, saves@));
        }
        match target(sorted, saves, &saves[s]) {
            Some(t) => {
                assert(row_views(sorted@)[t as int] == sorted@[t as int]@);
                targets.push(Some(sorted[t].id));
                attached = attached + 1;
            },
            None => {
                targets.push(None);
            },
        }
        s = s + 1;
    }
    assert(saves@.take(saves@.len() as int) =~= saves@);
    (targets, attached)
}

/// The ids among the targets, ascending and each once.
fn distinct_ids(targets: &Vec<Option<i64>>) -> (ids: Vec<i64>)
    ensures
        forall|i: int, j: int| 0 <= i < j < ids@.len() ==> ids@[i] < ids@[j],
        forall|m: int| 0 <= m < targets@.len() ==> (#[trigger] targets@[m] matches Some(id) ==> ids@.contains(id)),
        forall|k: int| 0 <= k < ids@.len() ==> occurs(targets@, #[trigger] ids@[k], targets@.len() as int),
{
    let mut ids: Vec<i64> = Vec::new();
    let mut q: usize = 0;
    while q < targets.len()
        invariant
            q <= targets@.len(),
            forall|i: int, j: int| 0 <= i < j < ids@.len() ==> ids@[i] < ids@[j],
            forall|m: int| 0 <= m < q ==> (#[trigger] targets@[m] matches Some(id) ==> ids@.contains(id)),
            forall|k: int| 0 <= k < ids@.len() ==> occurs(targets@, #[trigger] ids@[k], q as int),
        decreases targets@.len() - q,
    {
        if let Some(id) = targets[q] {
            let mut p: usize = 0;
            while p < ids.len() && ids[p] < id
                invariant
                    p <= ids@.len(),
                    forall|i: int| 0 <= i < p ==> ids@[i] < id,
                decreases ids@.len() - p,
            {
                p = p + 1;
            }
            if p < ids.len() && ids[p] == id {
                assert(ids@.contains(id));
            } else {
                let ghost before = ids@;
                ids.insert(p, id);
                assert(ids@ == before.insert(p as int, id));
                assert(ids@[p as int] == id);
                assert forall|k: int| 0 <= k < ids@.len() implies occurs(targets@, #[trigger] ids@[k], q + 1) by {
                    if k < p {
                        assert(ids@[k] == before[k]);
                        assert(occurs(targets@, before[k], q as int));
                    } else if k > p {
                        assert(ids@[k] == before[k - 1]);
                        assert(occurs(targets@, before[k - 1], q as int));
                    } else {
                        assert(targets@[q as int] == Some(ids@[k]));
                    }
                }
                assert forall|m: int| 0 <= m < q + 1 implies (#[trigger] targets@[m] matches Some(x) ==> ids@.contains(x)) by {
                    if let Some(x) = targets@[m] {
                        if m < q {
                            let w = choose|w: int| 0 <= w < before.len() && before[w] == x;
                            if w < p {
                                assert(ids@[w] == x);
                            } else {
                                assert(ids@[w + 1] == x);
                            }
                        } else {
                            assert(ids@[p as int] == x);
                        }
                    }
                }
            }
        }
        q = q + 1;
    }
    ids
}

/// The paths of the saves whose target is `id`, in save order.
fn paths_to(saves: &Vec<ProductionSave>, targets: &Vec<Option<i64>>, id: i64, Ghost(rv): Ghost<Seq<RowModel>>) -> (paths: Vec<String>)
    requires
        targets@.len() == saves@.len(),
        forall|x: int|
            0 <= x < saves@.len() ==> match #[trigger] targets@[x] {
                Some(i) => attaches(rv, saves@)(saves@[x]) && i == attached_id(rv, saves@, saves@[x]),
                None => !attaches(rv, saves@)(saves@[x]),
            },
    ensures
        views(paths@) == paths_of(saves@.filter(attaches_to(rv, saves@, id))),
        occurs(targets@, id, saves@.len() as int) ==> paths@.len() > 0,
{
    let mut paths: Vec<String> = Vec::new();
    let mut m: usize = 0;
    while m < saves.len()
        invariant
            m <= saves@.len(),
            targets@.len() == saves@.len(),
            forall|x: int|
                0 <= x < saves@.len() ==> match #[trigger] targets@[x] {
                    Some(i) => attaches(rv, saves@)(saves@[x]) && i == attached_id(rv, saves@, saves@[x]),
                    None => !attaches(rv, saves@)(saves@[x]),
                },
            views(paths@) == paths_of(saves@.take(m as int).filter(attaches_to(rv, saves@, id))),
            occurs(targets@, id, m as int) ==> paths@.len() > 0,
        decreases saves@.len() - m,
    {
        let ghost pre = saves@.take(m as int).filter(attaches_to(rv, saves@, id));
        assert(saves@.take(m + 1) =~= saves@.take(m as int).push(saves@[m as int]));
        proof {
            saves@.take(m as int).lemma_filter_push(saves@[m as int], attaches_to(rv, saves@, id));
        }
        let hit = match targets[m] {
            Some(t) => t == id,
            None => false,
        };
        if hit {
            let ghost before = paths@;
            paths.push(to_owned_string(saves[m].path.as_str()));
            assert(views(paths@) =~= views(before).push(saves@[m as int].path@));
            assert(paths_of(pre.push(saves@[m as int])) =~= paths_of(pre).push(saves@[m as int].path@));
        } else {
            assert(!attaches_to(rv, saves@, id)(saves@[m as int]));
        }
        m = m + 1;
    }
    assert(saves@.take(saves@.len() as int) =~= saves@);
    paths
}

/// Attributes each save to the interval it is production of (see the
/// module documentation), counting attached and dropped saves and
/// collecting, per interval, the attached paths.
pub fn attribute_saves(rows: &Vec<AttentionRow>, saves: &Vec<ProductionSave>) -> (r: Attribution)
    requires
        attributable(row_views(rows@), saves@),
    ensures
        r.attached == saves@.filter(attaches(row_views(rows@), saves@)).len(),
        r.attached + r.dropped == saves@.len(),
        forall|i: int, j: int|
            0 <= i < j < r.per_interval@.len() ==> (#[trigger] r.per_interval@[i]).0 < (
            #[trigger] r.per_interval@[j]).0,
        forall|k: int|
            0 <= k < r.per_interval@.len() ==> views((#[trigger] r.per_interval@[k]).1@) == paths_of(
                saves@.filter(attaches_to(row_views(rows@), saves@, r.per_interval@[k].0)),
            ) && r.per_interval@[k].1@.len() > 0,
        forall|i: int|
            0 <= i < saves@.len() && attaches(row_views(rows@), saves@)(#[trigger] saves@[i]) ==> listed(
                r.per_interval@,
                attached_id(row_views(rows@), saves@, saves@[i]),
            ),
{
    let ghost rv = row_views(rows@);
    let sorted = rows_by_start(rows);
    proof {
        let sv = by_start(rv);
        let keys = rv.map_values(|r: RowModel| r.start_ms);
        crate::sorting::lemma_key_order(keys, rv.len() as int);
        assert forall|q: int| 0 <= q < sv.len() implies (#[trigger] sv[q]).end_ms + ATTACH_GRACE_MS
            <= u64::MAX by {
            let i = key_order(keys, rv.len() as int)[q];
            assert(sv[q] == rv[i]);
            assert(rv[i] == rows@[i]@);
        }
    }
    let (targets, attached) = save_targets(&sorted, saves, Ghost(rv));
    let ids = distinct_ids(&targets);
    let mut per_interval: Vec<(i64, Vec<String>)> = Vec::new();
    let mut k: usize = 0;
    while k < ids.len()
        invariant
            k <= ids@.len(),
            targets@.len() == saves@.len(),
            forall|i: int, j: int| 0 <= i < j < ids@.len() ==> ids@[i] < ids@[j],
            forall|m: int|
                0 <= m < saves@.len() ==> match #[trigger] targets@[m] {
                    Some(id) => attaches(rv, saves@)(saves@[m]) && id == attached_id(rv, saves@, saves@[m]),
                    None => !attaches(rv, saves@)(saves@[m]),
                },
            forall|j: int| 0 <= j < ids@.len() ==> occurs(targets@, #[trigger] ids@[j], targets@.len() as int),
            per_interval@.len() == k,
            forall|j: int| 0 <= j < k ==> (#[trigger] per_interval@[j]).0 == ids@[j],
            forall|j: int|
                0 <= j < k ==> views((#[trigger] per_interval@[j]).1@) == paths_of(
                    saves@.filter(attaches_to(rv, saves@, per_interval@[j].0)),
                ) && per_interval@[j].1@.len() > 0,
        decreases ids@.len() - k,
    {
        let id = ids[k];
        assert(occurs(targets@, ids@[k as int], targets@.len() as int));
        let paths = paths_to(saves, &targets, id, Ghost(rv));
        per_interval.push((id, paths));
        k = k + 1;
    }
    proof {
        assert forall|i: int|
            0 <= i < saves@.len() && attaches(rv, saves@)(#[trigger] saves@[i]) implies listed(
                per_interval@,
                attached_id(rv, saves@, saves@[i]),
            ) by {
            let id = targets@[i]->0;
            assert(targets@[i] matches Some(x) && x == id);
            assert(ids@.contains(id));
            let k = choose|k: int| 0 <= k < ids@.len() && ids@[k] == id;
            assert(per_interval@[k].0 == ids@[k]);
            assert(id == attached_id(rv, saves@, saves@[i]));
            assert(0 <= k < per_interval@.len() && per_interval@[k].0 == attached_id(rv, saves@, saves@[i]));
        }
    }
    Attribution { attached, dropped: saves.len() - attached, per_interval }
}

/// An interval row for attribution from its stored fields: the surface
/// is the lowercased title, host, document path and URLs, space-joined;
/// negative times and counts read as zero.
pub fn attention_row(
    id: i64,
    start_ms: i64,
    end_ms: i64,
    typed_count: i64,
    title: &str,
    host: &str,
    document: &str,
    urls: &str,
) -> (r: AttentionRow)
    ensures
        r.id == id,
        r.start_ms == if start_ms > 0 {
            start_ms as u64
        } else {
            0
        },
        r.end_ms == if end_ms > 0 {
            end_ms as u64
        } else {
            0
        },
        r.typed_count == if typed_count > 0 {
            typed_count as u32
        } else {
            0
        },
        r.surface@ == lowercased(title@ + " "@ + host@ + " "@ + document@ + " "@ + urls@),
{
    let a = concat3(title, " ", host);
    let b = concat3(a.as_str(), " ", document);
    let c = concat3(b.as_str(), " ", urls);
    AttentionRow {
        id,
        start_ms: if start_ms > 0 {
            start_ms as u64
        } else {
            0
        },
        end_ms: if end_ms > 0 {
            end_ms as u64
        } else {
            0
        },
        typed_count: if typed_count > 0 {
            typed_count as u32
        } else {
            0
        },
        surface: lowercase(c.as_str()),
    }
}

/// The documents, index text and count of new attachments after adding
/// `ps` to an interval: each path not already among the documents is
/// appended, and its path and file name are added to the index text.
pub open spec fn merged(docs: Seq<Seq<char>>, search: Seq<char>, ps: Seq<Seq<char>>) -> (Seq<Seq<char>>, Seq<char>, nat)
    decreases ps.len(),
{
    if ps.len() == 0 {
        (docs, search, 0)
    } else {
        let prev = merged(docs, search, ps.drop_last());
        let p = ps.last();
        if prev.0.contains(p) {
            prev
        } else {
            (prev.0.push(p), prev.1 + " "@ + p + " "@ + base_of(p), prev.2 + 1)
        }
    }
}

/// Adds attached paths to an interval's stored documents (newline-joined)
/// and index text; returns the new documents text, the new index text
/// and how many paths were newly attached (a rebuild re-attaching a path
/// adds nothing).
pub fn merge_saves(existing_docs: &str, existing_search: &str, paths: &Vec<String>) -> (r: (String, String, usize))
    ensures
        ({
            let m = merged(nonblank_lines(existing_docs@), existing_search@, views(paths@));
            &&& r.0@ == join_with(m.0, "\n"@)
            &&& r.1@ == m.1
            &&& r.2 == m.2
        }),
{
    let mut docs = nonblank_lines_of(existing_docs);
    let mut search = to_owned_string(existing_search);
    let mut newly: usize = 0;
    let ghost pv = views(paths@);
    let mut i: usize = 0;
    while i < paths.len()
        invariant
            i <= paths@.len(),
            pv == views(paths@),
            newly <= i,
            ({
                let m = merged(nonblank_lines(existing_docs@), existing_search@, pv.take(i as int));
                views(docs@) == m.0 && search@ == m.1 && newly == m.2
            }),
        decreases paths@.len() - i,
    {
        assert(pv.take(i + 1).drop_last() =~= pv.take(i as int));
        assert(pv.take(i + 1).last() == paths@[i as int]@);
        let p = paths[i].as_str();
        if !holds_text(&docs, p) {
            let ghost before = docs@;
            docs.push(to_owned_string(p));
            assert(views(docs@) =~= views(before).push(p@));
            newly = newly + 1;
            let pvc = chars_of(p);
            let file = string_of(&after_last_char(&pvc, '/'));
            let s1 = concat3(search.as_str(), " ", p);
            search = concat3(s1.as_str(), " ", file.as_str());
        }
        i = i + 1;
    }
    assert(pv.take(paths@.len() as int) =~= pv);
    (join_texts(&docs, "\n"), search, newly)
}

proof fn lemma_merged_holds(docs: Seq<Seq<char>>, search: Seq<char>, ps: Seq<Seq<char>>)
    ensures
        forall|i: int| 0 <= i < ps.len() ==> merged(docs, search, ps).0.contains(#[trigger] ps[i]),
        forall|x: Seq<char>| docs.contains(x) ==> merged(docs, search, ps).0.contains(x),
    decreases ps.len(),
{
    if ps.len() > 0 {
        lemma_merged_holds(docs, search, ps.drop_last());
        let prev = merged(docs, search, ps.drop_last());
        assert forall|i: int| 0 <= i < ps.len() implies merged(docs, search, ps).0.contains(#[trigger] ps[i]) by {
            if i < ps.len() - 1 {
                assert(ps[i] == ps.drop_last()[i]);
                assert(prev.0.contains(ps[i]));
                if !prev.0.contains(ps.last()) {
                    let k = choose|k: int| 0 <= k < prev.0.len() && prev.0[k] == ps[i];
                    assert(prev.0.push(ps.last())[k] == ps[i]);
                }
            } else if !prev.0.contains(ps.last()) {
                assert(prev.0.push(ps.last())[prev.0.len() as int] == ps.last());
            }
        }
        assert forall|x: Seq<char>| docs.contains(x) implies merged(docs, search, ps).0.contains(x) by {
            if !prev.0.contains(ps.last()) {
                let k = choose|k: int| 0 <= k < prev.0.len() && prev.0[k] == x;
                assert(prev.0.push(ps.last())[k] == x);
            }
        }
    }
}

proof fn lemma_merged_nothing_new(docs: Seq<Seq<char>>, search: Seq<char>, ps: Seq<Seq<char>>)
    requires
        forall|i: int| 0 <= i < ps.len() ==> docs.contains(#[trigger] ps[i]),
    ensures
        merged(docs, search, ps) == (docs, search, 0nat),
    decreases ps.len(),
{
    if ps.len() > 0 {
        assert forall|i: int| 0 <= i < ps.drop_last().len() implies docs.contains(#[trigger] ps.drop_last()[i]) by {
            assert(ps.drop_last()[i] == ps[i]);
        }
        lemma_merged_nothing_new(docs, search, ps.drop_last());
        assert(docs.contains(ps[ps.len() - 1]));
    }
}

/// Attaching is idempotent: attaching the same paths again, as a rebuild
/// does, changes neither the documents nor the index text and attaches
/// nothing new.
pub proof fn lemma_attach_idempotent(docs: Seq<Seq<char>>, search: Seq<char>, ps: Seq<Seq<char>>)
    ensures
        ({
            let once = merged(docs, search, ps);
            merged(once.0, once.1, ps) == (once.0, once.1, 0nat)
        }),
{
    lemma_merged_holds(docs, search, ps);
    let once = merged(docs, search, ps);
    lemma_merged_nothing_new(once.0, once.1, ps);
}

/// Attaching never lists a path twice: documents free of repeats stay
/// free of repeats, and each newly attached path is counted once.
pub proof fn lemma_attach_no_repeats(docs: Seq<Seq<char>>, search: Seq<char>, ps: Seq<Seq<char>>)
    requires
        docs.no_duplicates(),
    ensures
        merged(docs, search, ps).0.no_duplicates(),
        merged(docs, search, ps).0.len() == docs.len() + merged(docs, search, ps).2,
    decreases ps.len(),
{
    if ps.len() > 0 {
        lemma_attach_no_repeats(docs, search, ps.drop_last());
        let prev = merged(docs, search, ps.drop_last());
        let p = ps.last();
        if !prev.0.contains(p) {
            let n = prev.0.push(p);
            assert forall|i: int, j: int| 0 <= i < n.len() && 0 <= j < n.len() && i != j implies n[i] != n[j] by {
                if i == n.len() - 1 {
                    assert(n[j] == prev.0[j]);
                } else if j == n.len() - 1 {
                    assert(n[i] == prev.0[i]);
                } else {
                    assert(n[i] == prev.0[i] && n[j] == prev.0[j]);
                }
            }
        }
    }
}

/// Whether attribution accepts the rows and saves: every time leaves room
/// for the grace window.
pub fn inputs_attributable(rows: &Vec<AttentionRow>, saves: &Vec<ProductionSave>) -> (r: bool)
    ensures
        r == attributable(row_views(rows@), saves@),
{
    let mut i: usize = 0;
    while i < rows.len()
        invariant
            i <= rows@.len(),
            forall|j: int| 0 <= j < i ==> (#[trigger] row_views(rows@)[j]).end_ms + ATTACH_GRACE_MS <= u64::MAX,
        decreases rows@.len() - i,
    {
        assert(row_views(rows@)[i as int] == rows@[i as int]@);
        if rows[i].end_ms > u64::MAX - ATTACH_GRACE_MS {
            return false;
        }
        i = i + 1;
    }
    let mut k: usize = 0;
    while k < saves.len()
        invariant
            k <= saves@.len(),
            forall|j: int| 0 <= j < rows@.len() ==> (#[trigger] row_views(rows@)[j]).end_ms + ATTACH_GRACE_MS <= u64::MAX,
            forall|j: int| 0 <= j < k ==> (#[trigger] saves@[j]).timestamp_ms + ATTACH_GRACE_MS <= u64::MAX,
        decreases saves@.len() - k,
    {
        if saves[k].timestamp_ms > u64::MAX - ATTACH_GRACE_MS {
            return false;
        }
        k = k + 1;
    }
    true
}

} // verus!
