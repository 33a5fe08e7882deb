//! Work intervals: contiguous stretches of attention on one task.
//!
//! Events are taken in time order. Consecutive events that name the same
//! resource (by the identity chain) and follow within the segment gap join
//! one interval; a different resource or a longer gap starts a new one.
//! An interval accumulates counts, dwell, input counters and every URL,
//! title, document and application it touched.

use vstd::prelude::*;
use crate::chars::{after_last, after_last_char, lines_of, piece_views, text_lines};
use crate::ledger::event::{opt_chars, ObservedEvent};
use crate::ledger::identity::{key_of, same_work_of, IdentityChain, KeyModel, TaskKey};
use crate::ledger::pages::opt_text;
use crate::sorting::{lemma_insert_multiset, views};
use crate::sums::{lemma_sum_drop_last, lemma_sum_permutes, lemma_sum_take, seq_sum};
use crate::text::{blank, chars_of, holds_text, is_blank, is_blank_chars, push_new, push_unique, str_eq,
    string_of, to_owned_string};

verus! {

/// The gap (5 minutes) after which attention starts a new interval.
pub const SEGMENT_GAP_MS: u64 = 5 * 60 * 1000;

/// The age (5 minutes) after which an interval can no longer be extended.
pub const FINAL_AGE_MS: u64 = 5 * 60 * 1000;

/// The status of a work interval.
#[derive(Debug, Clone, Copy, PartialEq, Eq, Structural)]
pub enum IntervalStatus {
    /// Recent enough that new events might extend it.
    Provisional,
    /// The finalization window has passed; the interval is stable.
    Final,
}

impl IntervalStatus {
    /// The stored name of the status.
    pub fn as_str(&self) -> (r: &'static str)
        ensures
            r@ == match self {
                IntervalStatus::Provisional => "provisional"@,
                IntervalStatus::Final => "final"@,
            },
    {
        match self {
            IntervalStatus::Provisional => "provisional",
            IntervalStatus::Final => "final",
        }
    }
}

/// One work interval: a contiguous stretch of the same task.
#[derive(Debug, Clone, PartialEq)]
pub struct WorkInterval {
    pub id: i64,
    pub task_key: TaskKey,
    /// Start time (epoch ms).
    pub start_ms: u64,
    /// End time (epoch ms).
    pub end_ms: u64,
    /// How many observed events the interval holds.
    pub event_count: u32,
    /// Total dwell time (ms).
    pub total_dwell_ms: u64,
    /// How many events had typing (production evidence).
    pub typed_count: u32,
    /// Content-free input counters aggregated over the interval.
    pub keys: u64,
    pub clicks: u64,
    pub scrolls: u64,
    /// How many file saves were attributed to the interval afterwards.
    pub attached_saves: usize,
    pub status: IntervalStatus,
    /// Every URL touched, in first-seen order.
    pub urls: Vec<String>,
    /// Every non-blank window title seen, in first-seen order.
    pub titles: Vec<String>,
    /// Every document path touched, in first-seen order.
    pub document_paths: Vec<String>,
    /// Every application used, in first-seen order.
    pub app_names: Vec<String>,
}

/// The content of a [`WorkInterval`], its texts as characters.
pub struct IntervalModel {
    pub id: i64,
    pub task_key: KeyModel,
    pub start_ms: int,
    pub end_ms: int,
    pub event_count: int,
    pub total_dwell_ms: int,
    pub typed_count: int,
    pub keys: int,
    pub clicks: int,
    pub scrolls: int,
    pub attached_saves: int,
    pub status: IntervalStatus,
    pub urls: Seq<Seq<char>>,
    pub titles: Seq<Seq<char>>,
    pub document_paths: Seq<Seq<char>>,
    pub app_names: Seq<Seq<char>>,
}

impl View for WorkInterval {
    type V = IntervalModel;

    open spec fn view(&self) -> IntervalModel {
        IntervalModel {
            id: self.id,
            task_key: self.task_key@,
            start_ms: self.start_ms as int,
            end_ms: self.end_ms as int,
            event_count: self.event_count as int,
            total_dwell_ms: self.total_dwell_ms as int,
            typed_count: self.typed_count as int,
            keys: self.keys as int,
            clicks: self.clicks as int,
            scrolls: self.scrolls as int,
            attached_saves: self.attached_saves as int,
            status: self.status,
            urls: views(self.urls@),
            titles: views(self.titles@),
            document_paths: views(self.document_paths@),
            app_names: views(self.app_names@),
        }
    }
}

/// The views of a sequence of intervals.
pub open spec fn interval_views(v: Seq<WorkInterval>) -> Seq<IntervalModel> {
    v.map_values(|w: WorkInterval| w@)
}

/// The human-readable title of an interval: the file name of its
/// document, else its window title, else its host, else its application.
pub open spec fn interval_title(k: KeyModel) -> Seq<char> {
    match k.document_path {
        Some(d) => after_last(d, '/'),
        None => match k.window_title {
            Some(t) => t,
            None => match k.url_host {
                Some(h) => h,
                None => k.app_name,
            },
        },
    }
}

impl WorkInterval {
    /// A human-readable title for the interval.
    pub fn title(&self) -> (r: String)
        ensures
            r@ == interval_title(self.task_key@),
    {
        if let Some(doc) = &self.task_key.document_path {
            let v = chars_of(doc.as_str());
            return string_of(&after_last_char(&v, '/'));
        }
        if let Some(title) = &self.task_key.window_title {
            return to_owned_string(title.as_str());
        }
        if let Some(host) = &self.task_key.url_host {
            return to_owned_string(host.as_str());
        }
        to_owned_string(self.task_key.app_name.as_str())
    }

    /// Duration in whole seconds (zero when the end precedes the start).
    pub fn duration_secs(&self) -> (r: u64)
        ensures
            r == if self.end_ms >= self.start_ms {
                ((self.end_ms - self.start_ms) / 1000) as u64
            } else {
                0
            },
    {
        if self.end_ms >= self.start_ms {
            (self.end_ms - self.start_ms) / 1000
        } else {
            0
        }
    }

    /// Whether the person typed during the interval.
    pub fn has_production(&self) -> (r: bool)
        ensures
            r == (self.typed_count > 0),
    {
        self.typed_count > 0
    }
}

// ── Time order ─────────────────────────────────────────────────────────────

/// Where an event at time `t` goes into `s`: after the last event not later
/// than `t`.
pub open spec fn slot(s: Seq<ObservedEvent>, t: u64) -> nat
    decreases s.len(),
{
    if s.len() == 0 {
        0
    } else if s.last().timestamp_ms > t {
        slot(s.drop_last(), t)
    } else {
        s.len()
    }
}

/// The events in time order; events with equal timestamps keep the order
/// they arrived in.
pub open spec fn by_time(evs: Seq<ObservedEvent>) -> Seq<ObservedEvent>
    decreases evs.len(),
{
    if evs.len() == 0 {
        evs
    } else {
        let rest = by_time(evs.drop_last());
        rest.insert(slot(rest, evs.last().timestamp_ms) as int, evs.last())
    }
}

proof fn lemma_slot_bound(s: Seq<ObservedEvent>, t: u64)
    ensures
        slot(s, t) <= s.len(),
    decreases s.len(),
{
    if s.len() > 0 && s.last().timestamp_ms > t {
        lemma_slot_bound(s.drop_last(), t);
    }
}

/// Time order keeps every event: it is a permutation.
pub proof fn lemma_by_time_permutes(evs: Seq<ObservedEvent>)
    ensures
        by_time(evs).len() == evs.len(),
        by_time(evs).to_multiset() == evs.to_multiset(),
    decreases evs.len(),
{
    broadcast use vstd::seq_lib::group_to_multiset_ensures;

    if evs.len() > 0 {
        let rest = by_time(evs.drop_last());
        lemma_by_time_permutes(evs.drop_last());
        lemma_slot_bound(rest, evs.last().timestamp_ms);
        lemma_insert_multiset(rest, slot(rest, evs.last().timestamp_ms) as int, evs.last());
        assert(evs.drop_last().push(evs.last()) =~= evs);
    }
}

proof fn lemma_slot_split(s: Seq<ObservedEvent>, t: u64)
    requires
        forall|i: int, j: int| 0 <= i <= j < s.len() ==> s[i].timestamp_ms <= s[j].timestamp_ms,
    ensures
        forall|i: int| 0 <= i < slot(s, t) ==> s[i].timestamp_ms <= t,
        forall|i: int| slot(s, t) <= i < s.len() ==> s[i].timestamp_ms > t,
    decreases s.len(),
{
    if s.len() > 0 && s.last().timestamp_ms > t {
        lemma_slot_split(s.drop_last(), t);
        assert forall|i: int| slot(s, t) <= i < s.len() implies s[i].timestamp_ms > t by {
            if i < s.len() - 1 {
                assert(s[i] == s.drop_last()[i]);
            }
        }
        assert forall|i: int| 0 <= i < slot(s, t) implies s[i].timestamp_ms <= t by {
            assert(s[i] == s.drop_last()[i]);
        }
    }
}

/// Time order is ordered by timestamp.
pub proof fn lemma_by_time_sorted(evs: Seq<ObservedEvent>)
    ensures
        forall|i: int, j: int|
            0 <= i <= j < by_time(evs).len() ==> by_time(evs)[i].timestamp_ms
                <= by_time(evs)[j].timestamp_ms,
    decreases evs.len(),
{
    if evs.len() > 0 {
        let rest = by_time(evs.drop_last());
        let t = evs.last().timestamp_ms;
        lemma_by_time_sorted(evs.drop_last());
        lemma_slot_bound(rest, t);
        lemma_slot_split(rest, t);
        let k = slot(rest, t) as int;
        let s = by_time(evs);
        assert(s == rest.insert(k, evs.last()));
        assert forall|i: int, j: int| 0 <= i <= j < s.len() implies s[i].timestamp_ms
            <= s[j].timestamp_ms by {
            if i < k && j < k {
                assert(s[i] == rest[i] && s[j] == rest[j]);
            } else if i < k && j == k {
                assert(s[i] == rest[i]);
            } else if i < k {
                assert(s[i] == rest[i] && s[j] == rest[j - 1]);
            } else if i == k && j > k {
                assert(s[j] == rest[j - 1]);
            } else if i > k {
                assert(s[i] == rest[i - 1] && s[j] == rest[j - 1]);
            }
        }
    }
}

/// The positions of `events` in time order: `order@.map(events)` is
/// `by_time(events@)`.
pub(crate) fn time_order(events: &[ObservedEvent]) -> (order: Vec<usize>)
    ensures
        order@.len() == events@.len(),
        forall|k: int| 0 <= k < order@.len() ==> order@[k] < events@.len(),
        order@.map_values(|i: usize| events@[i as int]) == by_time(events@),
{
    let mut order: Vec<usize> = Vec::new();
    let mut n: usize = 0;
    while n < events.len()
        invariant
            n <= events@.len(),
            order@.len() == n,
            forall|k: int| 0 <= k < order@.len() ==> order@[k] < n,
            order@.map_values(|i: usize| events@[i as int]) == by_time(events@.take(n as int)),
        decreases events@.len() - n,
    {
        let ghost sorted = order@.map_values(|i: usize| events@[i as int]);
        let t = events[n].timestamp_ms;
        let mut j: usize = order.len();
        assert(sorted.take(j as int) =~= sorted);
        while j > 0 && events[order[j - 1]].timestamp_ms > t
            invariant
                j <= order@.len(),
                order@.len() == n,
                n < events@.len(),
                t == events@[n as int].timestamp_ms,
                forall|k: int| 0 <= k < order@.len() ==> order@[k] < n,
                sorted == order@.map_values(|i: usize| events@[i as int]),
                slot(sorted, t) == slot(sorted.take(j as int), t),
            decreases j,
        {
            assert(sorted.take(j as int).last() == sorted[j - 1]);
            assert(sorted.take(j as int).drop_last() =~= sorted.take(j - 1));
            j = j - 1;
        }
        proof {
            if j > 0 {
                assert(sorted.take(j as int).last() == sorted[j - 1]);
            }
            assert(slot(sorted, t) == j);
            let prefix = events@.take(n as int + 1);
            assert(prefix.drop_last() =~= events@.take(n as int));
            assert(prefix.last() == events@[n as int]);
        }
        order.insert(j, n);
        proof {
            assert(order@.map_values(|i: usize| events@[i as int]) =~= sorted.insert(
                j as int,
                events@[n as int],
            ));
        }
        n = n + 1;
    }
    assert(events@.take(events@.len() as int) =~= events@);
    order
}

// ── Interval formation ─────────────────────────────────────────────────────

/// The characters of each present text of `o`, as a list of at most one.
pub open spec fn one_or_none(o: Option<Seq<char>>) -> Seq<Seq<char>> {
    match o {
        Some(x) => seq![x],
        None => seq![],
    }
}

/// `v` with the text of `o` appended when present and new.
pub open spec fn push_opt(v: Seq<Seq<char>>, o: Option<Seq<char>>) -> Seq<Seq<char>> {
    match o {
        Some(x) => push_new(v, x),
        None => v,
    }
}

/// The window title of an event when it is not blank.
pub open spec fn shown_title(e: ObservedEvent) -> Option<Seq<char>> {
    if blank(e.window_title@) {
        None
    } else {
        Some(e.window_title@)
    }
}

/// The interval a single event opens.
pub open spec fn opened(e: ObservedEvent) -> IntervalModel {
    IntervalModel {
        id: 0,
        task_key: key_of(e),
        start_ms: e.timestamp_ms as int,
        end_ms: e.timestamp_ms as int,
        event_count: 1,
        total_dwell_ms: e.dwell_ms as int,
        typed_count: if e.typed {
            1
        } else {
            0
        },
        keys: e.keys as int,
        clicks: e.clicks as int,
        scrolls: e.scrolls as int,
        attached_saves: 0,
        status: IntervalStatus::Provisional,
        urls: one_or_none(opt_chars(e.url)),
        titles: one_or_none(shown_title(e)),
        document_paths: one_or_none(opt_chars(e.document_path)),
        app_names: seq![e.app_name@],
    }
}

/// `iv` extended by one more event.
pub open spec fn extended(iv: IntervalModel, e: ObservedEvent) -> IntervalModel {
    IntervalModel {
        end_ms: e.timestamp_ms as int,
        event_count: iv.event_count + 1,
        total_dwell_ms: iv.total_dwell_ms + e.dwell_ms,
        typed_count: iv.typed_count + if e.typed {
            1int
        } else {
            0int
        },
        keys: iv.keys + e.keys,
        clicks: iv.clicks + e.clicks,
        scrolls: iv.scrolls + e.scrolls,
        urls: push_opt(iv.urls, opt_chars(e.url)),
        titles: push_opt(iv.titles, shown_title(e)),
        document_paths: push_opt(iv.document_paths, opt_chars(e.document_path)),
        app_names: push_new(iv.app_names, e.app_name@),
        ..iv
    }
}

/// Whether `e` continues `iv`: the same resource, within the segment gap.
pub open spec fn continues(iv: IntervalModel, e: ObservedEvent) -> bool {
    &&& same_work_of(iv.task_key, key_of(e))
    &&& e.timestamp_ms - iv.end_ms <= SEGMENT_GAP_MS
}

/// The intervals formed by events taken in the given order.
pub open spec fn formed(evs: Seq<ObservedEvent>) -> Seq<IntervalModel>
    decreases evs.len(),
{
    if evs.len() == 0 {
        seq![]
    } else {
        let prev = formed(evs.drop_last());
        let e = evs.last();
        if prev.len() > 0 && continues(prev.last(), e) {
            prev.update(prev.len() - 1, extended(prev.last(), e))
        } else {
            prev.push(opened(e))
        }
    }
}

/// The status an interval has at `now_ms`: final once it ended more than
/// the finalization age ago.
pub open spec fn settled(iv: IntervalModel, now_ms: u64) -> IntervalModel {
    if now_ms - iv.end_ms > FINAL_AGE_MS {
        IntervalModel { status: IntervalStatus::Final, ..iv }
    } else {
        iv
    }
}

/// The intervals of `events` as they stand at `now_ms`.
pub open spec fn intervals_at(events: Seq<ObservedEvent>, now_ms: u64) -> Seq<IntervalModel> {
    formed(by_time(events)).map_values(|iv: IntervalModel| settled(iv, now_ms))
}

/// Dwell, keys, clicks and scrolls of an event.
pub open spec fn dwell_of() -> spec_fn(ObservedEvent) -> int {
    |e: ObservedEvent| e.dwell_ms as int
}

pub open spec fn keys_of() -> spec_fn(ObservedEvent) -> int {
    |e: ObservedEvent| e.keys as int
}

pub open spec fn clicks_of() -> spec_fn(ObservedEvent) -> int {
    |e: ObservedEvent| e.clicks as int
}

pub open spec fn scrolls_of() -> spec_fn(ObservedEvent) -> int {
    |e: ObservedEvent| e.scrolls as int
}

/// The inputs interval formation accepts: counters whose totals fit their
/// fields.
pub open spec fn formable(events: Seq<ObservedEvent>) -> bool {
    &&& events.len() <= u32::MAX
    &&& seq_sum(events, dwell_of()) <= u64::MAX
    &&& seq_sum(events, keys_of()) <= u64::MAX
    &&& seq_sum(events, clicks_of()) <= u64::MAX
    &&& seq_sum(events, scrolls_of()) <= u64::MAX
}

/// The bounds every formed interval keeps: each total is at most the
/// total over all the events.
proof fn lemma_formed_bounds(evs: Seq<ObservedEvent>)
    ensures
        forall|k: int|
            0 <= k < formed(evs).len() ==> {
                let iv = #[trigger] formed(evs)[k];
                &&& 1 <= iv.event_count <= evs.len()
                &&& 0 <= iv.typed_count <= evs.len()
                &&& 0 <= iv.total_dwell_ms <= seq_sum(evs, dwell_of())
                &&& 0 <= iv.keys <= seq_sum(evs, keys_of())
                &&& 0 <= iv.clicks <= seq_sum(evs, clicks_of())
                &&& 0 <= iv.scrolls <= seq_sum(evs, scrolls_of())
            },
    decreases evs.len(),
{
    if evs.len() > 0 {
        let prev = evs.drop_last();
        lemma_formed_bounds(prev);
        lemma_sum_drop_last(evs, dwell_of());
        lemma_sum_drop_last(evs, keys_of());
        lemma_sum_drop_last(evs, clicks_of());
        lemma_sum_drop_last(evs, scrolls_of());
        lemma_sum_drop_last(prev, dwell_of());
        lemma_sum_drop_last(prev, keys_of());
        lemma_sum_drop_last(prev, clicks_of());
        lemma_sum_drop_last(prev, scrolls_of());
    }
}

fn texts_of_opt(o: &Option<String>) -> (r: Vec<String>)
    ensures
        views(r@) == one_or_none(opt_text(*o)),
{
    let mut r: Vec<String> = Vec::new();
    if let Some(x) = o {
        r.push(to_owned_string(x.as_str()));
        assert(views(r@) =~= seq![x@]);
    } else {
        assert(views(r@) =~= Seq::<Seq<char>>::empty());
    }
    r
}

fn push_unique_opt(v: &mut Vec<String>, o: &Option<String>)
    ensures
        views(final(v)@) == push_opt(views(old(v)@), opt_text(*o)),
{
    if let Some(x) = o {
        push_unique(v, x.as_str());
    }
}

fn open_interval(event: &ObservedEvent, key: TaskKey) -> (r: WorkInterval)
    requires
        key@ == key_of(*event),
    ensures
        r@ == opened(*event),
{
    let title = if is_blank(event.window_title.as_str()) {
        None
    } else {
        Some(to_owned_string(event.window_title.as_str()))
    };
    let mut app_names: Vec<String> = Vec::new();
    app_names.push(to_owned_string(event.app_name.as_str()));
    assert(views(app_names@) =~= seq![event.app_name@]);
    let r = WorkInterval {
        id: 0,
        task_key: key,
        start_ms: event.timestamp_ms,
        end_ms: event.timestamp_ms,
        event_count: 1,
        total_dwell_ms: event.dwell_ms,
        typed_count: if event.typed {
            1
        } else {
            0
        },
        keys: event.keys,
        clicks: event.clicks,
        scrolls: event.scrolls,
        attached_saves: 0,
        status: IntervalStatus::Provisional,
        urls: texts_of_opt(&event.url),
        titles: texts_of_opt(&title),
        document_paths: texts_of_opt(&event.document_path),
        app_names,
    };
    r
}

fn extend_interval(interval: &mut WorkInterval, event: &ObservedEvent)
    requires
        old(interval).event_count + 1 <= u32::MAX,
        event.typed ==> old(interval).typed_count + 1 <= u32::MAX,
        old(interval).total_dwell_ms + event.dwell_ms <= u64::MAX,
        old(interval).keys + event.keys <= u64::MAX,
        old(interval).clicks + event.clicks <= u64::MAX,
        old(interval).scrolls + event.scrolls <= u64::MAX,
    ensures
        final(interval)@ == extended(old(interval)@, *event),
{
    interval.end_ms = event.timestamp_ms;
    interval.event_count = interval.event_count + 1;
    interval.total_dwell_ms = interval.total_dwell_ms + event.dwell_ms;
    interval.keys = interval.keys + event.keys;
    interval.clicks = interval.clicks + event.clicks;
    interval.scrolls = interval.scrolls + event.scrolls;
    if event.typed {
        interval.typed_count = interval.typed_count + 1;
    }
    push_unique_opt(&mut interval.urls, &event.url);
    if !is_blank(event.window_title.as_str()) {
        push_unique(&mut interval.titles, event.window_title.as_str());
    }
    push_unique_opt(&mut interval.document_paths, &event.document_path);
    push_unique(&mut interval.app_names, event.app_name.as_str());
}

fn settle(interval: &mut WorkInterval, now_ms: u64)
    ensures
        final(interval)@ == settled(old(interval)@, now_ms),
{
    if now_ms > interval.end_ms && now_ms - interval.end_ms > FINAL_AGE_MS {
        interval.status = IntervalStatus::Final;
    }
}

/// Groups events into intervals as they stand at `now_ms`: events in time
/// order, consecutive events on the same resource within the segment gap
/// joined, and every interval older than the finalization age final.
pub fn compute_intervals_at(events: &[ObservedEvent], now_ms: u64) -> (r: Vec<WorkInterval>)
    requires
        formable(events@),
    ensures
        interval_views(r@) == intervals_at(events@, now_ms),
{
    let order = time_order(events);
    let ghost sorted = by_time(events@);
    proof {
        lemma_by_time_permutes(events@);
        lemma_sum_permutes(sorted, events@, dwell_of());
        lemma_sum_permutes(sorted, events@, keys_of());
        lemma_sum_permutes(sorted, events@, clicks_of());
        lemma_sum_permutes(sorted, events@, scrolls_of());
    }
    let mut out: Vec<WorkInterval> = Vec::new();
    let mut k: usize = 0;
    while k < order.len()
        invariant
            formable(events@),
            order@.len() == events@.len(),
            forall|j: int| 0 <= j < order@.len() ==> order@[j] < events@.len(),
            order@.map_values(|i: usize| events@[i as int]) == sorted,
            sorted.len() == events@.len(),
            seq_sum(sorted, dwell_of()) <= u64::MAX,
            seq_sum(sorted, keys_of()) <= u64::MAX,
            seq_sum(sorted, clicks_of()) <= u64::MAX,
            seq_sum(sorted, scrolls_of()) <= u64::MAX,
            k <= order@.len(),
            interval_views(out@) == formed(sorted.take(k as int)),
        decreases order@.len() - k,
    {
        let event = &events[order[k]];
        let ghost prefix = sorted.take(k as int + 1);
        proof {
            assert(*event == sorted[k as int]);
            assert(prefix.drop_last() =~= sorted.take(k as int));
            assert(prefix.last() == *event);
            lemma_formed_bounds(prefix);
            assert(sorted.take(k as int + 1) + sorted.skip(k as int + 1) =~= sorted);
        }
        let key = IdentityChain::resolve(event);
        let n = out.len();
        let joins = if n > 0 {
            let last = &out[n - 1];
            let gap = if event.timestamp_ms >= last.end_ms {
                event.timestamp_ms - last.end_ms
            } else {
                0
            };
            IdentityChain::same_work(&last.task_key, &key) && gap <= SEGMENT_GAP_MS
        } else {
            false
        };
        proof {
            if n > 0 {
                assert(interval_views(out@)[n - 1] == out@[n - 1]@);
            }
        }
        if joins {
            let mut last = out.pop().unwrap();
            proof {
                let f = formed(prefix);
                assert(f[n - 1] == extended(last@, *event));
                assert(seq_sum(prefix, dwell_of()) <= seq_sum(sorted, dwell_of())) by {
                    lemma_sum_take(sorted, k as int + 1, dwell_of());
                }
                assert(seq_sum(prefix, keys_of()) <= seq_sum(sorted, keys_of())) by {
                    lemma_sum_take(sorted, k as int + 1, keys_of());
                }
                assert(seq_sum(prefix, clicks_of()) <= seq_sum(sorted, clicks_of())) by {
                    lemma_sum_take(sorted, k as int + 1, clicks_of());
                }
                assert(seq_sum(prefix, scrolls_of()) <= seq_sum(sorted, scrolls_of())) by {
                    lemma_sum_take(sorted, k as int + 1, scrolls_of());
                }
            }
            extend_interval(&mut last, event);
            let ghost before = out@;
            out.push(last);
            proof {
                assert(interval_views(out@) =~= interval_views(before).push(last@));
                assert(interval_views(out@) =~= formed(prefix));
            }
        } else {
            let iv = open_interval(event, key);
            let ghost before = out@;
            out.push(iv);
            proof {
                assert(interval_views(out@) =~= interval_views(before).push(iv@));
                assert(interval_views(out@) =~= formed(prefix));
            }
        }
        k = k + 1;
    }
    assert(sorted.take(sorted.len() as int) =~= sorted);
    let ghost grouped = interval_views(out@);
    let mut i: usize = 0;
    while i < out.len()
        invariant
            i <= out@.len(),
            out@.len() == grouped.len(),
            forall|j: int| 0 <= j < i ==> out@[j]@ == settled(grouped[j], now_ms),
            forall|j: int| i <= j < out@.len() ==> out@[j]@ == grouped[j],
        decreases out@.len() - i,
    {
        let mut iv = out.remove(i);
        settle(&mut iv, now_ms);
        out.insert(i, iv);
        i = i + 1;
    }
    assert(interval_views(out@) =~= grouped.map_values(|iv: IntervalModel| settled(iv, now_ms)));
    out
}

/// The system clock as milliseconds since the Unix epoch
/// (`SystemTime::now` measured from `UNIX_EPOCH`; zero for a clock set
/// before the epoch). It depends on the time, so nothing is stated of it.
#[verifier::external_body]
fn clock_epoch_ms() -> (r: u64) {
    match std::time::SystemTime::now().duration_since(std::time::UNIX_EPOCH) {
        Ok(d) => d.as_millis() as u64,
        Err(_) => 0,
    }
}

/// Groups events into intervals as they stand now (see
/// [`compute_intervals_at`]); which intervals are final depends on the
/// clock reading.
pub fn compute_intervals(events: &[ObservedEvent]) -> (r: Vec<WorkInterval>)
    requires
        formable(events@),
    ensures
        exists|now_ms: u64| interval_views(r@) == intervals_at(events@, now_ms),
{
    let now_ms = clock_epoch_ms();
    compute_intervals_at(events, now_ms)
}

/// Whether interval formation accepts the events: at most `u32::MAX` of
/// them, and totals that fit.
pub fn events_formable(events: &[ObservedEvent]) -> (r: bool)
    ensures
        r == formable(events@),
{
    if events.len() > 4294967295 {
        return false;
    }
    let mut dwell: u64 = 0;
    let mut keys: u64 = 0;
    let mut clicks: u64 = 0;
    let mut scrolls: u64 = 0;
    let mut i: usize = 0;
    while i < events.len()
        invariant
            i <= events@.len(),
            dwell == seq_sum(events@.take(i as int), dwell_of()),
            keys == seq_sum(events@.take(i as int), keys_of()),
            clicks == seq_sum(events@.take(i as int), clicks_of()),
            scrolls == seq_sum(events@.take(i as int), scrolls_of()),
        decreases events@.len() - i,
    {
        let e = &events[i];
        proof {
            assert(events@.take(i + 1).drop_last() =~= events@.take(i as int));
            assert(events@.take(i + 1).last() == *e);
            lemma_sum_take(events@, i + 1, dwell_of());
            lemma_sum_take(events@, i + 1, keys_of());
            lemma_sum_take(events@, i + 1, clicks_of());
            lemma_sum_take(events@, i + 1, scrolls_of());
        }
        if dwell > u64::MAX - e.dwell_ms || keys > u64::MAX - e.keys || clicks > u64::MAX - e.clicks
            || scrolls > u64::MAX - e.scrolls {
            return false;
        }
        dwell = dwell + e.dwell_ms;
        keys = keys + e.keys;
        clicks = clicks + e.clicks;
        scrolls = scrolls + e.scrolls;
        i = i + 1;
    }
    assert(events@.take(events@.len() as int) =~= events@);
    true
}

// ── Stored rows ────────────────────────────────────────────────────────────

/// One interval row as the ledger stores it: lists are newline-joined
/// texts, counters signed integers, confidence in hundredths.
pub struct IntervalRecord {
    pub id: i64,
    pub document_path: Option<String>,
    pub page: Option<String>,
    pub window_title: Option<String>,
    pub url_host: Option<String>,
    pub app_name: String,
    pub confidence: u32,
    pub start_ms: i64,
    pub end_ms: i64,
    pub event_count: i64,
    pub total_dwell_ms: i64,
    pub typed_count: i64,
    pub status: String,
    pub urls_text: String,
    pub titles_text: String,
    pub keys: i64,
    pub clicks: i64,
    pub scrolls: i64,
    pub production_docs: String,
}

/// Whether a line holds more than white space.
pub open spec fn is_content() -> spec_fn(Seq<char>) -> bool {
    |l: Seq<char>| !blank(l)
}

/// The non-blank lines of a text.
pub open spec fn nonblank_lines(s: Seq<char>) -> Seq<Seq<char>> {
    text_lines(s).filter(is_content())
}

/// A stored counter read back: negative values count as zero.
pub open spec fn counter(v: i64) -> int {
    if v > 0 {
        v as int
    } else {
        0
    }
}

/// The documents of a stored interval: the attributed saves, with the
/// key's own document first when it is present, not blank and not among
/// them.
pub open spec fn stored_documents(doc: Option<Seq<char>>, saves: Seq<Seq<char>>) -> Seq<Seq<char>> {
    match doc {
        Some(d) => if !blank(d) && !saves.contains(d) {
            seq![d] + saves
        } else {
            saves
        },
        None => saves,
    }
}

/// The interval a stored row holds.
pub open spec fn record_interval(row: IntervalRecord) -> IntervalModel {
    IntervalModel {
        id: row.id,
        task_key: KeyModel {
            document_path: opt_text(row.document_path),
            page: opt_text(row.page),
            window_title: opt_text(row.window_title),
            url_host: opt_text(row.url_host),
            app_name: row.app_name@,
            confidence: row.confidence,
        },
        start_ms: (row.start_ms as u64) as int,
        end_ms: (row.end_ms as u64) as int,
        event_count: (row.event_count as u32) as int,
        total_dwell_ms: (row.total_dwell_ms as u64) as int,
        typed_count: (row.typed_count as u32) as int,
        keys: counter(row.keys),
        clicks: counter(row.clicks),
        scrolls: counter(row.scrolls),
        attached_saves: nonblank_lines(row.production_docs@).len() as int,
        status: if row.status@ == "final"@ {
            IntervalStatus::Final
        } else {
            IntervalStatus::Provisional
        },
        urls: nonblank_lines(row.urls_text@),
        titles: nonblank_lines(row.titles_text@),
        document_paths: stored_documents(
            opt_text(row.document_path),
            nonblank_lines(row.production_docs@),
        ),
        app_names: seq![],
    }
}

/// The non-blank lines of `s`, in order.
pub fn nonblank_lines_of(s: &str) -> (r: Vec<String>)
    ensures
        views(r@) == nonblank_lines(s@),
{
    let v = chars_of(s);
    let lines = lines_of(&v);
    let ghost lv = piece_views(lines@);
    let mut out: Vec<String> = Vec::new();
    let mut i: usize = 0;
    while i < lines.len()
        invariant
            i <= lines@.len(),
            lv == piece_views(lines@),
            lv == text_lines(s@),
            views(out@) == lv.take(i as int).filter(is_content()),
        decreases lines@.len() - i,
    {
        assert(lv.take(i as int + 1).drop_last() =~= lv.take(i as int));
        assert(lv[i as int] == lines@[i as int]@);
        assert(lv.take(i as int + 1) =~= lv.take(i as int).push(lv[i as int]));
        proof {
            lv.take(i as int).lemma_filter_push(lv[i as int], is_content());
        }
        if !is_blank_chars(&lines[i]) {
            let ghost before = out@;
            out.push(string_of(&lines[i]));
            assert(views(out@) =~= views(before).push(lv[i as int]));
            assert(is_content()(lv[i as int]));
            assert(lv.take(i as int + 1).filter(is_content()) == lv.take(i as int).filter(
                is_content(),
            ).push(lv[i as int]));
        } else {
            assert(!is_content()(lv[i as int]));
            assert(lv.take(i as int + 1).filter(is_content()) == lv.take(i as int).filter(
                is_content(),
            ));
        }
        i = i + 1;
    }
    assert(lv.take(lines@.len() as int) =~= lv);
    out
}

fn counter_of(v: i64) -> (r: u64)
    ensures
        r == counter(v),
{
    if v > 0 {
        v as u64
    } else {
        0
    }
}

fn copy_opt(o: &Option<String>) -> (r: Option<String>)
    ensures
        opt_text(r) == opt_text(*o),
{
    match o {
        Some(x) => Some(to_owned_string(x.as_str())),
        None => None,
    }
}

/// Reads a stored row back into an interval.
pub fn interval_from_record(row: &IntervalRecord) -> (r: WorkInterval)
    ensures
        r@ == record_interval(*row),
{
    let urls = nonblank_lines_of(row.urls_text.as_str());
    let titles = nonblank_lines_of(row.titles_text.as_str());
    let saves = nonblank_lines_of(row.production_docs.as_str());
    let attached_saves = saves.len();
    let mut document_paths: Vec<String> = Vec::new();
    let ghost sv = views(saves@);
    if let Some(d) = &row.document_path {
        if !is_blank(d.as_str()) && !holds_text(&saves, d.as_str()) {
            document_paths.push(to_owned_string(d.as_str()));
        }
    }
    let ghost head = views(document_paths@);
    let mut i: usize = 0;
    while i < saves.len()
        invariant
            i <= saves@.len(),
            sv == views(saves@),
            views(document_paths@) == head + sv.take(i as int),
        decreases saves@.len() - i,
    {
        let ghost before = document_paths@;
        document_paths.push(to_owned_string(saves[i].as_str()));
        assert(views(document_paths@) =~= views(before).push(sv[i as int]));
        assert(head + sv.take(i as int + 1) =~= (head + sv.take(i as int)).push(sv[i as int]));
        i = i + 1;
    }
    assert(sv.take(saves@.len() as int) =~= sv);
    proof {
        match opt_text(row.document_path) {
            Some(d) => {
                if !blank(d) && !sv.contains(d) {
                    assert(head =~= seq![d]);
                } else {
                    assert(head =~= Seq::<Seq<char>>::empty());
                }
            },
            None => {
                assert(head =~= Seq::<Seq<char>>::empty());
            },
        }
    }
    let app_names: Vec<String> = Vec::new();
    assert(views(app_names@) =~= Seq::<Seq<char>>::empty());
    WorkInterval {
        id: row.id,
        task_key: TaskKey {
            document_path: copy_opt(&row.document_path),
            page: copy_opt(&row.page),
            window_title: copy_opt(&row.window_title),
            url_host: copy_opt(&row.url_host),
            app_name: to_owned_string(row.app_name.as_str()),
            confidence: row.confidence,
        },
        start_ms: row.start_ms as u64,
        end_ms: row.end_ms as u64,
        event_count: row.event_count as u32,
        total_dwell_ms: row.total_dwell_ms as u64,
        typed_count: row.typed_count as u32,
        keys: counter_of(row.keys),
        clicks: counter_of(row.clicks),
        scrolls: counter_of(row.scrolls),
        attached_saves,
        status: if str_eq(row.status.as_str(), "final") {
            IntervalStatus::Final
        } else {
            IntervalStatus::Provisional
        },
        urls,
        titles,
        document_paths,
        app_names,
    }
}


proof fn lemma_formed_totals(evs: Seq<ObservedEvent>)
    ensures
        seq_sum(formed(evs), |iv: IntervalModel| iv.total_dwell_ms) == seq_sum(evs, dwell_of()),
        seq_sum(formed(evs), |iv: IntervalModel| iv.keys) == seq_sum(evs, keys_of()),
        seq_sum(formed(evs), |iv: IntervalModel| iv.clicks) == seq_sum(evs, clicks_of()),
        seq_sum(formed(evs), |iv: IntervalModel| iv.scrolls) == seq_sum(evs, scrolls_of()),
        seq_sum(formed(evs), |iv: IntervalModel| iv.event_count) == evs.len(),
    decreases evs.len(),
{
    if evs.len() > 0 {
        let p = evs.drop_last();
        lemma_formed_totals(p);
        let prev = formed(p);
        let e = evs.last();
        if prev.len() > 0 && continues(prev.last(), e) {
            let n = prev.len() - 1;
            let q = prev.update(n, extended(prev.last(), e));
            assert(q.drop_last() =~= prev.drop_last());
            assert(q.last() == extended(prev.last(), e));
            assert(formed(evs) == q);
        } else {
            let q = prev.push(opened(e));
            assert(q.drop_last() =~= prev);
            assert(formed(evs) == q);
        }
    }
}

proof fn lemma_settled_sum(s: Seq<IntervalModel>, now_ms: u64, f: spec_fn(IntervalModel) -> int)
    requires
        forall|iv: IntervalModel| #[trigger] f(settled(iv, now_ms)) == f(iv),
    ensures
        seq_sum(s.map_values(|iv: IntervalModel| settled(iv, now_ms)), f) == seq_sum(s, f),
    decreases s.len(),
{
    if s.len() > 0 {
        lemma_settled_sum(s.drop_last(), now_ms, f);
        let m = s.map_values(|iv: IntervalModel| settled(iv, now_ms));
        assert(m.drop_last() =~= s.drop_last().map_values(|iv: IntervalModel| settled(iv, now_ms)));
        assert(m.last() == settled(s.last(), now_ms));
    }
}

/// Interval formation loses and invents nothing: over all intervals the
/// dwell, keys, clicks and scrolls sum to those of all events, and every
/// event is counted in exactly one interval.
pub proof fn lemma_interval_totals(events: Seq<ObservedEvent>, now_ms: u64)
    ensures
        seq_sum(intervals_at(events, now_ms), |iv: IntervalModel| iv.total_dwell_ms) == seq_sum(events, dwell_of()),
        seq_sum(intervals_at(events, now_ms), |iv: IntervalModel| iv.keys) == seq_sum(events, keys_of()),
        seq_sum(intervals_at(events, now_ms), |iv: IntervalModel| iv.clicks) == seq_sum(events, clicks_of()),
        seq_sum(intervals_at(events, now_ms), |iv: IntervalModel| iv.scrolls) == seq_sum(events, scrolls_of()),
        seq_sum(intervals_at(events, now_ms), |iv: IntervalModel| iv.event_count) == events.len(),
{
    let b = by_time(events);
    lemma_by_time_permutes(events);
    lemma_formed_totals(b);
    lemma_sum_permutes(b, events, dwell_of());
    lemma_sum_permutes(b, events, keys_of());
    lemma_sum_permutes(b, events, clicks_of());
    lemma_sum_permutes(b, events, scrolls_of());
    lemma_settled_sum(formed(b), now_ms, |iv: IntervalModel| iv.total_dwell_ms);
    lemma_settled_sum(formed(b), now_ms, |iv: IntervalModel| iv.keys);
    lemma_settled_sum(formed(b), now_ms, |iv: IntervalModel| iv.clicks);
    lemma_settled_sum(formed(b), now_ms, |iv: IntervalModel| iv.scrolls);
    lemma_settled_sum(formed(b), now_ms, |iv: IntervalModel| iv.event_count);
}

} // verus!

