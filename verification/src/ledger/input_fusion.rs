//! Fusing input evidence onto the attention surface it happened on.
//!
//! Inputs are taken in time order. An input bucket landing within the
//! window after the latest timeline entry at or before it carries that
//! entry's identity (app, title, URL) and becomes a production event on
//! it; a bucket with no recent entry keeps its own identity. Either way
//! the result joins the timeline, so continuous typing keeps re-anchoring
//! to the same surface.

use vstd::prelude::*;
use crate::ledger::event::{opt_chars, EventModel, ObservedEvent};
use crate::ledger::intervals::{by_time, lemma_by_time_permutes, lemma_by_time_sorted, time_order};
use crate::ledger::event::ProductionSave;
use crate::ledger::observation_log::{event_views, frames_from, log_model, log_readable, save_views, text_pairs,
    try_read_log};
use crate::text::to_owned_string;

verus! {

/// How long (90 seconds) after a surface an input bucket still belongs to
/// it.
pub const INPUT_SURFACE_WINDOW_MS: u64 = 90_000;

/// The dwell an attributed input bucket carries (10 seconds).
pub const INPUT_BUCKET_DWELL_MS: u64 = 10_000;

/// The latest of the first `n` timeline entries at or before `t`: the
/// greatest time, the later entry among equals; `-1` for none.
pub open spec fn latest_before(tl: Seq<EventModel>, t: u64, n: int) -> int
    decreases n,
{
    if n <= 0 {
        -1
    } else {
        let b = latest_before(tl, t, n - 1);
        if tl[n - 1].timestamp_ms <= t && (b < 0 || tl[b].timestamp_ms <= tl[n - 1].timestamp_ms) {
            n - 1
        } else {
            b
        }
    }
}

/// An input bucket re-identified as production on surface `s`.
pub open spec fn on_surface(input: EventModel, s: EventModel) -> EventModel {
    EventModel {
        timestamp_ms: input.timestamp_ms,
        app_name: s.app_name,
        window_title: s.window_title,
        url: s.url,
        document_path: None,
        typed: input.typed,
        dwell_ms: INPUT_BUCKET_DWELL_MS,
        keys: input.keys,
        clicks: input.clicks,
        scrolls: input.scrolls,
    }
}

/// What one input bucket becomes against a timeline.
pub open spec fn fused_input(tl: Seq<EventModel>, input: EventModel) -> EventModel {
    let k = latest_before(tl, input.timestamp_ms, tl.len() as int);
    if k >= 0 && input.timestamp_ms - tl[k].timestamp_ms <= INPUT_SURFACE_WINDOW_MS {
        on_surface(input, tl[k])
    } else {
        input
    }
}

/// Where an event at `t` joins a timeline: right after the latest entry at
/// or before `t`, at the front when there is none.
pub open spec fn join_point(tl: Seq<EventModel>, t: u64) -> int {
    latest_before(tl, t, tl.len() as int) + 1
}

/// The timeline after fusing the inputs, in order, onto it: each fused
/// bucket joins the timeline at its time.
pub open spec fn fused(tl: Seq<EventModel>, inputs: Seq<EventModel>) -> Seq<EventModel>
    decreases inputs.len(),
{
    if inputs.len() == 0 {
        tl
    } else {
        let prev = fused(tl, inputs.drop_last());
        prev.insert(join_point(prev, inputs.last().timestamp_ms), fused_input(prev, inputs.last()))
    }
}

/// A timeline in time order.
pub open spec fn time_sorted(tl: Seq<EventModel>) -> bool {
    forall|i: int, j: int| 0 <= i <= j < tl.len() ==> tl[i].timestamp_ms <= tl[j].timestamp_ms
}

proof fn lemma_latest_sorted(tl: Seq<EventModel>, t: u64, n: int)
    requires
        0 <= n <= tl.len(),
        time_sorted(tl),
    ensures
        forall|j: int| latest_before(tl, t, n) < j < n ==> tl[j].timestamp_ms > t,
    decreases n,
{
    if n > 0 {
        lemma_latest_sorted(tl, t, n - 1);
        lemma_latest_range(tl, t, n - 1);
    }
}

/// Fusing keeps a timeline in time order.
pub proof fn lemma_fused_sorted(tl: Seq<EventModel>, inputs: Seq<EventModel>)
    requires
        time_sorted(tl),
    ensures
        time_sorted(fused(tl, inputs)),
        fused(tl, inputs).len() == tl.len() + inputs.len(),
    decreases inputs.len(),
{
    if inputs.len() > 0 {
        let prev = fused(tl, inputs.drop_last());
        lemma_fused_sorted(tl, inputs.drop_last());
        let t = inputs.last().timestamp_ms;
        lemma_latest_range(prev, t, prev.len() as int);
        lemma_latest_sorted(prev, t, prev.len() as int);
        let k = join_point(prev, t);
        let e = fused_input(prev, inputs.last());
        assert(e.timestamp_ms == t);
        let r = prev.insert(k, e);
        assert forall|i: int, j: int| 0 <= i <= j < r.len() implies r[i].timestamp_ms <= r[j].timestamp_ms by {
            if i < k && j < k {
                assert(r[i] == prev[i] && r[j] == prev[j]);
            } else if i < k && j == k {
                assert(r[i] == prev[i]);
                assert(prev[i].timestamp_ms <= prev[k - 1].timestamp_ms);
            } else if i < k {
                assert(r[i] == prev[i] && r[j] == prev[j - 1]);
            } else if i == k && j > k {
                assert(r[j] == prev[j - 1]);
            } else if i > k {
                assert(r[i] == prev[i - 1] && r[j] == prev[j - 1]);
            }
        }
    }
}

proof fn lemma_latest_range(tl: Seq<EventModel>, t: u64, n: int)
    requires
        0 <= n <= tl.len(),
    ensures
        -1 <= latest_before(tl, t, n) < n,
        latest_before(tl, t, n) >= 0 ==> tl[latest_before(tl, t, n)].timestamp_ms <= t,
    decreases n,
{
    if n > 0 {
        lemma_latest_range(tl, t, n - 1);
    }
}

fn copy_opt(o: &Option<String>) -> (r: Option<String>)
    ensures
        opt_chars(r) == opt_chars(*o),
{
    match o {
        Some(x) => Some(to_owned_string(x.as_str())),
        None => None,
    }
}

fn copy_event(e: &ObservedEvent) -> (r: ObservedEvent)
    ensures
        r@ == e@,
{
    ObservedEvent {
        timestamp_ms: e.timestamp_ms,
        app_name: to_owned_string(e.app_name.as_str()),
        window_title: to_owned_string(e.window_title.as_str()),
        url: copy_opt(&e.url),
        document_path: copy_opt(&e.document_path),
        typed: e.typed,
        dwell_ms: e.dwell_ms,
        keys: e.keys,
        clicks: e.clicks,
        scrolls: e.scrolls,
    }
}

/// Copies of the events in time order.
fn sorted_copies(events: &[ObservedEvent]) -> (r: Vec<ObservedEvent>)
    ensures
        event_views(r@) == event_views(by_time(events@)),
{
    let order = time_order(events);
    let ghost sorted = by_time(events@);
    let mut out: Vec<ObservedEvent> = Vec::new();
    let mut k: usize = 0;
    while k < order.len()
        invariant
            k <= order@.len(),
            order@.len() == events@.len(),
            forall|j: int| 0 <= j < order@.len() ==> order@[j] < events@.len(),
            order@.map_values(|i: usize| events@[i as int]) == sorted,
            event_views(out@) == event_views(sorted.take(k as int)),
        decreases order@.len() - k,
    {
        let c = copy_event(&events[order[k]]);
        let ghost before = out@;
        out.push(c);
        proof {
            assert(sorted[k as int] == events@[order@[k as int] as int]);
            assert(event_views(out@) =~= event_views(before).push(c@));
            assert(sorted.take(k + 1) =~= sorted.take(k as int).push(sorted[k as int]));
            assert(event_views(sorted.take(k + 1)) =~= event_views(sorted.take(k as int)).push(
                sorted[k as int]@,
            ));
        }
        k = k + 1;
    }
    assert(sorted.take(order@.len() as int) =~= sorted);
    out
}

/// Fuses input buckets onto the attention surfaces they happened on:
/// surfaces and inputs each in time order, then each input in turn
/// re-identified by the latest timeline entry at or before it (when
/// within the window) and joined to the timeline at its time, so the
/// timeline stays sorted.
pub fn attribute_input_to_surfaces(surfaces: &[ObservedEvent], inputs: &[ObservedEvent]) -> (r: Vec<ObservedEvent>)
    ensures
        event_views(r@) == fused(event_views(by_time(surfaces@)), event_views(by_time(inputs@))),
        time_sorted(event_views(r@)),
        r@.len() == surfaces@.len() + inputs@.len(),
{
    let mut timeline = sorted_copies(surfaces);
    let ins = sorted_copies(inputs);
    let ghost tl0 = event_views(timeline@);
    let ghost iv = event_views(ins@);
    let mut i: usize = 0;
    while i < ins.len()
        invariant
            i <= ins@.len(),
            iv == event_views(ins@),
            event_views(timeline@) == fused(tl0, iv.take(i as int)),
        decreases ins@.len() - i,
    {
        let input = &ins[i];
        let ghost tv = event_views(timeline@);
        assert(iv[i as int] == input@);
        assert(iv.take(i + 1).drop_last() =~= iv.take(i as int));
        assert(iv.take(i + 1).last() == input@);
        // The latest entry at or before the bucket.
        let mut best: Option<usize> = None;
        let mut j: usize = 0;
        while j < timeline.len()
            invariant
                j <= timeline@.len(),
                tv == event_views(timeline@),
                match best {
                    Some(b) => b as int == latest_before(tv, input.timestamp_ms, j as int) && b < j,
                    None => latest_before(tv, input.timestamp_ms, j as int) == -1,
                },
            decreases timeline@.len() - j,
        {
            assert(tv[j as int] == timeline@[j as int]@);
            if timeline[j].timestamp_ms <= input.timestamp_ms {
                let later = match best {
                    Some(b) => {
                        assert(tv[b as int] == timeline@[b as int]@);
                        timeline[b].timestamp_ms <= timeline[j].timestamp_ms
                    },
                    None => true,
                };
                if later {
                    best = Some(j);
                }
            }
            j = j + 1;
        }
        proof {
            lemma_latest_range(tv, input.timestamp_ms, tv.len() as int);
        }
        let fused_event = match best {
            Some(b) if input.timestamp_ms - timeline[b].timestamp_ms <= INPUT_SURFACE_WINDOW_MS => {
                assert(tv[b as int] == timeline@[b as int]@);
                let s = &timeline[b];
                ObservedEvent {
                    timestamp_ms: input.timestamp_ms,
                    app_name: to_owned_string(s.app_name.as_str()),
                    window_title: to_owned_string(s.window_title.as_str()),
                    url: copy_opt(&s.url),
                    document_path: None,
                    typed: input.typed,
                    dwell_ms: INPUT_BUCKET_DWELL_MS,
                    keys: input.keys,
                    clicks: input.clicks,
                    scrolls: input.scrolls,
                }
            },
            _ => copy_event(input),
        };
        assert(fused_event@ == fused_input(tv, input@));
        let at: usize = match best {
            Some(b) => b + 1,
            None => 0,
        };
        let ghost before = timeline@;
        timeline.insert(at, fused_event);
        assert(event_views(timeline@) =~= event_views(before).insert(at as int, fused_event@));
        i = i + 1;
    }
    assert(iv.take(ins@.len() as int) =~= iv);
    proof {
        lemma_by_time_sorted(surfaces@);
        lemma_by_time_permutes(surfaces@);
        lemma_by_time_permutes(inputs@);
        assert(time_sorted(tl0));
        lemma_fused_sorted(tl0, iv);
    }
    timeline
}

/// Everything an observation log holds, ready for the ledger: the
/// attention events with input fused onto them, the saves, and the
/// declared same-work pairs; `None` exactly when the log cannot be read
/// through.
pub fn read_observation_data(data: &[u8]) -> (r: Option<(Vec<ObservedEvent>, Vec<ProductionSave>, Vec<(String, String)>)>)
    ensures
        r is Some <==> log_readable(data@),
        r matches Some(t) ==> {
            let m = log_model(frames_from(data@, 0)->0);
            &&& exists|s: Seq<ObservedEvent>, i: Seq<ObservedEvent>|
                event_views(s) == m.surfaces && event_views(i) == m.inputs && event_views(t.0@)
                    == fused(event_views(by_time(s)), event_views(by_time(i)))
            &&& save_views(t.1@) == m.saves
            &&& text_pairs(t.2@) == m.declared
        },
{
    match try_read_log(data) {
        None => None,
        Some(parts) => {
            let events = attribute_input_to_surfaces(parts.surfaces.as_slice(), parts.inputs.as_slice());
            assert(event_views(parts.surfaces@) == parts@.surfaces);
            Some((events, parts.saves, parts.declared))
        },
    }
}


proof fn lemma_latest_max(tl: Seq<EventModel>, t: u64, n: int)
    requires
        0 <= n <= tl.len(),
    ensures
        latest_before(tl, t, n) >= 0 ==> forall|j: int|
            0 <= j < n && (#[trigger] tl[j]).timestamp_ms <= t ==> tl[j].timestamp_ms <= tl[latest_before(tl, t, n)].timestamp_ms,
        latest_before(tl, t, n) < 0 ==> forall|j: int| 0 <= j < n ==> (#[trigger] tl[j]).timestamp_ms > t,
    decreases n,
{
    if n > 0 {
        lemma_latest_max(tl, t, n - 1);
        lemma_latest_range(tl, t, n - 1);
    }
}

/// An input bucket takes the identity of the surface it happened on: when
/// the latest timeline entry at or before it lies within the window, the
/// bucket carries that entry's app name, window title and URL, with its own
/// time and counters and the bucket dwell; when no entry at or before it
/// lies within the window, it stays as it was.
pub proof fn lemma_attributed_identity(tl: Seq<EventModel>, input: EventModel)
    ensures
        ({
            let r = fused_input(tl, input);
            let t = input.timestamp_ms;
            ||| exists|k: int|
                #![trigger tl[k]]
                0 <= k < tl.len() && tl[k].timestamp_ms <= t && t - tl[k].timestamp_ms <= INPUT_SURFACE_WINDOW_MS
                    && (forall|j: int| 0 <= j < tl.len() && (#[trigger] tl[j]).timestamp_ms <= t ==> tl[j].timestamp_ms
                    <= tl[k].timestamp_ms) && r.app_name == tl[k].app_name && r.window_title == tl[k].window_title
                    && r.url == tl[k].url && r.document_path is None && r.timestamp_ms == t && r.typed == input.typed
                    && r.dwell_ms == INPUT_BUCKET_DWELL_MS && r.keys == input.keys && r.clicks == input.clicks
                    && r.scrolls == input.scrolls
            ||| r == input && forall|j: int|
                0 <= j < tl.len() && (#[trigger] tl[j]).timestamp_ms <= t ==> t - tl[j].timestamp_ms
                    > INPUT_SURFACE_WINDOW_MS
        }),
{
    let t = input.timestamp_ms;
    let n = tl.len() as int;
    lemma_latest_range(tl, t, n);
    lemma_latest_max(tl, t, n);
    let k = latest_before(tl, t, n);
    if k >= 0 && t - tl[k].timestamp_ms <= INPUT_SURFACE_WINDOW_MS {
        assert(tl[k] == tl[k]);
    }
}

} // verus!

