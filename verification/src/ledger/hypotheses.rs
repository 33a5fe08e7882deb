//! Work hypotheses: the records purpose-level grouping runs over and
//! produces, and the segmentation of attention into sittings.
//!
//! A sitting is attention bounded by a 30-minute gap: intervals taken in
//! order of their start, each joining the current sitting when it starts
//! no later than the gap after the sitting's end.

use vstd::prelude::*;
use crate::ledger::intervals::{interval_views, IntervalModel, WorkInterval};
use crate::sorting::lemma_insert_multiset;
use crate::sums::{lemma_sum_drop_last, lemma_sum_permutes, lemma_sum_take, nonneg_terms, seq_sum};
use crate::ledger::works::iv_dwell;

verus! {

/// Attention gap (30 minutes) that ends a sitting.
pub const SITTING_GAP_MS: u64 = 30 * 60 * 1000;

/// Sittings in which two established works must co-occur before a merge
/// is proposed.
pub const PROPOSAL_SITTINGS: usize = 2;

/// The person's declarations: ground truth over every derived rule.
#[derive(Debug, Clone, Default, PartialEq)]
pub struct Declarations {
    /// Subject pairs declared to be the same work.
    pub same_work: Vec<(String, String)>,
    /// Subjects with a declared work name.
    pub named: Vec<(String, String)>,
}

/// One sitting: a bounded run of attention, as positions in the interval
/// sequence it was built from.
#[derive(Debug, Clone)]
pub struct Sitting {
    pub start_ms: u64,
    pub end_ms: u64,
    pub total_dwell_ms: u64,
    pub interval_indices: Vec<usize>,
}

/// A merge proposal between two established works, as positions in the
/// works it was returned with.
#[derive(Debug, Clone, PartialEq, Eq)]
pub struct MergeProposal {
    pub work_a: usize,
    pub work_b: usize,
    pub shared_sittings: usize,
}

/// The content of a [`Sitting`].
pub struct SittingModel {
    pub start_ms: int,
    pub end_ms: int,
    pub total_dwell_ms: int,
    pub interval_indices: Seq<int>,
}

impl View for Sitting {
    type V = SittingModel;

    open spec fn view(&self) -> SittingModel {
        SittingModel {
            start_ms: self.start_ms as int,
            end_ms: self.end_ms as int,
            total_dwell_ms: self.total_dwell_ms as int,
            interval_indices: self.interval_indices@.map_values(|i: usize| i as int),
        }
    }
}

/// The views of a sequence of sittings.
pub open spec fn sitting_views(v: Seq<Sitting>) -> Seq<SittingModel> {
    v.map_values(|s: Sitting| s@)
}

/// Where position `p` of an interval starting at `t` goes into `order`:
/// after the last interval not starting later.
pub open spec fn start_slot(ivs: Seq<IntervalModel>, order: Seq<int>, t: int) -> nat
    decreases order.len(),
{
    if order.len() == 0 {
        0
    } else if ivs[order.last()].start_ms > t {
        start_slot(ivs, order.drop_last(), t)
    } else {
        order.len()
    }
}

/// The positions of the first `n` intervals in order of their start;
/// equal starts keep their original order.
pub open spec fn start_order(ivs: Seq<IntervalModel>, n: int) -> Seq<int>
    decreases n,
{
    if n <= 0 {
        seq![]
    } else {
        let rest = start_order(ivs, n - 1);
        rest.insert(start_slot(ivs, rest, ivs[n - 1].start_ms) as int, n - 1)
    }
}

/// The intervals at the given positions.
pub open spec fn picked(ivs: Seq<IntervalModel>, order: Seq<int>) -> Seq<IntervalModel> {
    order.map_values(|i: int| ivs[i])
}

/// The sittings of the intervals visited in the given order.
pub open spec fn sittings_of(ivs: Seq<IntervalModel>, order: Seq<int>) -> Seq<SittingModel>
    decreases order.len(),
{
    if order.len() == 0 {
        seq![]
    } else {
        let prev = sittings_of(ivs, order.drop_last());
        let p = order.last();
        let iv = ivs[p];
        if prev.len() > 0 && iv.start_ms - prev.last().end_ms <= SITTING_GAP_MS {
            let cur = prev.last();
            prev.update(
                prev.len() - 1,
                SittingModel {
                    start_ms: cur.start_ms,
                    end_ms: if cur.end_ms >= iv.end_ms {
                        cur.end_ms
                    } else {
                        iv.end_ms
                    },
                    total_dwell_ms: cur.total_dwell_ms + iv.total_dwell_ms,
                    interval_indices: cur.interval_indices.push(p),
                },
            )
        } else {
            prev.push(
                SittingModel {
                    start_ms: iv.start_ms,
                    end_ms: iv.end_ms,
                    total_dwell_ms: iv.total_dwell_ms,
                    interval_indices: seq![p],
                },
            )
        }
    }
}

proof fn lemma_start_slot_bound(ivs: Seq<IntervalModel>, order: Seq<int>, t: int)
    ensures
        start_slot(ivs, order, t) <= order.len(),
    decreases order.len(),
{
    if order.len() > 0 && ivs[order.last()].start_ms > t {
        lemma_start_slot_bound(ivs, order.drop_last(), t);
    }
}

/// The start order visits every one of the first `n` intervals once.
pub proof fn lemma_start_order(ivs: Seq<IntervalModel>, n: int)
    requires
        0 <= n <= ivs.len(),
    ensures
        start_order(ivs, n).len() == n,
        forall|k: int| 0 <= k < n ==> 0 <= #[trigger] start_order(ivs, n)[k] < n,
        picked(ivs, start_order(ivs, n)).to_multiset() == ivs.take(n).to_multiset(),
    decreases n,
{
    broadcast use vstd::seq_lib::group_to_multiset_ensures;

    if n > 0 {
        let rest = start_order(ivs, n - 1);
        lemma_start_order(ivs, n - 1);
        let p = start_slot(ivs, rest, ivs[n - 1].start_ms) as int;
        lemma_start_slot_bound(ivs, rest, ivs[n - 1].start_ms);
        let mapped = picked(ivs, rest);
        assert(picked(ivs, rest.insert(p, n - 1)) =~= mapped.insert(p, ivs[n - 1]));
        lemma_insert_multiset(mapped, p, ivs[n - 1]);
        assert(ivs.take(n) =~= ivs.take(n - 1).push(ivs[n - 1]));
        vstd::seq_lib::to_multiset_build(ivs.take(n - 1), ivs[n - 1]);
        let s = start_order(ivs, n);
        assert forall|k: int| 0 <= k < n implies 0 <= #[trigger] s[k] < n by {
            if k < p {
                assert(s[k] == rest[k]);
            } else if k > p {
                assert(s[k] == rest[k - 1]);
            }
        }
    }
}

/// A sitting's dwell is bounded by the dwell of all the intervals it was
/// built from.
proof fn lemma_sittings_bounds(ivs: Seq<IntervalModel>, order: Seq<int>)
    requires
        forall|k: int| 0 <= k < order.len() ==> 0 <= #[trigger] order[k] < ivs.len(),
        nonneg_terms(picked(ivs, order), iv_dwell()),
    ensures
        forall|k: int|
            0 <= k < sittings_of(ivs, order).len() ==> 0 <= (#[trigger] sittings_of(ivs, order)[k]).total_dwell_ms
                <= seq_sum(picked(ivs, order), iv_dwell()),
        forall|k: int|
            0 <= k < sittings_of(ivs, order).len() ==> (#[trigger] sittings_of(ivs, order)[k]).interval_indices.len()
                <= order.len(),
        sittings_of(ivs, order).len() <= order.len(),
    decreases order.len(),
{
    if order.len() > 0 {
        let prev = order.drop_last();
        let m = picked(ivs, order);
        assert(picked(ivs, prev) =~= m.drop_last());
        assert(nonneg_terms(m.drop_last(), iv_dwell())) by {
            assert forall|k: int| 0 <= k < m.drop_last().len() implies iv_dwell()(
                #[trigger] m.drop_last()[k],
            ) >= 0 by {
                assert(m.drop_last()[k] == m[k]);
            }
        }
        lemma_sittings_bounds(ivs, prev);
        lemma_sum_drop_last(m, iv_dwell());
        assert(m.last() == ivs[order.last()]);
    }
}

/// Segments intervals into sittings at the 30-minute gap: intervals in
/// order of their start (equal starts in their given order), each joining
/// the current sitting when it starts within the gap after its end.
pub fn sittings_from_intervals(intervals: &[WorkInterval]) -> (r: Vec<Sitting>)
    requires
        seq_sum(interval_views(intervals@), iv_dwell()) <= u64::MAX,
    ensures
        sitting_views(r@) == sittings_of(
            interval_views(intervals@),
            start_order(interval_views(intervals@), intervals@.len() as int),
        ),
{
    let ghost ivs = interval_views(intervals@);
    let n = intervals.len();
    // Positions in start order.
    let mut order: Vec<usize> = Vec::new();
    let mut m: usize = 0;
    while m < n
        invariant
            n == intervals@.len(),
            ivs == interval_views(intervals@),
            m <= n,
            order@.map_values(|i: usize| i as int) == start_order(ivs, m as int),
        decreases n - m,
    {
        let ghost ord = order@.map_values(|i: usize| i as int);
        let t = intervals[m].start_ms;
        assert(ivs[m as int].start_ms == t);
        proof {
            lemma_start_order(ivs, m as int);
        }
        let mut j: usize = order.len();
        assert(ord.take(j as int) =~= ord);
        while j > 0 && intervals[order[j - 1]].start_ms > t
            invariant
                j <= order@.len(),
                n == intervals@.len(),
                m < n,
                ivs == interval_views(intervals@),
                ord == order@.map_values(|i: usize| i as int),
                ord == start_order(ivs, m as int),
                forall|k: int| 0 <= k < ord.len() ==> 0 <= #[trigger] ord[k] < m,
                t == ivs[m as int].start_ms,
                start_slot(ivs, ord, t as int) == start_slot(ivs, ord.take(j as int), t as int),
            decreases j,
        {
            assert(ord[j - 1] == order@[j - 1] as int);
            assert(ivs[ord[j - 1]] == intervals@[order@[j - 1] as int]@);
            assert(ord.take(j as int).last() == ord[j - 1]);
            assert(ord.take(j as int).drop_last() =~= ord.take(j - 1));
            j = j - 1;
        }
        proof {
            if j > 0 {
                assert(ord[j - 1] == order@[j - 1] as int);
                assert(ivs[ord[j - 1]] == intervals@[order@[j - 1] as int]@);
                assert(ord.take(j as int).last() == ord[j - 1]);
            }
        }
        order.insert(j, m);
        assert(order@.map_values(|i: usize| i as int) =~= ord.insert(j as int, m as int));
        m = m + 1;
    }
    let ghost ord = order@.map_values(|i: usize| i as int);
    proof {
        lemma_start_order(ivs, n as int);
        assert(ivs.take(n as int) =~= ivs);
        lemma_sum_permutes(picked(ivs, ord), ivs, iv_dwell());
        assert(nonneg_terms(picked(ivs, ord), iv_dwell())) by {
            assert forall|k: int| 0 <= k < ord.len() implies iv_dwell()(
                #[trigger] picked(ivs, ord)[k],
            ) >= 0 by {
                assert(ivs[ord[k]] == intervals@[ord[k]]@);
            }
        }
    }
    // Segmentation in that order.
    let mut sittings: Vec<Sitting> = Vec::new();
    let mut k: usize = 0;
    while k < n
        invariant
            n == intervals@.len(),
            ivs == interval_views(intervals@),
            ord == order@.map_values(|i: usize| i as int),
            ord == start_order(ivs, n as int),
            ord.len() == n,
            forall|q: int| 0 <= q < n ==> 0 <= #[trigger] ord[q] < n,
            nonneg_terms(picked(ivs, ord), iv_dwell()),
            seq_sum(picked(ivs, ord), iv_dwell()) <= u64::MAX,
            k <= n,
            sitting_views(sittings@) == sittings_of(ivs, ord.take(k as int)),
        decreases n - k,
    {
        let ghost pre = ord.take(k as int + 1);
        let index = order[k];
        assert(ord[k as int] == index as int);
        let interval = &intervals[index];
        proof {
            assert(pre.drop_last() =~= ord.take(k as int));
            assert(pre.last() == index as int);
            assert(ivs[index as int] == interval@);
            assert(picked(ivs, pre) =~= picked(ivs, ord).take(k as int + 1));
            assert(nonneg_terms(picked(ivs, pre), iv_dwell())) by {
                assert forall|q: int| 0 <= q < pre.len() implies iv_dwell()(
                    #[trigger] picked(ivs, pre)[q],
                ) >= 0 by {
                    assert(picked(ivs, pre)[q] == picked(ivs, ord)[q]);
                }
            }
            lemma_sum_take(picked(ivs, ord), k as int + 1, iv_dwell());
            lemma_sittings_bounds(ivs, pre);
        }
        let count = sittings.len();
        let joins = count > 0 && (interval.start_ms <= sittings[count - 1].end_ms
            || interval.start_ms - sittings[count - 1].end_ms <= SITTING_GAP_MS);
        proof {
            if count > 0 {
                assert(sitting_views(sittings@)[count - 1] == sittings@[count - 1]@);
            }
        }
        if joins {
            let ghost before = sittings@;
            let mut cur = sittings.pop().unwrap();
            assert(cur@ == sitting_views(before)[count - 1]);
            assert(sittings_of(ivs, pre)[count - 1].total_dwell_ms == cur.total_dwell_ms + interval.total_dwell_ms);
            if interval.end_ms > cur.end_ms {
                cur.end_ms = interval.end_ms;
            }
            cur.total_dwell_ms = cur.total_dwell_ms + interval.total_dwell_ms;
            let ghost idx = cur.interval_indices@;
            cur.interval_indices.push(index);
            assert(cur.interval_indices@.map_values(|i: usize| i as int) =~= idx.map_values(
                |i: usize| i as int,
            ).push(index as int));
            sittings.push(cur);
            assert(sitting_views(sittings@) =~= sitting_views(before).update(count - 1, cur@));
        } else {
            let mut indices: Vec<usize> = Vec::new();
            indices.push(index);
            assert(indices@.map_values(|i: usize| i as int) =~= seq![index as int]);
            let s = Sitting {
                start_ms: interval.start_ms,
                end_ms: interval.end_ms,
                total_dwell_ms: interval.total_dwell_ms,
                interval_indices: indices,
            };
            let ghost before = sittings@;
            sittings.push(s);
            assert(sitting_views(sittings@) =~= sitting_views(before).push(s@));
        }
        k = k + 1;
    }
    assert(ord.take(n as int) =~= ord);
    sittings
}

} // verus!
