//! The lease: a receipt for every change an activation made, replayed in
//! exact reverse order when the pod is left. The reversal holds exactly
//! the inverse verbs of the activation, in reverse.
//!
//! A lease carries window frames without reading them; `F` is the frame
//! type of the platform.

use vstd::prelude::*;
use crate::pods::dim::Arrangement;
use crate::text::to_owned_string;

verus! {

/// One undoable unit of a deactivation.
#[derive(Debug, Clone, Copy, PartialEq)]
pub enum LeaseStep<F> {
    MoveWindowBack { pid: i32, window_id: u32, frame: F },
    UnparkWindow { pid: i32, window_id: u32 },
    /// A pod member resurrected at entry goes back to minimized, so the
    /// desktop returns exactly as it was.
    ReparkWindow { pid: i32, window_id: u32 },
    CloseVeil { handle: u64 },
    RehideApp { pid: i32 },
    UnhideApp { pid: i32 },
}

/// The receipt from one activation.
#[derive(Debug, Clone, PartialEq)]
pub struct PodLease<F> {
    /// The pod name (for messages).
    pub pod: String,
    /// Windows moved from their original frames.
    pub moved_windows: Vec<(i32, u32, F)>,
    /// Foreign windows minimized.
    pub parked_windows: Vec<(i32, u32)>,
    /// Veil handles opened.
    pub veils: Vec<u64>,
    /// Foreign apps hidden.
    pub hidden_apps: Vec<i32>,
    /// Pod apps un-hidden; leaving re-hides them.
    pub unhidden_apps: Vec<i32>,
    /// Pod members pulled out of the Dock; leaving re-minimizes them.
    pub unparked_members: Vec<(i32, u32)>,
    /// Epoch milliseconds at entry.
    pub entered_at_ms: u64,
}

/// The steps that undo the activation: close the veils, unhide the
/// hidden apps, re-hide the un-hidden ones, unpark the parked windows,
/// move the moved windows back, re-park the unparked members — each list
/// newest first.
pub open spec fn reversal_of<F>(l: PodLease<F>) -> Seq<LeaseStep<F>> {
    l.veils@.reverse().map_values(|h: u64| LeaseStep::<F>::CloseVeil { handle: h })
        + l.hidden_apps@.reverse().map_values(|p: i32| LeaseStep::<F>::UnhideApp { pid: p })
        + l.unhidden_apps@.reverse().map_values(|p: i32| LeaseStep::<F>::RehideApp { pid: p })
        + l.parked_windows@.reverse().map_values(
        |w: (i32, u32)| LeaseStep::<F>::UnparkWindow { pid: w.0, window_id: w.1 },
    ) + l.moved_windows@.reverse().map_values(
        |w: (i32, u32, F)| LeaseStep::<F>::MoveWindowBack { pid: w.0, window_id: w.1, frame: w.2 },
    ) + l.unparked_members@.reverse().map_values(
        |w: (i32, u32)| LeaseStep::<F>::ReparkWindow { pid: w.0, window_id: w.1 },
    )
}

impl<F: Copy> PodLease<F> {
    /// An empty lease for the named pod.
    pub fn new(pod: &str, entered_at_ms: u64) -> (r: Self)
        ensures
            r.pod@ == pod@,
            r.entered_at_ms == entered_at_ms,
            r.moved_windows@.len() == 0,
            r.parked_windows@.len() == 0,
            r.veils@.len() == 0,
            r.hidden_apps@.len() == 0,
            r.unhidden_apps@.len() == 0,
            r.unparked_members@.len() == 0,
    {
        PodLease {
            pod: to_owned_string(pod),
            moved_windows: Vec::new(),
            parked_windows: Vec::new(),
            veils: Vec::new(),
            hidden_apps: Vec::new(),
            unhidden_apps: Vec::new(),
            unparked_members: Vec::new(),
            entered_at_ms,
        }
    }

    /// The exact reverse replay of the activation.
    pub fn reversal(&self) -> (r: Vec<LeaseStep<F>>)
        ensures
            r@ == reversal_of(*self),
    {
        let mut steps: Vec<LeaseStep<F>> = Vec::new();
        let ghost s0 = self.veils@.reverse().map_values(|h: u64| LeaseStep::<F>::CloseVeil { handle: h });
        let mut i: usize = self.veils.len();
        while i > 0
            invariant
                i <= self.veils@.len(),
                steps@ == self.veils@.subrange(i as int, self.veils@.len() as int).reverse().map_values(
                    |h: u64| LeaseStep::<F>::CloseVeil { handle: h },
                ),
            decreases i,
        {
            i = i - 1;
            steps.push(LeaseStep::CloseVeil { handle: self.veils[i] });
            assert(steps@ =~= self.veils@.subrange(i as int, self.veils@.len() as int).reverse().map_values(
                |h: u64| LeaseStep::<F>::CloseVeil { handle: h },
            ));
        }
        assert(self.veils@.subrange(0, self.veils@.len() as int) =~= self.veils@);
        let ghost a1 = steps@;
        let mut i: usize = self.hidden_apps.len();
        while i > 0
            invariant
                i <= self.hidden_apps@.len(),
                steps@ == a1 + self.hidden_apps@.subrange(i as int, self.hidden_apps@.len() as int).reverse().map_values(
                    |p: i32| LeaseStep::<F>::UnhideApp { pid: p },
                ),
            decreases i,
        {
            i = i - 1;
            steps.push(LeaseStep::UnhideApp { pid: self.hidden_apps[i] });
            assert(steps@ =~= a1 + self.hidden_apps@.subrange(i as int, self.hidden_apps@.len() as int).reverse().map_values(
                |p: i32| LeaseStep::<F>::UnhideApp { pid: p },
            ));
        }
        assert(self.hidden_apps@.subrange(0, self.hidden_apps@.len() as int) =~= self.hidden_apps@);
        let ghost a2 = steps@;
        let mut i: usize = self.unhidden_apps.len();
        while i > 0
            invariant
                i <= self.unhidden_apps@.len(),
                steps@ == a2 + self.unhidden_apps@.subrange(i as int, self.unhidden_apps@.len() as int).reverse().map_values(
                    |p: i32| LeaseStep::<F>::RehideApp { pid: p },
                ),
            decreases i,
        {
            i = i - 1;
            steps.push(LeaseStep::RehideApp { pid: self.unhidden_apps[i] });
            assert(steps@ =~= a2 + self.unhidden_apps@.subrange(i as int, self.unhidden_apps@.len() as int).reverse().map_values(
                |p: i32| LeaseStep::<F>::RehideApp { pid: p },
            ));
        }
        assert(self.unhidden_apps@.subrange(0, self.unhidden_apps@.len() as int) =~= self.unhidden_apps@);
        let ghost a3 = steps@;
        let mut i: usize = self.parked_windows.len();
        while i > 0
            invariant
                i <= self.parked_windows@.len(),
                steps@ == a3 + self.parked_windows@.subrange(i as int, self.parked_windows@.len() as int).reverse().map_values(
                    |w: (i32, u32)| LeaseStep::<F>::UnparkWindow { pid: w.0, window_id: w.1 },
                ),
            decreases i,
        {
            i = i - 1;
            let (pid, window_id) = self.parked_windows[i];
            steps.push(LeaseStep::UnparkWindow { pid, window_id });
            assert(steps@ =~= a3 + self.parked_windows@.subrange(i as int, self.parked_windows@.len() as int).reverse().map_values(
                |w: (i32, u32)| LeaseStep::<F>::UnparkWindow { pid: w.0, window_id: w.1 },
            ));
        }
        assert(self.parked_windows@.subrange(0, self.parked_windows@.len() as int) =~= self.parked_windows@);
        let ghost a4 = steps@;
        let mut i: usize = self.moved_windows.len();
        while i > 0
            invariant
                i <= self.moved_windows@.len(),
                steps@ == a4 + self.moved_windows@.subrange(i as int, self.moved_windows@.len() as int).reverse().map_values(
                    |w: (i32, u32, F)| LeaseStep::<F>::MoveWindowBack { pid: w.0, window_id: w.1, frame: w.2 },
                ),
            decreases i,
        {
            i = i - 1;
            let (pid, window_id, frame) = self.moved_windows[i];
            steps.push(LeaseStep::MoveWindowBack { pid, window_id, frame });
            assert(steps@ =~= a4 + self.moved_windows@.subrange(i as int, self.moved_windows@.len() as int).reverse().map_values(
                |w: (i32, u32, F)| LeaseStep::<F>::MoveWindowBack { pid: w.0, window_id: w.1, frame: w.2 },
            ));
        }
        assert(self.moved_windows@.subrange(0, self.moved_windows@.len() as int) =~= self.moved_windows@);
        let ghost a5 = steps@;
        let mut i: usize = self.unparked_members.len();
        while i > 0
            invariant
                i <= self.unparked_members@.len(),
                steps@ == a5 + self.unparked_members@.subrange(i as int, self.unparked_members@.len() as int).reverse().map_values(
                    |w: (i32, u32)| LeaseStep::<F>::ReparkWindow { pid: w.0, window_id: w.1 },
                ),
            decreases i,
        {
            i = i - 1;
            let (pid, window_id) = self.unparked_members[i];
            steps.push(LeaseStep::ReparkWindow { pid, window_id });
            assert(steps@ =~= a5 + self.unparked_members@.subrange(i as int, self.unparked_members@.len() as int).reverse().map_values(
                |w: (i32, u32)| LeaseStep::<F>::ReparkWindow { pid: w.0, window_id: w.1 },
            ));
        }
        assert(self.unparked_members@.subrange(0, self.unparked_members@.len() as int) =~= self.unparked_members@);
        steps
    }

    /// Bookkeeps one applied arrangement: the pre-move frame is remembered
    /// when the window was given a target frame and its prior frame is
    /// known.
    pub fn record_arrangement(&mut self, a: &Arrangement, has_target: bool, prior: Option<F>)
        ensures
            final(self).moved_windows@ == match prior {
                Some(p) => if has_target {
                    old(self).moved_windows@.push((a.pid, a.window_id, p))
                } else {
                    old(self).moved_windows@
                },
                None => old(self).moved_windows@,
            },
            final(self).pod == old(self).pod,
            final(self).parked_windows == old(self).parked_windows,
            final(self).veils == old(self).veils,
            final(self).hidden_apps == old(self).hidden_apps,
            final(self).unhidden_apps == old(self).unhidden_apps,
            final(self).unparked_members == old(self).unparked_members,
            final(self).entered_at_ms == old(self).entered_at_ms,
    {
        if let Some(p) = prior {
            if has_target {
                self.moved_windows.push((a.pid, a.window_id, p));
            }
        }
    }
}

/// Undoing a lease touches exactly what the activation recorded: the
/// reversal holds one step per recorded change, and the moved windows go
/// back to their recorded frames newest first.
pub proof fn lemma_reversal_is_exact<F>(l: PodLease<F>)
    ensures
        reversal_of(l).len() == l.veils@.len() + l.hidden_apps@.len() + l.unhidden_apps@.len()
            + l.parked_windows@.len() + l.moved_windows@.len() + l.unparked_members@.len(),
        forall|k: int|
            0 <= k < l.moved_windows@.len() ==> {
                let w = l.moved_windows@[l.moved_windows@.len() - 1 - k];
                #[trigger] reversal_of(l)[l.veils@.len() + l.hidden_apps@.len() + l.unhidden_apps@.len()
                    + l.parked_windows@.len() + k] == LeaseStep::<F>::MoveWindowBack {
                    pid: w.0,
                    window_id: w.1,
                    frame: w.2,
                }
            },
{
}

} // verus!
