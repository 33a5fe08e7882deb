//! Replay executes formation once per canonical observation, in canonical
//! order, threading the workspace understanding from one call to the next.

use vstd::prelude::*;
use crate::observation::observation::Observation;
use crate::replay::corpus::ReplayCorpus;

verus! {

/// `ws` is what formation yields, observation by observation: the first
/// call sees no workspace, each later call the previous result, and every
/// call the whole artifact history.
pub open spec fn formation_trace<A, W, F: FnMut(&Observation, &[A], Option<W>) -> W>(
    f: F,
    obs: Seq<Observation>,
    artifacts: &[A],
    ws: Seq<W>,
) -> bool {
    &&& ws.len() == obs.len()
    &&& forall|i: int|
        0 <= i < obs.len() ==> call_ensures(
            f,
            (&obs[i], artifacts, if i == 0 {
                None
            } else {
                Some(ws[i - 1])
            }),
            #[trigger] ws[i],
        )
}

/// Re-executes formation over the whole corpus in canonical order and
/// returns the workspace understanding after the last observation.
///
/// The formation step is an `Fn`: Verus reasons about closures that move
/// or borrow their captures immutably, not about ones that mutate them, so
/// a step that keeps state carries it in the workspace it returns.
pub fn replay<A, W, F: Fn(&Observation, &[A], Option<W>) -> W>(
    corpus: &ReplayCorpus<A>,
    formation_fn: F,
) -> (r: W)
    requires
        forall|o: &Observation, a: &[A], w: Option<W>| call_requires(formation_fn, (o, a, w)),
    ensures
        exists|ws: Seq<W>, arts: &[A]|
            arts@ == corpus.spec_artifacts() && formation_trace(
                formation_fn,
                corpus.spec_observations(),
                arts,
                ws,
            ) && r == ws.last(),
{
    let observations = corpus.observations();
    let artifacts = corpus.artifacts();
    let ghost mut ws: Seq<W> = Seq::empty();
    let mut current: W = formation_fn(&observations[0], artifacts, None);
    proof {
        ws = ws.push(current);
    }
    let mut i: usize = 1;
    while i < observations.len()
        invariant
            1 <= i <= observations@.len(),
            observations@ == corpus.spec_observations(),
            artifacts@ == corpus.spec_artifacts(),
            forall|o: &Observation, a: &[A], w: Option<W>| call_requires(formation_fn, (o, a, w)),
            ws.len() == i,
            current == ws.last(),
            forall|j: int|
                0 <= j < i ==> call_ensures(
                    formation_fn,
                    (&observations@[j], artifacts, if j == 0 {
                        None
                    } else {
                        Some(ws[j - 1])
                    }),
                    #[trigger] ws[j],
                ),
        decreases observations.len() - i,
    {
        let next = formation_fn(&observations[i], artifacts, Some(current));
        proof {
            ws = ws.push(next);
        }
        current = next;
        i = i + 1;
    }
    assert(formation_trace(formation_fn, corpus.spec_observations(), artifacts, ws));
    current
}

} // verus!
