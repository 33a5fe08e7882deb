//! The pod runtime's decisions: which verbs a command makes the host
//! perform, which refusal it is answered with, and the state it leaves.

use vstd::prelude::*;
use crate::pods::policy::{debug_quoted, debug_text};
use crate::text::{concat2, concat3, decimal, fmt_u64, to_owned_string};

verus! {

/// Why the runtime refused a command.
#[derive(Debug, Clone, PartialEq, Eq)]
pub enum PodError {
    /// A pod is active: leave or switch first.
    AlreadyActive { pod: String },
    /// No pod currently active.
    NothingActive,
    /// The index was outside the pod list.
    NoSuchPod,
    /// The desktop could not be read at all.
    Surface(String),
    /// Entering a surface-less pod would move the desktop for nothing.
    EmptySurface,
    /// Mothball refused without `force` while the pod owes deltas.
    UnsafeMothball { subjects: Vec<String> },
}

/// The subjects joined by `, `.
pub open spec fn joined(v: Seq<Seq<char>>) -> Seq<char>
    decreases v.len(),
{
    if v.len() == 0 {
        Seq::empty()
    } else if v.len() == 1 {
        v[0]
    } else {
        joined(v.drop_last()) + ", "@ + v.last()
    }
}

/// The characters of each string.
pub open spec fn texts(v: Seq<String>) -> Seq<Seq<char>> {
    v.map_values(|s: String| s@)
}

/// The message of a refusal.
pub open spec fn pod_error_text(e: PodError) -> Seq<char> {
    match e {
        PodError::AlreadyActive { pod } => "already in "@ + debug_text(pod@)
            + " — leave or switch"@,
        PodError::NothingActive => "no pod is active"@,
        PodError::NoSuchPod => "no such pod"@,
        PodError::Surface(reason) => "the desktop could not be read: "@ + reason@,
        PodError::EmptySurface => "this pod has no apps, documents, pages, or titles to contain"@,
        PodError::UnsafeMothball { subjects } => "mothball would close "@ + decimal(
            subjects@.len(),
        ) + " open delta(s): "@ + joined(texts(subjects@)),
    }
}

fn join_subjects(v: &Vec<String>) -> (r: String)
    ensures
        r@ == joined(texts(v@)),
{
    let ghost t = texts(v@);
    let mut out = String::new();
    let mut i: usize = 0;
    assert(t.take(0) =~= Seq::<Seq<char>>::empty());
    while i < v.len()
        invariant
            i <= v@.len(),
            t == texts(v@),
            out@ == joined(t.take(i as int)),
        decreases v.len() - i,
    {
        assert(t.take(i + 1).drop_last() =~= t.take(i as int));
        assert(t.take(i + 1).last() == v@[i as int]@);
        if i == 0 {
            out = v[i].clone();
        } else {
            out = concat3(out.as_str(), ", ", v[i].as_str());
        }
        i = i + 1;
    }
    assert(t.take(v@.len() as int) =~= t);
    out
}

impl PodError {
    /// The human-readable message.
    pub fn to_string(&self) -> (s: String)
        ensures
            s@ == pod_error_text(*self),
    {
        match self {
            PodError::AlreadyActive { pod } => {
                let q = debug_quoted(pod.as_str());
                concat3("already in ", q.as_str(), " — leave or switch")
            },
            PodError::NothingActive => to_owned_string("no pod is active"),
            PodError::NoSuchPod => to_owned_string("no such pod"),
            PodError::Surface(reason) => concat2("the desktop could not be read: ", reason.as_str()),
            PodError::EmptySurface => to_owned_string(
                "this pod has no apps, documents, pages, or titles to contain",
            ),
            PodError::UnsafeMothball { subjects } => {
                let n = fmt_u64(subjects.len() as u64);
                let head = concat3("mothball would close ", n.as_str(), " open delta(s): ");
                let list = join_subjects(subjects);
                concat2(head.as_str(), list.as_str())
            },
        }
    }
}

// ── Decisions ──────────────────────────────────────────────────────────────

/// What the runtime knows of one pod when it decides: its id and name,
/// whether it has any surface to contain, and the subjects of the deltas
/// it owes (unsaved edits and unfinished drafts).
#[derive(Debug, Clone, PartialEq, Eq)]
pub struct PodFacts {
    pub id: u64,
    pub name: String,
    pub surfaces_empty: bool,
    pub debt: Vec<String>,
}

/// The content of [`PodFacts`].
pub struct PodFactsModel {
    pub id: u64,
    pub name: Seq<char>,
    pub surfaces_empty: bool,
    pub debt: Seq<Seq<char>>,
}

impl View for PodFacts {
    type V = PodFactsModel;

    open spec fn view(&self) -> PodFactsModel {
        PodFactsModel { id: self.id, name: self.name@, surfaces_empty: self.surfaces_empty, debt: texts(self.debt@) }
    }
}

/// The content of each pod's facts.
pub open spec fn facts_views(v: Seq<PodFacts>) -> Seq<PodFactsModel> {
    v.map_values(|f: PodFacts| f@)
}

/// The runtime between commands: the active pod, and whether a lease is
/// held.
#[derive(Debug, Clone, Copy, PartialEq, Eq)]
pub struct RuntimeState {
    pub active: Option<usize>,
    pub leased: bool,
}

/// A command the person gives.
#[derive(Debug, Clone, Copy, PartialEq, Eq)]
pub enum PodCommand {
    Enter(usize),
    Leave,
    Switch(usize),
    Cycle,
    Mothball { index: usize, force: bool },
}

/// A verb the host performs on the desktop, in order.
#[derive(Debug, Clone, Copy, PartialEq, Eq)]
pub enum PodVerb {
    /// Replay the lease backwards.
    Leave,
    /// Plan and apply the activation of the pod at this index, booking a
    /// lease.
    Enter(usize),
    /// Quit the pod's own apps, keeping its recipe.
    Mothball(usize),
}

/// A refusal, as plain values.
pub enum Refusal {
    AlreadyActive(Seq<char>),
    NothingActive,
    NoSuchPod,
    EmptySurface,
    UnsafeMothball(Seq<Seq<char>>),
}

/// The refusal a runtime error is.
pub open spec fn refusal_of(e: PodError) -> Option<Refusal> {
    match e {
        PodError::AlreadyActive { pod } => Some(Refusal::AlreadyActive(pod@)),
        PodError::NothingActive => Some(Refusal::NothingActive),
        PodError::NoSuchPod => Some(Refusal::NoSuchPod),
        PodError::EmptySurface => Some(Refusal::EmptySurface),
        PodError::UnsafeMothball { subjects } => Some(Refusal::UnsafeMothball(texts(subjects@))),
        PodError::Surface(_) => None,
    }
}

/// What a command decides: the verbs the host performs, the refusal if
/// any, and the state once the verbs are done.
pub struct Decision {
    pub verbs: Seq<PodVerb>,
    pub refusal: Option<Refusal>,
    pub next: RuntimeState,
}

/// One step of the runtime's decisions.
pub struct PodStep {
    pub verbs: Vec<PodVerb>,
    pub refusal: Option<PodError>,
    pub next: RuntimeState,
}

/// The decision a step holds.
pub open spec fn step_view(s: PodStep) -> Decision {
    Decision {
        verbs: s.verbs@,
        refusal: match s.refusal {
            Some(e) => refusal_of(e),
            None => None,
        },
        next: s.next,
    }
}

/// The name of the active pod, or the empty text.
pub open spec fn active_name(s: RuntimeState, pods: Seq<PodFactsModel>) -> Seq<char> {
    match s.active {
        Some(a) => if a < pods.len() { pods[a as int].name } else { Seq::empty() },
        None => Seq::empty(),
    }
}

/// Entering pod `i`: refused while a lease is held, for an index outside
/// the list, and for a pod with nothing to contain.
pub open spec fn enter_decision(s: RuntimeState, pods: Seq<PodFactsModel>, i: usize) -> Decision {
    if s.leased {
        Decision { verbs: seq![], refusal: Some(Refusal::AlreadyActive(active_name(s, pods))), next: s }
    } else if i >= pods.len() {
        Decision { verbs: seq![], refusal: Some(Refusal::NoSuchPod), next: s }
    } else if pods[i as int].surfaces_empty {
        Decision { verbs: seq![], refusal: Some(Refusal::EmptySurface), next: s }
    } else {
        Decision { verbs: seq![PodVerb::Enter(i)], refusal: None, next: RuntimeState { active: Some(i), leased: true } }
    }
}

/// The state once the lease, if any, is replayed: nothing active.
pub open spec fn left(s: RuntimeState) -> RuntimeState {
    if s.leased {
        RuntimeState { active: None, leased: false }
    } else {
        s
    }
}

/// The verbs that leave, if a lease is held.
pub open spec fn leave_verbs(s: RuntimeState) -> Seq<PodVerb> {
    if s.leased {
        seq![PodVerb::Leave]
    } else {
        seq![]
    }
}

/// Switching to pod `i`: leave whatever is active, then enter.
pub open spec fn switch_decision(s: RuntimeState, pods: Seq<PodFactsModel>, i: usize) -> Decision {
    let e = enter_decision(left(s), pods, i);
    Decision { verbs: leave_verbs(s) + e.verbs, refusal: e.refusal, next: e.next }
}

/// The pod after the active one, wrapping; the first when none is active.
pub open spec fn next_index(s: RuntimeState, n: nat) -> int {
    match s.active {
        Some(a) => (a + 1) % (n as int),
        None => 0,
    }
}

/// What a command decides.
pub open spec fn decide_spec(s: RuntimeState, pods: Seq<PodFactsModel>, c: PodCommand) -> Decision {
    match c {
        PodCommand::Enter(i) => enter_decision(s, pods, i),
        PodCommand::Leave => if s.leased {
            Decision { verbs: seq![PodVerb::Leave], refusal: None, next: RuntimeState { active: None, leased: false } }
        } else {
            Decision { verbs: seq![], refusal: Some(Refusal::NothingActive), next: s }
        },
        PodCommand::Switch(i) => switch_decision(s, pods, i),
        PodCommand::Cycle => if pods.len() == 0 {
            Decision { verbs: seq![], refusal: Some(Refusal::NoSuchPod), next: s }
        } else {
            switch_decision(s, pods, next_index(s, pods.len()) as usize)
        },
        PodCommand::Mothball { index, force } => if index >= pods.len() {
            Decision { verbs: seq![], refusal: Some(Refusal::NoSuchPod), next: s }
        } else if pods[index as int].debt.len() > 0 && !force {
            Decision { verbs: seq![], refusal: Some(Refusal::UnsafeMothball(pods[index as int].debt)), next: s }
        } else if s.active == Some(index) {
            Decision { verbs: leave_verbs(s).push(PodVerb::Mothball(index)), refusal: None, next: left(s) }
        } else {
            Decision { verbs: seq![PodVerb::Mothball(index)], refusal: None, next: s }
        },
    }
}

fn copy_texts(v: &Vec<String>) -> (r: Vec<String>)
    ensures
        texts(r@) == texts(v@),
{
    let mut out: Vec<String> = Vec::new();
    let mut i: usize = 0;
    while i < v.len()
        invariant
            i <= v@.len(),
            texts(out@) == texts(v@.take(i as int)),
        decreases v.len() - i,
    {
        let ghost before = out@;
        out.push(to_owned_string(v[i].as_str()));
        assert(texts(out@) =~= texts(before).push(v@[i as int]@));
        assert(texts(v@.take(i + 1)) =~= texts(v@.take(i as int)).push(v@[i as int]@));
        i = i + 1;
    }
    assert(v@.take(v@.len() as int) =~= v@);
    out
}

fn decide_enter(s: RuntimeState, pods: &[PodFacts], i: usize) -> (r: PodStep)
    ensures
        step_view(r) == enter_decision(s, facts_views(pods@), i),
{
    let ghost pv = facts_views(pods@);
    if s.leased {
        let name = match s.active {
            Some(a) => if a < pods.len() {
                assert(pv[a as int] == pods@[a as int]@);
                to_owned_string(pods[a].name.as_str())
            } else {
                String::new()
            },
            None => String::new(),
        };
        return PodStep { verbs: Vec::new(), refusal: Some(PodError::AlreadyActive { pod: name }), next: s };
    }
    if i >= pods.len() {
        return PodStep { verbs: Vec::new(), refusal: Some(PodError::NoSuchPod), next: s };
    }
    assert(pv[i as int] == pods@[i as int]@);
    if pods[i].surfaces_empty {
        return PodStep { verbs: Vec::new(), refusal: Some(PodError::EmptySurface), next: s };
    }
    let verbs = vec![PodVerb::Enter(i)];
    assert(verbs@ =~= seq![PodVerb::Enter(i)]);
    PodStep { verbs, refusal: None, next: RuntimeState { active: Some(i), leased: true } }
}

fn decide_switch(s: RuntimeState, pods: &[PodFacts], i: usize) -> (r: PodStep)
    ensures
        step_view(r) == switch_decision(s, facts_views(pods@), i),
{
    let after = if s.leased {
        RuntimeState { active: None, leased: false }
    } else {
        s
    };
    let e = decide_enter(after, pods, i);
    let mut verbs: Vec<PodVerb> = Vec::new();
    if s.leased {
        verbs.push(PodVerb::Leave);
    }
    assert(verbs@ =~= leave_verbs(s));
    let mut ev = e.verbs;
    verbs.append(&mut ev);
    PodStep { verbs, refusal: e.refusal, next: e.next }
}

/// Decides a command: which verbs the host performs, in order, which
/// refusal the person is told, and the runtime's state once the verbs are
/// done. The host performs the verbs and reports a desktop it could not
/// read as `PodError::Surface`.
pub fn decide(s: RuntimeState, pods: &[PodFacts], c: PodCommand) -> (r: PodStep)
    ensures
        step_view(r) == decide_spec(s, facts_views(pods@), c),
{
    let ghost pv = facts_views(pods@);
    match c {
        PodCommand::Enter(i) => decide_enter(s, pods, i),
        PodCommand::Leave => if s.leased {
            let verbs = vec![PodVerb::Leave];
            assert(verbs@ =~= seq![PodVerb::Leave]);
            PodStep { verbs, refusal: None, next: RuntimeState { active: None, leased: false } }
        } else {
            PodStep { verbs: Vec::new(), refusal: Some(PodError::NothingActive), next: s }
        },
        PodCommand::Switch(i) => decide_switch(s, pods, i),
        PodCommand::Cycle => if pods.len() == 0 {
            PodStep { verbs: Vec::new(), refusal: Some(PodError::NoSuchPod), next: s }
        } else {
            let next = match s.active {
                Some(a) => if a < pods.len() { (a + 1) % pods.len() } else { ((a % pods.len()) + 1) % pods.len() },
                None => 0,
            };
            proof {
                if let Some(a) = s.active {
                    if a >= pods.len() {
                        let ai: int = a as int;
                        let n: int = pods.len() as int;
                        vstd::arithmetic::div_mod::lemma_add_mod_noop(ai, 1, n);
                        if n > 1 {
                            vstd::arithmetic::div_mod::lemma_small_mod(1, n as nat);
                        }
                        assert(((ai % n) + 1) % n == (ai + 1) % n);
                    }
                }
            }
            decide_switch(s, pods, next)
        },
        PodCommand::Mothball { index, force } => {
            if index >= pods.len() {
                return PodStep { verbs: Vec::new(), refusal: Some(PodError::NoSuchPod), next: s };
            }
            assert(pv[index as int] == pods@[index as int]@);
            if pods[index].debt.len() > 0 && !force {
                let subjects = copy_texts(&pods[index].debt);
                return PodStep { verbs: Vec::new(), refusal: Some(PodError::UnsafeMothball { subjects }), next: s };
            }
            if s.active == Some(index) {
                let mut verbs: Vec<PodVerb> = Vec::new();
                if s.leased {
                    verbs.push(PodVerb::Leave);
                }
                verbs.push(PodVerb::Mothball(index));
                assert(verbs@ =~= leave_verbs(s).push(PodVerb::Mothball(index)));
                let next = if s.leased {
                    RuntimeState { active: None, leased: false }
                } else {
                    s
                };
                PodStep { verbs, refusal: None, next }
            } else {
                let verbs = vec![PodVerb::Mothball(index)];
                assert(verbs@ =~= seq![PodVerb::Mothball(index)]);
                PodStep { verbs, refusal: None, next: s }
            }
        },
    }
}

/// The active pod after the pod list is refreshed: the pod with the same
/// id, wherever it now stands; when it vanished, the lease is replayed.
pub open spec fn refresh_spec(s: RuntimeState, old_ids: Seq<u64>, new_ids: Seq<u64>) -> Decision {
    let kept = match s.active {
        Some(a) => if a < old_ids.len() && new_ids.contains(old_ids[a as int]) {
            Some(choose|k: int| 0 <= k < new_ids.len() && new_ids[k] == old_ids[a as int]
                && forall|j: int| 0 <= j < k ==> new_ids[j] != old_ids[a as int])
        } else {
            None
        },
        None => None,
    };
    match kept {
        Some(k) => Decision { verbs: seq![], refusal: None, next: RuntimeState { active: Some(k as usize), leased: s.leased } },
        None => Decision {
            verbs: leave_verbs(s),
            refusal: None,
            next: RuntimeState { active: None, leased: false },
        },
    }
}

/// Keeps the active pod active by id across a refreshed pod list; a
/// vanished active pod has its lease replayed so the desktop never drifts.
pub fn refresh(s: RuntimeState, old_ids: &[u64], new_ids: &[u64]) -> (r: PodStep)
    ensures
        step_view(r) == refresh_spec(s, old_ids@, new_ids@),
{
    if let Some(a) = s.active {
        if a < old_ids.len() {
            let id = old_ids[a];
            let mut k: usize = 0;
            while k < new_ids.len()
                invariant
                    k <= new_ids@.len(),
                    s.active == Some(a),
                    a < old_ids@.len(),
                    id == old_ids@[a as int],
                    forall|j: int| 0 <= j < k ==> new_ids@[j] != id,
                decreases new_ids.len() - k,
            {
                if new_ids[k] == id {
                    proof {
                        assert(new_ids@.contains(id));
                        let c = choose|c: int| 0 <= c < new_ids@.len() && new_ids@[c] == id
                            && forall|j: int| 0 <= j < c ==> new_ids@[j] != id;
                        assert(0 <= k < new_ids@.len() && new_ids@[k as int] == id
                            && forall|j: int| 0 <= j < k ==> new_ids@[j] != id);
                        if c < k {
                            assert(new_ids@[c] != id);
                        }
                        if k < c {
                            assert(new_ids@[k as int] != id);
                        }
                        assert(c == k);
                        assert(old_ids@[a as int] == id);
                        assert(refresh_spec(s, old_ids@, new_ids@).next.active == Some(k));
                    }
                    return PodStep { verbs: Vec::new(), refusal: None, next: RuntimeState { active: Some(k), leased: s.leased } };
                }
                k = k + 1;
            }
        }
    }
    let mut verbs: Vec<PodVerb> = Vec::new();
    if s.leased {
        verbs.push(PodVerb::Leave);
    }
    assert(verbs@ =~= leave_verbs(s));
    PodStep { verbs, refusal: None, next: RuntimeState { active: None, leased: false } }
}

/// A refused command changes nothing: no verb is performed and the state
/// stays, except that switching and cycling leave the active pod first.
pub proof fn lemma_refusal_changes_nothing(s: RuntimeState, pods: Seq<PodFactsModel>, c: PodCommand)
    requires
        decide_spec(s, pods, c).refusal is Some,
        !(c is Switch) && !(c is Cycle),
    ensures
        decide_spec(s, pods, c).verbs.len() == 0,
        decide_spec(s, pods, c).next == s,
{
}

/// Entering is the only way a lease is booked, and every booked lease is
/// for an existing pod with a surface: after any decision that holds a
/// lease it did not hold before, the active pod exists and has something
/// to contain.
pub proof fn lemma_lease_only_by_entering(s: RuntimeState, pods: Seq<PodFactsModel>, c: PodCommand)
    requires
        !s.leased,
        decide_spec(s, pods, c).next.leased,
    ensures
        decide_spec(s, pods, c).next.active matches Some(i) && i < pods.len() && !pods[i as int].surfaces_empty,
        decide_spec(s, pods, c).refusal is None,
{
}

} // verus!
