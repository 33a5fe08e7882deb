//! The pod: identity, honest badges, evidence surface.

use std::collections::BTreeMap;
use vstd::prelude::*;
use crate::text::{lemma_lex_asymmetric, lemma_lex_irreflexive, lemma_lex_total, lemma_lex_transitive, lex_lt, str_eq,
    str_less, to_owned_string};

verus! {

/// A pod is identified by its thread id: one engine work, one pod.
#[derive(Debug, Clone, Copy, PartialEq, Eq, PartialOrd, Ord, Hash)]
pub struct PodId(pub u64);

/// A deterministic accent color of a pod.
#[derive(Debug, Clone, Copy, PartialEq, Eq)]
pub struct PodColor {
    pub r: u8,
    pub g: u8,
    pub b: u8,
}

/// The kinds of looping state a pod's bar may show.
#[derive(Debug, Clone, Copy, PartialEq, Eq, PartialOrd, Ord)]
pub enum BadgeKind {
    /// Typed after the last save: bytes exist only in a buffer.
    UnsavedEdits,
    /// A finalized-looking surface changed after its last finalization.
    Uncommitted,
    /// A download the person never since attended.
    DownloadReady,
    /// Typed on, never saved: draft-shaped.
    UnfinishedDraft,
    /// Shared identity with another pod: displayed, never hidden.
    Contested,
}

/// A badge: a faithful projection of one engine delta.
#[derive(Debug, Clone, PartialEq, Eq)]
pub struct PodBadge {
    pub kind: BadgeKind,
    /// The resource the delta concerns.
    pub subject: String,
}

/// A looping state the engine reports for a work.
#[derive(Debug, Clone, PartialEq, Eq)]
pub enum Delta {
    UnsavedEdits { resource: String },
    UncommittedChanges { root: String },
    DownloadedNotYetUsed { path: String },
    UnfinishedDraftSurface { resource: String },
}

/// The badge kind and subject a delta projects to.
pub open spec fn delta_badge(d: Delta) -> (BadgeKind, Seq<char>) {
    match d {
        Delta::UnsavedEdits { resource } => (BadgeKind::UnsavedEdits, resource@),
        Delta::UncommittedChanges { root } => (BadgeKind::Uncommitted, root@),
        Delta::DownloadedNotYetUsed { path } => (BadgeKind::DownloadReady, path@),
        Delta::UnfinishedDraftSurface { resource } => (BadgeKind::UnfinishedDraft, resource@),
    }
}

/// The kind and subject of each badge.
pub open spec fn badge_views(v: Seq<PodBadge>) -> Seq<(BadgeKind, Seq<char>)> {
    v.map_values(|b: PodBadge| (b.kind, b.subject@))
}

/// Projects the engine's open deltas into badges, one per delta, in
/// order.
pub fn badges_from_bundle(open_deltas: &[Delta]) -> (r: Vec<PodBadge>)
    ensures
        badge_views(r@) == open_deltas@.map_values(|d: Delta| delta_badge(d)),
{
    let mut out: Vec<PodBadge> = Vec::new();
    let mut i: usize = 0;
    while i < open_deltas.len()
        invariant
            i <= open_deltas@.len(),
            badge_views(out@) == open_deltas@.take(i as int).map_values(|d: Delta| delta_badge(d)),
        decreases open_deltas.len() - i,
    {
        let b = match &open_deltas[i] {
            Delta::UnsavedEdits { resource } => PodBadge { kind: BadgeKind::UnsavedEdits, subject: to_owned_string(resource.as_str()) },
            Delta::UncommittedChanges { root } => PodBadge { kind: BadgeKind::Uncommitted, subject: to_owned_string(root.as_str()) },
            Delta::DownloadedNotYetUsed { path } => PodBadge { kind: BadgeKind::DownloadReady, subject: to_owned_string(path.as_str()) },
            Delta::UnfinishedDraftSurface { resource } => PodBadge {
                kind: BadgeKind::UnfinishedDraft,
                subject: to_owned_string(resource.as_str()),
            },
        };
        let ghost before = out@;
        out.push(b);
        assert(badge_views(out@) =~= badge_views(before).push(delta_badge(open_deltas@[i as int])));
        assert(open_deltas@.take(i + 1) =~= open_deltas@.take(i as int).push(open_deltas@[i as int]));
        i = i + 1;
    }
    assert(open_deltas@.take(open_deltas@.len() as int) =~= open_deltas@);
    out
}

/// The label of a badge kind.
pub open spec fn badge_label(k: BadgeKind) -> Seq<char> {
    match k {
        BadgeKind::UnsavedEdits => "unsaved"@,
        BadgeKind::Uncommitted => "uncommitted"@,
        BadgeKind::DownloadReady => "download ready"@,
        BadgeKind::UnfinishedDraft => "unfinished"@,
        BadgeKind::Contested => "shared"@,
    }
}

/// The sort rank of a badge kind: the costliest silent states first.
pub open spec fn badge_rank(k: BadgeKind) -> u8 {
    match k {
        BadgeKind::UnsavedEdits => 0,
        BadgeKind::UnfinishedDraft => 1,
        BadgeKind::Uncommitted => 2,
        BadgeKind::DownloadReady => 3,
        BadgeKind::Contested => 4,
    }
}

impl BadgeKind {
    pub fn label(&self) -> (r: &'static str)
        ensures
            r@ == badge_label(*self),
    {
        match self {
            BadgeKind::UnsavedEdits => "unsaved",
            BadgeKind::Uncommitted => "uncommitted",
            BadgeKind::DownloadReady => "download ready",
            BadgeKind::UnfinishedDraft => "unfinished",
            BadgeKind::Contested => "shared",
        }
    }

    /// Badge sort: the costliest silent states first.
    pub fn rank(&self) -> (r: u8)
        ensures
            r == badge_rank(*self),
    {
        match self {
            BadgeKind::UnsavedEdits => 0,
            BadgeKind::UnfinishedDraft => 1,
            BadgeKind::Uncommitted => 2,
            BadgeKind::DownloadReady => 3,
            BadgeKind::Contested => 4,
        }
    }
}

/// Distinct kinds have distinct ranks: the rank orders badges totally.
pub proof fn lemma_badge_rank_injective(a: BadgeKind, b: BadgeKind)
    ensures
        badge_rank(a) == badge_rank(b) <==> a == b,
{
}

/// Badge `a` is shown before badge `b`: by rank, then by subject.
pub open spec fn badge_before(a: (BadgeKind, Seq<char>), b: (BadgeKind, Seq<char>)) -> bool {
    badge_rank(a.0) < badge_rank(b.0) || (badge_rank(a.0) == badge_rank(b.0) && lex_lt(a.1, b.1))
}

/// Badges in strictly ascending show order (so none twice).
pub open spec fn badges_in_order(v: Seq<(BadgeKind, Seq<char>)>) -> bool {
    forall|i: int, j: int| 0 <= i < j < v.len() ==> badge_before(#[trigger] v[i], #[trigger] v[j])
}

/// The badges a pod shows for its open deltas and contested subjects.
pub open spec fn raw_badges(open_deltas: Seq<Delta>, contested: Seq<String>) -> Seq<(BadgeKind, Seq<char>)> {
    open_deltas.map_values(|d: Delta| delta_badge(d)) + contested.map_values(|s: String| (BadgeKind::Contested, s@))
}

proof fn lemma_before_facts(a: (BadgeKind, Seq<char>), b: (BadgeKind, Seq<char>), c: (BadgeKind, Seq<char>))
    ensures
        !badge_before(a, a),
        badge_before(a, b) ==> !badge_before(b, a),
        badge_before(a, b) && badge_before(b, c) ==> badge_before(a, c),
        a != b ==> badge_before(a, b) || badge_before(b, a),
{
    lemma_lex_irreflexive(a.1);
    lemma_lex_asymmetric(a.1, b.1);
    if lex_lt(a.1, b.1) && lex_lt(b.1, c.1) {
        lemma_lex_transitive(a.1, b.1, c.1);
    }
    lemma_lex_total(a.1, b.1);
    lemma_badge_rank_injective(a.0, b.0);
    if a != b && badge_rank(a.0) == badge_rank(b.0) {
        assert(a.0 == b.0);
        assert(a.1 != b.1);
    }
}

proof fn lemma_push_contains(s: Seq<(BadgeKind, Seq<char>)>, x: (BadgeKind, Seq<char>), y: (BadgeKind, Seq<char>))
    ensures
        s.push(x).contains(y) <==> (s.contains(y) || y == x),
{
    if s.push(x).contains(y) {
        let k = choose|k: int| 0 <= k < s.push(x).len() && s.push(x)[k] == y;
        if k < s.len() {
            assert(s[k] == y);
        }
    }
    if s.contains(y) {
        let k = choose|k: int| 0 <= k < s.len() && s[k] == y;
        assert(s.push(x)[k] == y);
    }
    if y == x {
        assert(s.push(x)[s.len() as int] == y);
    }
}

fn copy_badge(b: &PodBadge) -> (r: PodBadge)
    ensures
        r.kind == b.kind,
        r.subject@ == b.subject@,
{
    PodBadge { kind: b.kind, subject: to_owned_string(b.subject.as_str()) }
}

/// A pod's badges: one per open delta and one per contested subject,
/// shown by rank then subject, each (kind, subject) once.
pub fn pod_badges(open_deltas: &[Delta], contested: &Vec<String>) -> (r: Vec<PodBadge>)
    ensures
        badges_in_order(badge_views(r@)),
        forall|x: (BadgeKind, Seq<char>)| badge_views(r@).contains(x) <==> raw_badges(open_deltas@, contested@).contains(x),
{
    let mut all = badges_from_bundle(open_deltas);
    let ghost first = badge_views(all@);
    let mut c: usize = 0;
    while c < contested.len()
        invariant
            c <= contested@.len(),
            first == open_deltas@.map_values(|d: Delta| delta_badge(d)),
            badge_views(all@) == first + contested@.take(c as int).map_values(|s: String| (BadgeKind::Contested, s@)),
        decreases contested.len() - c,
    {
        let ghost before = badge_views(all@);
        all.push(PodBadge { kind: BadgeKind::Contested, subject: to_owned_string(contested[c].as_str()) });
        assert(badge_views(all@) =~= before.push((BadgeKind::Contested, contested@[c as int]@)));
        assert(contested@.take(c + 1) =~= contested@.take(c as int).push(contested@[c as int]));
        assert(contested@.take(c + 1).map_values(|s: String| (BadgeKind::Contested, s@)) =~= contested@.take(c as int).map_values(
            |s: String| (BadgeKind::Contested, s@),
        ).push((BadgeKind::Contested, contested@[c as int]@)));
        c = c + 1;
    }
    assert(contested@.take(contested@.len() as int) =~= contested@);
    let ghost av = badge_views(all@);
    assert(av == raw_badges(open_deltas@, contested@));
    let mut out: Vec<PodBadge> = Vec::new();
    let mut i: usize = 0;
    while i < all.len()
        invariant
            i <= all@.len(),
            av == badge_views(all@),
            badges_in_order(badge_views(out@)),
            forall|x: (BadgeKind, Seq<char>)| badge_views(out@).contains(x) <==> av.take(i as int).contains(x),
        decreases all.len() - i,
    {
        let b = &all[i];
        let ghost x = (b.kind, b.subject@);
        assert(av[i as int] == x);
        let ghost ov = badge_views(out@);
        // The first kept badge not shown before `b`.
        let mut p: usize = 0;
        while p < out.len() && (out[p].kind.rank() < b.kind.rank()
            || (out[p].kind.rank() == b.kind.rank() && str_less(out[p].subject.as_str(), b.subject.as_str())))
            invariant
                p <= out@.len(),
                ov == badge_views(out@),
                x == (b.kind, b.subject@),
                forall|j: int| 0 <= j < p ==> badge_before(#[trigger] ov[j], x),
            decreases out.len() - p,
        {
            assert(ov[p as int] == (out@[p as int].kind, out@[p as int].subject@));
            p = p + 1;
        }
        let same = p < out.len() && out[p].kind.rank() == b.kind.rank() && str_eq(out[p].subject.as_str(), b.subject.as_str());
        proof {
            if p < out.len() {
                assert(ov[p as int] == (out@[p as int].kind, out@[p as int].subject@));
                assert(!badge_before(ov[p as int], x));
                lemma_badge_rank_injective(ov[p as int].0, x.0);
            }
            assert(av.take(i + 1) =~= av.take(i as int).push(x));
        }
        if !same {
            let nb = copy_badge(b);
            out.insert(p, nb);
            proof {
                let nv = badge_views(out@);
                assert(nv =~= ov.insert(p as int, x));
                if p < ov.len() {
                    lemma_before_facts(ov[p as int], x, x);
                    assert(ov[p as int] != x);
                    assert(badge_before(x, ov[p as int]));
                }
                assert forall|a: int, c2: int| 0 <= a < c2 < nv.len() implies badge_before(#[trigger] nv[a], #[trigger] nv[c2]) by {
                    if c2 < p {
                        assert(nv[a] == ov[a] && nv[c2] == ov[c2]);
                    } else if c2 == p {
                        assert(nv[a] == ov[a]);
                    } else if a == p {
                        assert(nv[c2] == ov[c2 - 1]);
                        if c2 - 1 > p {
                            lemma_before_facts(x, ov[p as int], ov[c2 - 1]);
                        }
                    } else if a < p {
                        assert(nv[a] == ov[a] && nv[c2] == ov[c2 - 1]);
                    } else {
                        assert(nv[a] == ov[a - 1] && nv[c2] == ov[c2 - 1]);
                    }
                }
                assert forall|y: (BadgeKind, Seq<char>)| nv.contains(y) <==> av.take(i + 1).contains(y) by {
                    lemma_push_contains(av.take(i as int), x, y);
                    if nv.contains(y) {
                        let k = choose|k: int| 0 <= k < nv.len() && nv[k] == y;
                        if k < p {
                            assert(ov[k] == y);
                        } else if k > p {
                            assert(ov[k - 1] == y);
                        }
                    }
                    if ov.contains(y) {
                        let k = choose|k: int| 0 <= k < ov.len() && ov[k] == y;
                        if k < p {
                            assert(nv[k] == y);
                        } else {
                            assert(nv[k + 1] == y);
                        }
                    }
                    if y == x {
                        assert(nv[p as int] == x);
                    }
                }
            }
        } else {
            proof {
                assert(ov[p as int] == x);
                assert forall|y: (BadgeKind, Seq<char>)| ov.contains(y) <==> av.take(i + 1).contains(y) by {
                    lemma_push_contains(av.take(i as int), x, y);
                    if y == x {
                        assert(ov[p as int] == y);
                    }
                }
            }
        }
        i = i + 1;
    }
    assert(av.take(all@.len() as int) =~= av);
    out
}

/// One witnessed, still-open window the person said belongs to this work.
#[derive(Debug, Clone, PartialEq, Eq)]
pub enum PodClaim {
    /// The OS reported a document (path or URL) for the window.
    Document(String),
    /// Only the window title was knowable.
    Title(String),
}

/// The subject a claim names.
pub open spec fn claim_subject(c: PodClaim) -> Seq<char> {
    match c {
        PodClaim::Document(v) => v@,
        PodClaim::Title(v) => v@,
    }
}

impl PodClaim {
    pub fn subject(&self) -> (r: &str)
        ensures
            r@ == claim_subject(*self),
    {
        match self {
            PodClaim::Document(v) => v.as_str(),
            PodClaim::Title(v) => v.as_str(),
        }
    }

    pub fn kind_label(&self) -> (r: &'static str)
        ensures
            r@ == match self {
                PodClaim::Document(_) => "claimed document"@,
                PodClaim::Title(_) => "claimed window"@,
            },
    {
        match self {
            PodClaim::Document(_) => "claimed document",
            PodClaim::Title(_) => "claimed window",
        }
    }
}

/// A launch the platform should perform: a pure value.
#[derive(Debug, Clone, PartialEq, Eq)]
pub struct CommandSpec {
    pub program: String,
    pub args: Vec<String>,
}

/// One running application, as the surface reports it.
#[derive(Debug, Clone, PartialEq, Eq)]
pub struct PodApp {
    pub pid: i32,
    /// Localized application name.
    pub name: String,
    /// Whether the application is currently hidden.
    pub hidden: bool,
    /// A regular GUI application (the dock and system agents are not).
    pub regular: bool,
}

/// One named thing a person added so the pod can re-open it.
#[derive(Debug, Clone, PartialEq, Eq)]
pub enum PodResource {
    App(String),
    File(String),
    Folder(String),
    Url(String),
}

/// The value a resource names.
pub open spec fn resource_value(r: PodResource) -> Seq<char> {
    match r {
        PodResource::App(v) => v@,
        PodResource::File(v) => v@,
        PodResource::Folder(v) => v@,
        PodResource::Url(v) => v@,
    }
}

/// The characters of each string.
pub open spec fn strings_view(v: Seq<String>) -> Seq<Seq<char>> {
    v.map_values(|s: String| s@)
}

impl PodResource {
    pub fn value(&self) -> (r: &str)
        ensures
            r@ == resource_value(*self),
    {
        match self {
            PodResource::App(v) => v.as_str(),
            PodResource::File(v) => v.as_str(),
            PodResource::Folder(v) => v.as_str(),
            PodResource::Url(v) => v.as_str(),
        }
    }

    pub fn kind_label(&self) -> (r: &'static str)
        ensures
            r@ == match self {
                PodResource::App(_) => "app"@,
                PodResource::File(_) => "file"@,
                PodResource::Folder(_) => "folder"@,
                PodResource::Url(_) => "link"@,
            },
    {
        match self {
            PodResource::App(_) => "app",
            PodResource::File(_) => "file",
            PodResource::Folder(_) => "folder",
            PodResource::Url(_) => "link",
        }
    }

    /// The one-command open, always through `/usr/bin/open`: `open -a NAME`
    /// for an app, `open VALUE` for files, folders and URLs.
    pub fn open_spec(&self) -> (r: CommandSpec)
        ensures
            r.program@ == "/usr/bin/open"@,
            strings_view(r.args@) == match self {
                PodResource::App(name) => seq!["-a"@, name@],
                _ => seq![resource_value(*self)],
            },
    {
        let mut args: Vec<String> = Vec::new();
        match self {
            PodResource::App(name) => {
                args.push(to_owned_string("-a"));
                args.push(name.clone());
            },
            _ => {
                args.push(to_owned_string(self.value()));
            },
        }
        let r = CommandSpec { program: to_owned_string("/usr/bin/open"), args };
        assert(strings_view(r.args@) =~= match self {
            PodResource::App(name) => seq!["-a"@, name@],
            _ => seq![resource_value(*self)],
        });
        r
    }
}

/// The work's evidence, projected for window matching and restores:
/// documents stronger than pages stronger than titles.
#[derive(Debug, Clone, PartialEq, Eq)]
pub struct PodSurfaces {
    /// Raw URLs the work touched.
    pub urls: Vec<String>,
    /// Document paths or URLs the work touched.
    pub documents: Vec<String>,
    /// Window titles captured for the work.
    pub titles: Vec<String>,
    /// Application names witnessed for the work.
    pub apps: Vec<String>,
    /// The app each resource was most recently witnessed in.
    pub resource_apps: BTreeMap<String, String>,
}

fn contains_text(v: &Vec<String>, s: &String) -> (r: bool)
    ensures
        r == strings_view(v@).contains(s@),
{
    let ghost sv = strings_view(v@);
    let mut i: usize = 0;
    while i < v.len()
        invariant
            i <= v.len(),
            sv == strings_view(v@),
            forall|j: int| 0 <= j < i ==> sv[j] != s@,
        decreases v.len() - i,
    {
        assert(sv[i as int] == v@[i as int]@);
        if str_eq(v[i].as_str(), s.as_str()) {
            return true;
        }
        i = i + 1;
    }
    false
}

impl PodSurfaces {
    /// Whether the work has no apps, documents, pages or titles.
    pub fn is_empty(&self) -> (r: bool)
        ensures
            r == (self.apps@.len() == 0 && self.documents@.len() == 0 && self.urls@.len() == 0
                && self.titles@.len() == 0),
    {
        self.apps.len() == 0 && self.documents.len() == 0 && self.urls.len() == 0
            && self.titles.len() == 0
    }

    /// Absorbs one user claim into the evidence, without duplicates;
    /// returns whether the surface changed.
    pub fn absorb_claim(&mut self, claim: &PodClaim) -> (changed: bool)
        ensures
            final(self).urls@ == old(self).urls@,
            final(self).apps@ == old(self).apps@,
            final(self).resource_apps == old(self).resource_apps,
            match claim {
                PodClaim::Document(doc) => {
                    &&& changed == !strings_view(old(self).documents@).contains(doc@)
                    &&& final(self).titles@ == old(self).titles@
                    &&& strings_view(final(self).documents@) == if changed {
                        strings_view(old(self).documents@).push(doc@)
                    } else {
                        strings_view(old(self).documents@)
                    }
                },
                PodClaim::Title(title) => {
                    &&& changed == !strings_view(old(self).titles@).contains(title@)
                    &&& final(self).documents@ == old(self).documents@
                    &&& strings_view(final(self).titles@) == if changed {
                        strings_view(old(self).titles@).push(title@)
                    } else {
                        strings_view(old(self).titles@)
                    }
                },
            },
    {
        match claim {
            PodClaim::Document(doc) => {
                if !contains_text(&self.documents, doc) {
                    let ghost before = strings_view(self.documents@);
                    self.documents.push(doc.clone());
                    assert(strings_view(self.documents@) =~= before.push(doc@));
                    true
                } else {
                    false
                }
            },
            PodClaim::Title(title) => {
                if !contains_text(&self.titles, title) {
                    let ghost before = strings_view(self.titles@);
                    self.titles.push(title.clone());
                    assert(strings_view(self.titles@) =~= before.push(title@));
                    true
                } else {
                    false
                }
            },
        }
    }
}

/// Where a pod is.
#[derive(Debug, Clone, Copy, PartialEq, Eq)]
pub enum PodState {
    /// Off screen.
    Inactive,
    /// The desktop is arranged for this pod.
    Active,
    /// Apps quit, recipe persisted.
    Mothballed,
}

} // verus!
