//! Containment: what entering a pod does to everything that is not the pod.
//!
//! Under-containment: a doubtful window stays fully visible. Protection:
//! protected processes are never veiled, parked or hidden. Every verb the
//! plan issues is listed, so leaving can replay it backwards.

use vstd::prelude::*;
use crate::pods::config::ContainMode;
use crate::pods::pod::{PodApp, PodSurfaces, strings_view};
use crate::text::{has_prefix, str_eq, starts_with};
use crate::chars::slice;

verus! {

broadcast use vstd::seq_lib::group_seq_properties;

/// Why a window belongs to the pod, in match-strength order: documents
/// are produced work, pages are attended work, titles the coarsest
/// witness.
#[derive(Debug, Clone, Copy, PartialEq, Eq, PartialOrd, Ord)]
pub enum WindowMatch {
    NoMatch,
    Title,
    Page,
    Document,
}

/// The strength of a match.
pub open spec fn match_rank(m: WindowMatch) -> u8 {
    match m {
        WindowMatch::NoMatch => 0,
        WindowMatch::Title => 1,
        WindowMatch::Page => 2,
        WindowMatch::Document => 3,
    }
}

impl WindowMatch {
    fn rank(self) -> (r: u8)
        ensures
            r == match_rank(self),
    {
        match self {
            WindowMatch::NoMatch => 0,
            WindowMatch::Title => 1,
            WindowMatch::Page => 2,
            WindowMatch::Document => 3,
        }
    }

    /// Whether the match makes the window the pod's: any match but none.
    pub fn belongs(self) -> (r: bool)
        ensures
            r == (match_rank(self) >= 1),
            r == !(self is NoMatch),
    {
        self.rank() >= 1
    }
}

/// What the containment logic reads of one live window.
#[derive(Debug, Clone, PartialEq, Eq)]
pub struct WindowFacts {
    /// Owning application pid.
    pub pid: i32,
    /// Owning application's localized name.
    pub owner: String,
    /// The window's exact title ("" when the OS exposes none).
    pub title: String,
    /// The OS-reported document: a URL for browsers, a file for editors.
    pub ax_document: Option<String>,
    /// The system window id.
    pub window_id: u32,
    /// Whether the window is minimized.
    pub minimized: bool,
    /// Whether its frame has positive area on finite coordinates.
    pub frame_usable: bool,
}

/// The content of [`WindowFacts`].
pub struct WindowModel {
    pub pid: i32,
    pub owner: Seq<char>,
    pub title: Seq<char>,
    pub ax_document: Option<Seq<char>>,
    pub window_id: u32,
    pub minimized: bool,
    pub frame_usable: bool,
}

impl View for WindowFacts {
    type V = WindowModel;

    open spec fn view(&self) -> WindowModel {
        WindowModel {
            pid: self.pid,
            owner: self.owner@,
            title: self.title@,
            ax_document: match self.ax_document {
                Some(d) => Some(d@),
                None => None,
            },
            window_id: self.window_id,
            minimized: self.minimized,
            frame_usable: self.frame_usable,
        }
    }
}

/// The evidence of a pod as texts: documents, URLs, titles and apps.
pub struct SurfacesModel {
    pub documents: Seq<Seq<char>>,
    pub urls: Seq<Seq<char>>,
    pub titles: Seq<Seq<char>>,
    pub apps: Seq<Seq<char>>,
}

/// The evidence of a pod as texts.
pub open spec fn surfaces_model(s: PodSurfaces) -> SurfacesModel {
    SurfacesModel {
        documents: strings_view(s.documents@),
        urls: strings_view(s.urls@),
        titles: strings_view(s.titles@),
        apps: strings_view(s.apps@),
    }
}

/// A locator without a leading `file://`.
pub open spec fn strip_file(s: Seq<char>) -> Seq<char> {
    if has_prefix(s, "file://"@) {
        s.skip("file://"@.len() as int)
    } else {
        s
    }
}

/// The first known document, from `i` on, that names the same file.
pub open spec fn find_doc(docs: Seq<Seq<char>>, d: Seq<char>, i: int) -> Option<int>
    decreases docs.len() - i,
{
    if i < 0 || i >= docs.len() {
        None
    } else if strip_file(docs[i]) == d {
        Some(i)
    } else {
        find_doc(docs, d, i + 1)
    }
}

/// How a window matches a pod's evidence, strongest rule first.
pub open spec fn match_of(w: WindowModel, s: SurfacesModel) -> WindowMatch {
    if w.ax_document is Some && find_doc(s.documents, strip_file(w.ax_document->0), 0) is Some {
        WindowMatch::Document
    } else if w.ax_document is Some && s.urls.contains(w.ax_document->0) {
        WindowMatch::Page
    } else if w.title.len() > 0 && s.titles.contains(w.title) {
        WindowMatch::Title
    } else {
        WindowMatch::NoMatch
    }
}

/// The resource a window would choreograph to: the known document, the
/// page, else the title.
pub open spec fn resource_for(w: WindowModel, s: SurfacesModel) -> Option<Seq<char>> {
    if w.ax_document is Some && find_doc(s.documents, strip_file(w.ax_document->0), 0) is Some {
        Some(s.documents[find_doc(s.documents, strip_file(w.ax_document->0), 0)->0])
    } else if w.ax_document is Some && s.urls.contains(w.ax_document->0) {
        w.ax_document
    } else if w.title.len() > 0 && s.titles.contains(w.title) {
        Some(w.title)
    } else {
        None
    }
}

fn strip_file_chars(s: &str) -> (r: Vec<char>)
    ensures
        r@ == strip_file(s@),
{
    let v = crate::text::chars_of(s);
    if starts_with(s, "file://") {
        let n = crate::text::chars_of("file://").len();
        let r = slice(&v, n, v.len());
        assert(r@ =~= s@.skip("file://"@.len() as int));
        r
    } else {
        slice(&v, 0, v.len())
    }
}

fn find_doc_index(docs: &Vec<String>, doc: &str) -> (r: Option<usize>)
    ensures
        match r {
            Some(i) => i < docs@.len() && find_doc(strings_view(docs@), strip_file(doc@), 0) == Some(
                i as int,
            ),
            None => find_doc(strings_view(docs@), strip_file(doc@), 0) is None,
        },
{
    let ghost dv = strings_view(docs@);
    let d = strip_file_chars(doc);
    let mut i: usize = 0;
    while i < docs.len()
        invariant
            i <= docs@.len(),
            dv == strings_view(docs@),
            d@ == strip_file(doc@),
            find_doc(dv, d@, 0) == find_doc(dv, d@, i as int),
        decreases docs.len() - i,
    {
        let k = strip_file_chars(docs[i].as_str());
        assert(dv[i as int] == docs@[i as int]@);
        if crate::text::seq_eq(&k, &d) {
            return Some(i);
        }
        i = i + 1;
    }
    None
}

fn contains_str(v: &Vec<String>, s: &str) -> (r: bool)
    ensures
        r == strings_view(v@).contains(s@),
{
    let ghost sv = strings_view(v@);
    let mut i: usize = 0;
    while i < v.len()
        invariant
            i <= v@.len(),
            sv == strings_view(v@),
            forall|j: int| 0 <= j < i ==> sv[j] != s@,
        decreases v.len() - i,
    {
        assert(sv[i as int] == v@[i as int]@);
        if str_eq(v[i].as_str(), s) {
            return true;
        }
        i = i + 1;
    }
    false
}

/// Matches a live window against the work's own evidence, strongest rule
/// first; nothing by application category.
pub fn window_match(window: &WindowFacts, surfaces: &PodSurfaces) -> (r: WindowMatch)
    ensures
        r == match_of(window@, surfaces_model(*surfaces)),
{
    if let Some(doc) = &window.ax_document {
        if find_doc_index(&surfaces.documents, doc.as_str()).is_some() {
            return WindowMatch::Document;
        }
        if contains_str(&surfaces.urls, doc.as_str()) {
            return WindowMatch::Page;
        }
    }
    if !window.title.as_str().is_empty() && contains_str(&surfaces.titles, window.title.as_str()) {
        return WindowMatch::Title;
    }
    WindowMatch::NoMatch
}

fn resource_of(window: &WindowFacts, surfaces: &PodSurfaces) -> (r: Option<String>)
    ensures
        match r {
            Some(s) => resource_for(window@, surfaces_model(*surfaces)) == Some(s@),
            None => resource_for(window@, surfaces_model(*surfaces)) is None,
        },
{
    if let Some(doc) = &window.ax_document {
        if let Some(i) = find_doc_index(&surfaces.documents, doc.as_str()) {
            assert(strings_view(surfaces.documents@)[i as int] == surfaces.documents@[i as int]@);
            return Some(surfaces.documents[i].clone());
        }
        if contains_str(&surfaces.urls, doc.as_str()) {
            return Some(doc.clone());
        }
    }
    if !window.title.as_str().is_empty() && contains_str(&surfaces.titles, window.title.as_str()) {
        return Some(window.title.clone());
    }
    None
}

/// A plan is impossible only when the surface cannot be read.
#[derive(Debug, Clone, PartialEq, Eq)]
pub enum PlanError {
    Surface(String),
}


// ── Activation plan ────────────────────────────────────────────────────────

/// A pod window to raise; placing it by the recipe happens outside the
/// plan, from its resource.
#[derive(Debug, Clone, PartialEq, Eq)]
pub struct Arrangement {
    pub pid: i32,
    pub window_id: u32,
    /// The resource this window matched (the recipe lookup key).
    pub resource: Option<String>,
    pub raise_rank: u8,
}

/// The content of an [`Arrangement`].
pub struct ArrangementModel {
    pub pid: i32,
    pub window_id: u32,
    pub resource: Option<Seq<char>>,
    pub raise_rank: u8,
}

impl View for Arrangement {
    type V = ArrangementModel;

    open spec fn view(&self) -> ArrangementModel {
        ArrangementModel {
            pid: self.pid,
            window_id: self.window_id,
            resource: match self.resource {
                Some(r) => Some(r@),
                None => None,
            },
            raise_rank: self.raise_rank,
        }
    }
}

/// Every verb one activation issues.
#[derive(Debug, Clone, PartialEq, Eq)]
pub struct ActivationPlan {
    /// Pod windows to raise, strongest last (the hero lands on top).
    pub arrange: Vec<Arrangement>,
    /// The pod's own minimized windows to bring back first (stage mode).
    pub unpark_members: Vec<(i32, u32)>,
    /// Foreign windows to minimize (park mode; in stage mode, those of the
    /// pod's apps).
    pub park: Vec<(i32, u32)>,
    /// Foreign on-screen windows to veil (dim mode).
    pub veil: Vec<(i32, u32)>,
    /// Foreign regular apps to hide (hide mode).
    pub hide_apps: Vec<i32>,
    /// The pod's own hidden apps that must come back.
    pub unhide_apps: Vec<i32>,
    /// The pod app to make frontmost (the hero's owner).
    pub activate: Option<i32>,
}

/// The content of each arrangement.
pub open spec fn arrangement_views(v: Seq<Arrangement>) -> Seq<ArrangementModel> {
    v.map_values(|a: Arrangement| a@)
}

/// The content of each window.
pub open spec fn window_views(v: Seq<WindowFacts>) -> Seq<WindowModel> {
    v.map_values(|w: WindowFacts| w@)
}

/// A window of the pod that activation arranges: not protected, not
/// minimized in park mode, and matched by the pod's evidence.
pub open spec fn own_window(w: WindowModel, s: SurfacesModel, protected: Seq<i32>, mode: ContainMode) -> bool {
    !protected.contains(w.pid) && !(w.minimized && mode == ContainMode::Park) && !(match_of(
        w,
        s,
    ) is NoMatch)
}

/// The arrangement of one of the pod's windows.
pub open spec fn arrangement_for(w: WindowModel, s: SurfacesModel) -> ArrangementModel {
    ArrangementModel {
        pid: w.pid,
        window_id: w.window_id,
        resource: resource_for(w, s),
        raise_rank: match_rank(match_of(w, s)),
    }
}

/// The arrangements of the pod's windows, in window order.
pub open spec fn own_arrangements(
    ws: Seq<WindowModel>,
    s: SurfacesModel,
    protected: Seq<i32>,
    mode: ContainMode,
) -> Seq<ArrangementModel>
    decreases ws.len(),
{
    if ws.len() == 0 {
        Seq::empty()
    } else {
        let prev = own_arrangements(ws.drop_last(), s, protected, mode);
        if own_window(ws.last(), s, protected, mode) {
            prev.push(arrangement_for(ws.last(), s))
        } else {
            prev
        }
    }
}

/// The raise order of an arrangement: by match strength, then window id.
pub open spec fn arr_key(a: ArrangementModel) -> int {
    a.raise_rank as int * 4294967296 + a.window_id as int
}

/// `r` is `s` sorted by raise order, equal keys kept in their order.
pub open spec fn stably_sorted(r: Seq<ArrangementModel>, s: Seq<ArrangementModel>) -> bool {
    &&& forall|i: int, j: int| 0 <= i < j < r.len() ==> arr_key(#[trigger] r[i]) <= arr_key(
        #[trigger] r[j],
    )
    &&& forall|k: int| #[trigger] with_key(r, k) == with_key(s, k)
}

/// The elements of `r` whose raise-order key is `k`, in order.
pub open spec fn with_key(r: Seq<ArrangementModel>, k: int) -> Seq<ArrangementModel> {
    r.filter(|a: ArrangementModel| arr_key(a) == k)
}

/// Whether `pid` is the pod's: a witnessed app of the work, or the owner
/// of one of its windows.
pub open spec fn in_pod(
    pid: i32,
    apps: Seq<PodApp>,
    ws: Seq<WindowModel>,
    s: SurfacesModel,
    protected: Seq<i32>,
    mode: ContainMode,
) -> bool {
    (exists|i: int| 0 <= i < apps.len() && (#[trigger] apps[i]).pid == pid && s.apps.contains(
        apps[i].name@,
    )) || (exists|i: int| 0 <= i < ws.len() && (#[trigger] ws[i]).pid == pid && own_window(
        ws[i],
        s,
        protected,
        mode,
    ))
}

/// Whether the app owning `pid` is a regular app; unknown owners count as
/// regular.
pub open spec fn owner_regular(apps: Seq<PodApp>, pid: i32) -> bool
    decreases apps.len(),
{
    if apps.len() == 0 {
        true
    } else if apps[0].pid == pid {
        apps[0].regular
    } else {
        owner_regular(apps.drop_first(), pid)
    }
}

/// A foreign window containment may act on: not protected, on screen,
/// not the pod's, and owned by a regular app.
pub open spec fn foreign_window(w: WindowModel, s: SurfacesModel, apps: Seq<PodApp>, protected: Seq<i32>) -> bool {
    !protected.contains(w.pid) && !w.minimized && match_of(w, s) is NoMatch && owner_regular(
        apps,
        w.pid,
    )
}

/// The foreign windows acted on, as `(pid, window id)`: under `dim` the
/// usable ones are veiled, under `park` all are minimized.
pub open spec fn foreign_list(
    ws: Seq<WindowModel>,
    s: SurfacesModel,
    apps: Seq<PodApp>,
    protected: Seq<i32>,
    veil: bool,
) -> Seq<(i32, u32)>
    decreases ws.len(),
{
    if ws.len() == 0 {
        Seq::empty()
    } else {
        let prev = foreign_list(ws.drop_last(), s, apps, protected, veil);
        let w = ws.last();
        if foreign_window(w, s, apps, protected) && (!veil || w.frame_usable) {
            prev.push((w.pid, w.window_id))
        } else {
            prev
        }
    }
}

/// The pod's minimized windows that stage mode brings back, as
/// `(pid, window id)`, in window order.
pub open spec fn unpark_list(ws: Seq<WindowModel>, s: SurfacesModel, protected: Seq<i32>, mode: ContainMode) -> Seq<(i32, u32)>
    decreases ws.len(),
{
    if ws.len() == 0 {
        Seq::empty()
    } else {
        let prev = unpark_list(ws.drop_last(), s, protected, mode);
        let w = ws.last();
        if mode == ContainMode::Stage && w.minimized && own_window(w, s, protected, mode) {
            prev.push((w.pid, w.window_id))
        } else {
            prev
        }
    }
}

/// The foreign windows stage mode minimizes one by one: those whose app is
/// the pod's too (an app witnessed inside and outside the work).
pub open spec fn split_list(
    ws: Seq<WindowModel>,
    all_ws: Seq<WindowModel>,
    s: SurfacesModel,
    apps: Seq<PodApp>,
    protected: Seq<i32>,
    mode: ContainMode,
) -> Seq<(i32, u32)>
    decreases ws.len(),
{
    if ws.len() == 0 {
        Seq::empty()
    } else {
        let prev = split_list(ws.drop_last(), all_ws, s, apps, protected, mode);
        let w = ws.last();
        if foreign_window(w, s, apps, protected) && in_pod(w.pid, apps, all_ws, s, protected, mode) {
            prev.push((w.pid, w.window_id))
        } else {
            prev
        }
    }
}

/// The apps to hide: under `hide` and `stage`, every regular, visible,
/// unprotected app that is not the pod's.
pub open spec fn hide_list(
    apps: Seq<PodApp>,
    all: Seq<PodApp>,
    ws: Seq<WindowModel>,
    s: SurfacesModel,
    protected: Seq<i32>,
    mode: ContainMode,
) -> Seq<i32>
    decreases apps.len(),
{
    if apps.len() == 0 {
        Seq::empty()
    } else {
        let prev = hide_list(apps.drop_last(), all, ws, s, protected, mode);
        let a = apps.last();
        if !protected.contains(a.pid) && (mode == ContainMode::Hide || mode == ContainMode::Stage) && a.regular && !a.hidden
            && !in_pod(a.pid, all, ws, s, protected, mode) {
            prev.push(a.pid)
        } else {
            prev
        }
    }
}

/// The apps to unhide: the pod's own hidden, unprotected apps.
pub open spec fn unhide_list(
    apps: Seq<PodApp>,
    all: Seq<PodApp>,
    ws: Seq<WindowModel>,
    s: SurfacesModel,
    protected: Seq<i32>,
    mode: ContainMode,
) -> Seq<i32>
    decreases apps.len(),
{
    if apps.len() == 0 {
        Seq::empty()
    } else {
        let prev = unhide_list(apps.drop_last(), all, ws, s, protected, mode);
        let a = apps.last();
        if !protected.contains(a.pid) && in_pod(a.pid, all, ws, s, protected, mode) && a.hidden {
            prev.push(a.pid)
        } else {
            prev
        }
    }
}


proof fn lemma_insert_stable(out: Seq<ArrangementModel>, p: int, x: ArrangementModel)
    requires
        0 <= p <= out.len(),
        forall|i: int, j: int| 0 <= i < j < out.len() ==> arr_key(#[trigger] out[i]) <= arr_key(
            #[trigger] out[j],
        ),
        forall|j: int| 0 <= j < p ==> arr_key(#[trigger] out[j]) <= arr_key(x),
        forall|j: int| p <= j < out.len() ==> arr_key(#[trigger] out[j]) > arr_key(x),
    ensures
        forall|i: int, j: int|
            0 <= i < j < out.insert(p, x).len() ==> arr_key(#[trigger] out.insert(p, x)[i])
                <= arr_key(#[trigger] out.insert(p, x)[j]),
        forall|k: int| #[trigger]
            with_key(out.insert(p, x), k) == if k == arr_key(x) {
                with_key(out, k).push(x)
            } else {
                with_key(out, k)
            },
{
    let n = out.insert(p, x);
    assert forall|i: int, j: int| 0 <= i < j < n.len() implies arr_key(#[trigger] n[i]) <= arr_key(
        #[trigger] n[j],
    ) by {
        if j < p {
            assert(n[i] == out[i] && n[j] == out[j]);
        } else if j == p {
            assert(n[i] == out[i]);
        } else if i == p {
            assert(n[j] == out[j - 1]);
        } else if i < p {
            assert(n[i] == out[i] && n[j] == out[j - 1]);
        } else {
            assert(n[i] == out[i - 1] && n[j] == out[j - 1]);
        }
    }
    let a = out.take(p);
    let b = out.skip(p);
    assert(out =~= a + b);
    assert(n =~= a.push(x) + b);
    assert forall|k: int| #[trigger]
        with_key(n, k) == if k == arr_key(x) {
            with_key(out, k).push(x)
        } else {
            with_key(out, k)
        } by {
        let pred = |y: ArrangementModel| arr_key(y) == k;
        Seq::filter_distributes_over_add(a.push(x), b, pred);
        Seq::filter_distributes_over_add(a, b, pred);
        a.lemma_filter_push(x, pred);
        if k == arr_key(x) {
            assert forall|j: int| 0 <= j < b.len() implies !pred(#[trigger] b[j]) by {
                assert(b[j] == out[p + j]);
            }
            b.lemma_all_neg_filter_empty(pred);
            assert(b.filter(pred) =~= Seq::<ArrangementModel>::empty());
            assert(a.filter(pred).push(x) + b.filter(pred) =~= (a.filter(pred) + b.filter(
                pred,
            )).push(x));
        }
    }
}

fn copy_arrangement(a: &Arrangement) -> (r: Arrangement)
    ensures
        r@ == a@,
{
    Arrangement {
        pid: a.pid,
        window_id: a.window_id,
        resource: match &a.resource {
            Some(s) => Some(s.clone()),
            None => None,
        },
        raise_rank: a.raise_rank,
    }
}

fn key_less(a: &Arrangement, b: &Arrangement) -> (r: bool)
    ensures
        r == (arr_key(a@) < arr_key(b@)),
{
    a.raise_rank < b.raise_rank || (a.raise_rank == b.raise_rank && a.window_id < b.window_id)
}

/// The arrangements in raise order: by match strength, then window id,
/// equal keys in their original order.
fn sort_arrangements(v: &Vec<Arrangement>) -> (r: Vec<Arrangement>)
    ensures
        stably_sorted(arrangement_views(r@), arrangement_views(v@)),
{
    let ghost vv = arrangement_views(v@);
    let mut out: Vec<Arrangement> = Vec::new();
    let mut i: usize = 0;
    assert forall|k: int| #[trigger] with_key(arrangement_views(out@), k) == with_key(vv.take(0), k) by {
        assert(arrangement_views(out@) =~= vv.take(0));
    }
    while i < v.len()
        invariant
            i <= v.len(),
            vv == arrangement_views(v@),
            forall|a: int, b: int|
                0 <= a < b < out@.len() ==> arr_key(#[trigger] arrangement_views(out@)[a])
                    <= arr_key(#[trigger] arrangement_views(out@)[b]),
            forall|k: int| #[trigger]
                with_key(arrangement_views(out@), k) == with_key(vv.take(i as int), k),
        decreases v.len() - i,
    {
        let x = copy_arrangement(&v[i]);
        let mut p: usize = 0;
        while p < out.len() && !key_less(&x, &out[p])
            invariant
                p <= out@.len(),
                forall|j: int| 0 <= j < p ==> arr_key(#[trigger] arrangement_views(out@)[j])
                    <= arr_key(x@),
            decreases out.len() - p,
        {
            assert(arrangement_views(out@)[p as int] == out@[p as int]@);
            p = p + 1;
        }
        let ghost ov = arrangement_views(out@);
        proof {
            assert forall|j: int| p <= j < ov.len() implies arr_key(#[trigger] ov[j]) > arr_key(x@) by {
                assert(ov[p as int] == out@[p as int]@);
                if j > p {
                    assert(arr_key(ov[p as int]) <= arr_key(ov[j]));
                }
            }
            lemma_insert_stable(ov, p as int, x@);
        }
        out.insert(p, x);
        proof {
            assert(arrangement_views(out@) =~= ov.insert(p as int, vv[i as int]));
            assert(vv.take(i + 1) =~= vv.take(i as int).push(vv[i as int]));
            assert forall|k: int| #[trigger] with_key(arrangement_views(out@), k) == with_key(
                vv.take(i + 1),
                k,
            ) by {
                vv.take(i as int).lemma_filter_push(vv[i as int], |a: ArrangementModel| arr_key(a)
                    == k);
            }
        }
        i = i + 1;
    }
    assert(vv.take(v.len() as int) =~= vv);
    out
}


fn contains_pid(v: &[i32], pid: i32) -> (r: bool)
    ensures
        r == v@.contains(pid),
{
    let mut i: usize = 0;
    while i < v.len()
        invariant
            i <= v@.len(),
            forall|j: int| 0 <= j < i ==> v@[j] != pid,
        decreases v.len() - i,
    {
        if v[i] == pid {
            assert(v@[i as int] == pid);
            return true;
        }
        i = i + 1;
    }
    false
}

fn owner_regular_of(apps: &[PodApp], pid: i32) -> (r: bool)
    ensures
        r == owner_regular(apps@, pid),
{
    let mut i: usize = 0;
    assert(apps@.skip(0) =~= apps@);
    while i < apps.len()
        invariant
            i <= apps@.len(),
            owner_regular(apps@, pid) == owner_regular(apps@.skip(i as int), pid),
        decreases apps.len() - i,
    {
        assert(apps@.skip(i as int)[0] == apps@[i as int]);
        if apps[i].pid == pid {
            return apps[i].regular;
        }
        assert(apps@.skip(i as int).drop_first() =~= apps@.skip(i + 1));
        i = i + 1;
    }
    true
}

fn is_own_window(w: &WindowFacts, surfaces: &PodSurfaces, protected: &[i32], mode: ContainMode) -> (r: (
    bool,
    WindowMatch,
))
    ensures
        r.0 == own_window(w@, surfaces_model(*surfaces), protected@, mode),
        r.1 == match_of(w@, surfaces_model(*surfaces)),
{
    let m = window_match(w, surfaces);
    let own = !contains_pid(protected, w.pid) && !(w.minimized && mode == ContainMode::Park)
        && m.belongs();
    (own, m)
}

/// Computes the activation of a pod in `mode`: the pod's windows to raise
/// in raise order (strongest last), the foreign windows to veil (dim) or
/// park (park), the foreign apps to hide (hide), the pod's hidden apps to
/// bring back, and the app to make frontmost. Protected processes are
/// never touched; a doubtful window is never contained.
pub fn plan_activation(
    surfaces: &PodSurfaces,
    windows_all: &[WindowFacts],
    apps: &[PodApp],
    protected: &[i32],
    mode: ContainMode,
) -> (r: ActivationPlan)
    ensures
        stably_sorted(
            arrangement_views(r.arrange@),
            own_arrangements(window_views(windows_all@), surfaces_model(*surfaces), protected@, mode),
        ),
        r.activate == if r.arrange@.len() > 0 {
            Some(r.arrange@.last().pid)
        } else {
            None
        },
        r.veil@ == if mode == ContainMode::Dim {
            foreign_list(window_views(windows_all@), surfaces_model(*surfaces), apps@, protected@, true)
        } else {
            Seq::empty()
        },
        r.park@ == if mode == ContainMode::Park {
            foreign_list(window_views(windows_all@), surfaces_model(*surfaces), apps@, protected@, false)
        } else if mode == ContainMode::Stage {
            split_list(
                window_views(windows_all@),
                window_views(windows_all@),
                surfaces_model(*surfaces),
                apps@,
                protected@,
                mode,
            )
        } else {
            Seq::empty()
        },
        r.unpark_members@ == unpark_list(window_views(windows_all@), surfaces_model(*surfaces), protected@, mode),
        r.hide_apps@ == hide_list(
            apps@,
            apps@,
            window_views(windows_all@),
            surfaces_model(*surfaces),
            protected@,
            mode,
        ),
        r.unhide_apps@ == unhide_list(
            apps@,
            apps@,
            window_views(windows_all@),
            surfaces_model(*surfaces),
            protected@,
            mode,
        ),
{
    let ghost sm = surfaces_model(*surfaces);
    let ghost ws = window_views(windows_all@);
    let mut pod_pids: Vec<i32> = Vec::new();
    let mut i: usize = 0;
    while i < apps.len()
        invariant
            i <= apps@.len(),
            sm == surfaces_model(*surfaces),
            forall|pid: i32| #[trigger] pod_pids@.contains(pid) <==> exists|j: int|
                0 <= j < i && (#[trigger] apps@[j]).pid == pid && sm.apps.contains(apps@[j].name@),
        decreases apps.len() - i,
    {
        if contains_str(&surfaces.apps, apps[i].name.as_str()) {
            let ghost before = pod_pids@;
            pod_pids.push(apps[i].pid);
            proof {
                assert forall|pid: i32| #[trigger] pod_pids@.contains(pid) <==> exists|j: int|
                    0 <= j < i + 1 && (#[trigger] apps@[j]).pid == pid && sm.apps.contains(
                        apps@[j].name@,
                    ) by {
                    if pod_pids@.contains(pid) && !before.contains(pid) {
                        assert(pid == apps@[i as int].pid);
                    }
                    if pid == apps@[i as int].pid {
                        assert(pod_pids@[before.len() as int] == pid);
                    }
                    if before.contains(pid) {
                        let k = choose|k: int| 0 <= k < before.len() && before[k] == pid;
                        assert(pod_pids@[k] == pid);
                    }
                }
            }
        } else {
            proof {
                assert forall|pid: i32| #[trigger] pod_pids@.contains(pid) <==> exists|j: int|
                    0 <= j < i + 1 && (#[trigger] apps@[j]).pid == pid && sm.apps.contains(
                        apps@[j].name@,
                    ) by {
                    if exists|j: int|
                        0 <= j < i + 1 && (#[trigger] apps@[j]).pid == pid && sm.apps.contains(
                            apps@[j].name@,
                        ) {
                        let j = choose|j: int|
                            0 <= j < i + 1 && (#[trigger] apps@[j]).pid == pid && sm.apps.contains(
                                apps@[j].name@,
                            );
                        assert(j != i);
                    }
                }
            }
        }
        i = i + 1;
    }
    let mut own: Vec<Arrangement> = Vec::new();
    let mut veil: Vec<(i32, u32)> = Vec::new();
    let mut park: Vec<(i32, u32)> = Vec::new();
    let mut unpark_members: Vec<(i32, u32)> = Vec::new();
    let mut w: usize = 0;
    assert(ws.take(0) =~= Seq::<WindowModel>::empty());
    while w < windows_all.len()
        invariant
            w <= windows_all@.len(),
            sm == surfaces_model(*surfaces),
            ws == window_views(windows_all@),
            arrangement_views(own@) == own_arrangements(ws.take(w as int), sm, protected@, mode),
            veil@ == if mode == ContainMode::Dim {
                foreign_list(ws.take(w as int), sm, apps@, protected@, true)
            } else {
                Seq::empty()
            },
            park@ == if mode == ContainMode::Park {
                foreign_list(ws.take(w as int), sm, apps@, protected@, false)
            } else {
                Seq::empty()
            },
            unpark_members@ == unpark_list(ws.take(w as int), sm, protected@, mode),
            forall|pid: i32| #[trigger] pod_pids@.contains(pid) <==> ((exists|j: int|
                0 <= j < apps@.len() && (#[trigger] apps@[j]).pid == pid && sm.apps.contains(
                    apps@[j].name@,
                )) || (exists|j: int|
                0 <= j < w && (#[trigger] ws[j]).pid == pid && own_window(
                    ws[j],
                    sm,
                    protected@,
                    mode,
                ))),
        decreases windows_all.len() - w,
    {
        let win = &windows_all[w];
        assert(ws[w as int] == win@);
        assert(ws.take(w + 1).drop_last() =~= ws.take(w as int));
        assert(ws.take(w + 1).last() == win@);
        let (is_own, m) = is_own_window(win, surfaces, protected, mode);
        let ghost pods_before = pod_pids@;
        if is_own {
            let resource = resource_of(win, surfaces);
            let a = Arrangement {
                pid: win.pid,
                window_id: win.window_id,
                resource,
                raise_rank: m.rank(),
            };
            let ghost ob = arrangement_views(own@);
            own.push(a);
            assert(arrangement_views(own@) =~= ob.push(arrangement_for(win@, sm)));
            pod_pids.push(win.pid);
            if win.minimized && mode == ContainMode::Stage {
                unpark_members.push((win.pid, win.window_id));
            }
        }
        proof {
            assert forall|pid: i32| #[trigger] pod_pids@.contains(pid) <==> ((exists|j: int|
                0 <= j < apps@.len() && (#[trigger] apps@[j]).pid == pid && sm.apps.contains(
                    apps@[j].name@,
                )) || (exists|j: int|
                0 <= j < w + 1 && (#[trigger] ws[j]).pid == pid && own_window(
                    ws[j],
                    sm,
                    protected@,
                    mode,
                ))) by {
                if is_own && pid == win.pid {
                    assert(pod_pids@[pods_before.len() as int] == pid);
                    assert(ws[w as int].pid == pid);
                }
                if pods_before.contains(pid) {
                    let k = choose|k: int| 0 <= k < pods_before.len() && pods_before[k] == pid;
                    assert(pod_pids@[k] == pid);
                }
                if pod_pids@.contains(pid) && !pods_before.contains(pid) {
                    let k = choose|k: int| 0 <= k < pod_pids@.len() && pod_pids@[k] == pid;
                    assert(k == pods_before.len());
                }
                if exists|j: int| 0 <= j < w + 1 && (#[trigger] ws[j]).pid == pid && own_window(
                    ws[j],
                    sm,
                    protected@,
                    mode,
                ) {
                    let j = choose|j: int|
                        0 <= j < w + 1 && (#[trigger] ws[j]).pid == pid && own_window(
                            ws[j],
                            sm,
                            protected@,
                            mode,
                        );
                    if j == w {
                        assert(pod_pids@[pods_before.len() as int] == pid);
                    }
                }
            }
        }
        let foreign = !contains_pid(protected, win.pid) && !win.minimized && !m.belongs()
            && owner_regular_of(apps, win.pid);
        assert(foreign == foreign_window(win@, sm, apps@, protected@));
        match mode {
            ContainMode::Dim => {
                if foreign && win.frame_usable {
                    veil.push((win.pid, win.window_id));
                }
            },
            ContainMode::Park => {
                if foreign {
                    park.push((win.pid, win.window_id));
                }
            },
            ContainMode::Hide => {},
            ContainMode::Stage => {},
        }
        w = w + 1;
    }
    assert(ws.take(windows_all@.len() as int) =~= ws);
    if mode == ContainMode::Stage {
        let mut k: usize = 0;
        assert(ws.take(0) =~= Seq::<WindowModel>::empty());
        while k < windows_all.len()
            invariant
                k <= windows_all@.len(),
                mode == ContainMode::Stage,
                sm == surfaces_model(*surfaces),
                ws == window_views(windows_all@),
                forall|pid: i32| #[trigger] pod_pids@.contains(pid) <==> in_pod(
                    pid,
                    apps@,
                    ws,
                    sm,
                    protected@,
                    mode,
                ),
                park@ == split_list(ws.take(k as int), ws, sm, apps@, protected@, mode),
            decreases windows_all.len() - k,
        {
            let win = &windows_all[k];
            assert(ws[k as int] == win@);
            assert(ws.take(k + 1).drop_last() =~= ws.take(k as int));
            assert(ws.take(k + 1).last() == win@);
            let m = window_match(win, surfaces);
            let foreign = !contains_pid(protected, win.pid) && !win.minimized && !m.belongs()
                && owner_regular_of(apps, win.pid);
            assert(foreign == foreign_window(win@, sm, apps@, protected@));
            if foreign && contains_pid(pod_pids.as_slice(), win.pid) {
                park.push((win.pid, win.window_id));
            }
            k = k + 1;
        }
        assert(ws.take(windows_all@.len() as int) =~= ws);
    }
    let arrange = sort_arrangements(&own);
    let activate = if arrange.len() > 0 {
        Some(arrange[arrange.len() - 1].pid)
    } else {
        None
    };
    let mut hide_apps: Vec<i32> = Vec::new();
    let mut unhide_apps: Vec<i32> = Vec::new();
    let mut a: usize = 0;
    assert(apps@.take(0) =~= Seq::<PodApp>::empty());
    while a < apps.len()
        invariant
            a <= apps@.len(),
            sm == surfaces_model(*surfaces),
            ws == window_views(windows_all@),
            forall|pid: i32| #[trigger] pod_pids@.contains(pid) <==> in_pod(
                pid,
                apps@,
                ws,
                sm,
                protected@,
                mode,
            ),
            hide_apps@ == hide_list(apps@.take(a as int), apps@, ws, sm, protected@, mode),
            unhide_apps@ == unhide_list(apps@.take(a as int), apps@, ws, sm, protected@, mode),
        decreases apps.len() - a,
    {
        let app = &apps[a];
        assert(apps@.take(a + 1).drop_last() =~= apps@.take(a as int));
        assert(apps@.take(a + 1).last() == apps@[a as int]);
        let prot = contains_pid(protected, app.pid);
        let mine = contains_pid(pod_pids.as_slice(), app.pid);
        if !prot && (mode == ContainMode::Hide || mode == ContainMode::Stage) && app.regular && !app.hidden && !mine {
            hide_apps.push(app.pid);
        }
        if !prot && mine && app.hidden {
            unhide_apps.push(app.pid);
        }
        a = a + 1;
    }
    assert(apps@.take(apps@.len() as int) =~= apps@);
    ActivationPlan { arrange, unpark_members, park, veil, hide_apps, unhide_apps, activate }
}


/// `e` is a foreign window of `ws`.
pub open spec fn foreign_entry(
    ws: Seq<WindowModel>,
    s: SurfacesModel,
    apps: Seq<PodApp>,
    protected: Seq<i32>,
    e: (i32, u32),
) -> bool {
    exists|j: int|
        0 <= j < ws.len() && (#[trigger] ws[j]).pid == e.0 && ws[j].window_id == e.1
            && foreign_window(ws[j], s, apps, protected)
}

/// Under-containment and protection for windows: every window a plan
/// veils or parks is a foreign window — unprotected, on screen, matched
/// by none of the pod's evidence, and owned by a regular app.
pub proof fn lemma_contained_windows_are_foreign(
    ws: Seq<WindowModel>,
    s: SurfacesModel,
    apps: Seq<PodApp>,
    protected: Seq<i32>,
    veil: bool,
)
    ensures
        forall|i: int|
            0 <= i < foreign_list(ws, s, apps, protected, veil).len() ==> foreign_entry(
                ws,
                s,
                apps,
                protected,
                #[trigger] foreign_list(ws, s, apps, protected, veil)[i],
            ),
    decreases ws.len(),
{
    if ws.len() > 0 {
        let prev = ws.drop_last();
        lemma_contained_windows_are_foreign(prev, s, apps, protected, veil);
        let fl = foreign_list(ws, s, apps, protected, veil);
        let fp = foreign_list(prev, s, apps, protected, veil);
        assert forall|i: int| 0 <= i < fl.len() implies foreign_entry(ws, s, apps, protected, #[trigger] fl[i]) by {
            if i < fp.len() {
                assert(fl[i] == fp[i]);
                assert(foreign_entry(prev, s, apps, protected, fp[i]));
                let j = choose|j: int|
                    0 <= j < prev.len() && (#[trigger] prev[j]).pid == fp[i].0 && prev[j].window_id
                        == fp[i].1 && foreign_window(prev[j], s, apps, protected);
                assert(ws[j] == prev[j]);
            } else {
                assert(ws[ws.len() - 1] == ws.last());
            }
        }
    }
}

/// Protection and under-containment for apps: an app a plan hides is
/// never protected and never the pod's own.
pub proof fn lemma_hidden_apps_are_foreign(
    apps: Seq<PodApp>,
    all: Seq<PodApp>,
    ws: Seq<WindowModel>,
    s: SurfacesModel,
    protected: Seq<i32>,
    mode: ContainMode,
)
    ensures
        forall|i: int|
            0 <= i < hide_list(apps, all, ws, s, protected, mode).len() ==> !protected.contains(
                #[trigger] hide_list(apps, all, ws, s, protected, mode)[i],
            ) && !in_pod(hide_list(apps, all, ws, s, protected, mode)[i], all, ws, s, protected, mode),
    decreases apps.len(),
{
    if apps.len() > 0 {
        lemma_hidden_apps_are_foreign(apps.drop_last(), all, ws, s, protected, mode);
        let h = hide_list(apps, all, ws, s, protected, mode);
        let hp = hide_list(apps.drop_last(), all, ws, s, protected, mode);
        assert forall|i: int| 0 <= i < h.len() implies !protected.contains(#[trigger] h[i]) && !in_pod(
            h[i],
            all,
            ws,
            s,
            protected,
            mode,
        ) by {
            if i < hp.len() {
                assert(h[i] == hp[i]);
            }
        }
    }
}

proof fn lemma_own_unprotected(ws: Seq<WindowModel>, s: SurfacesModel, protected: Seq<i32>, mode: ContainMode)
    ensures
        forall|i: int|
            0 <= i < own_arrangements(ws, s, protected, mode).len() ==> !protected.contains(
                (#[trigger] own_arrangements(ws, s, protected, mode)[i]).pid,
            ),
    decreases ws.len(),
{
    if ws.len() > 0 {
        lemma_own_unprotected(ws.drop_last(), s, protected, mode);
        let o = own_arrangements(ws, s, protected, mode);
        let op = own_arrangements(ws.drop_last(), s, protected, mode);
        assert forall|i: int| 0 <= i < o.len() implies !protected.contains((#[trigger] o[i]).pid) by {
            if i < op.len() {
                assert(o[i] == op[i]);
            }
        }
    }
}

proof fn lemma_unhide_unprotected(
    apps: Seq<PodApp>,
    all: Seq<PodApp>,
    ws: Seq<WindowModel>,
    s: SurfacesModel,
    protected: Seq<i32>,
    mode: ContainMode,
)
    ensures
        forall|i: int|
            0 <= i < unhide_list(apps, all, ws, s, protected, mode).len() ==> !protected.contains(
                #[trigger] unhide_list(apps, all, ws, s, protected, mode)[i],
            ),
    decreases apps.len(),
{
    if apps.len() > 0 {
        lemma_unhide_unprotected(apps.drop_last(), all, ws, s, protected, mode);
        let u = unhide_list(apps, all, ws, s, protected, mode);
        let up = unhide_list(apps.drop_last(), all, ws, s, protected, mode);
        assert forall|i: int| 0 <= i < u.len() implies !protected.contains(#[trigger] u[i]) by {
            if i < up.len() {
                assert(u[i] == up[i]);
            }
        }
    }
}

proof fn lemma_hide_only_when_hiding(
    apps: Seq<PodApp>,
    all: Seq<PodApp>,
    ws: Seq<WindowModel>,
    s: SurfacesModel,
    protected: Seq<i32>,
    mode: ContainMode,
)
    requires
        mode != ContainMode::Hide && mode != ContainMode::Stage,
    ensures
        hide_list(apps, all, ws, s, protected, mode) == Seq::<i32>::empty(),
    decreases apps.len(),
{
    if apps.len() > 0 {
        lemma_hide_only_when_hiding(apps.drop_last(), all, ws, s, protected, mode);
    }
}

proof fn lemma_split_foreign(
    ws: Seq<WindowModel>,
    all_ws: Seq<WindowModel>,
    s: SurfacesModel,
    apps: Seq<PodApp>,
    protected: Seq<i32>,
    mode: ContainMode,
)
    ensures
        forall|i: int|
            0 <= i < split_list(ws, all_ws, s, apps, protected, mode).len() ==> foreign_entry(
                ws,
                s,
                apps,
                protected,
                #[trigger] split_list(ws, all_ws, s, apps, protected, mode)[i],
            ),
    decreases ws.len(),
{
    if ws.len() > 0 {
        let prev = ws.drop_last();
        lemma_split_foreign(prev, all_ws, s, apps, protected, mode);
        let fl = split_list(ws, all_ws, s, apps, protected, mode);
        let fp = split_list(prev, all_ws, s, apps, protected, mode);
        assert forall|i: int| 0 <= i < fl.len() implies foreign_entry(ws, s, apps, protected, #[trigger] fl[i]) by {
            if i < fp.len() {
                assert(fl[i] == fp[i]);
                assert(foreign_entry(prev, s, apps, protected, fp[i]));
                let j = choose|j: int|
                    0 <= j < prev.len() && (#[trigger] prev[j]).pid == fp[i].0 && prev[j].window_id
                        == fp[i].1 && foreign_window(prev[j], s, apps, protected);
                assert(ws[j] == prev[j]);
            } else {
                assert(ws[ws.len() - 1] == ws.last());
            }
        }
    }
}

/// Protection, mode and under-containment for a whole plan: no protected
/// process is arranged, brought back or hidden (so none is activated
/// either); every window veiled or parked is a foreign window, matched by
/// none of the pod's evidence; and apps are hidden only in hide and stage
/// modes.
pub proof fn lemma_plan_respects_protection(
    ws: Seq<WindowModel>,
    s: SurfacesModel,
    apps: Seq<PodApp>,
    protected: Seq<i32>,
    mode: ContainMode,
    arrange: Seq<ArrangementModel>,
)
    requires
        stably_sorted(arrange, own_arrangements(ws, s, protected, mode)),
    ensures
        forall|i: int| 0 <= i < arrange.len() ==> !protected.contains((#[trigger] arrange[i]).pid),
        forall|i: int|
            0 <= i < unhide_list(apps, apps, ws, s, protected, mode).len() ==> !protected.contains(
                #[trigger] unhide_list(apps, apps, ws, s, protected, mode)[i],
            ),
        forall|i: int|
            0 <= i < hide_list(apps, apps, ws, s, protected, mode).len() ==> !protected.contains(
                #[trigger] hide_list(apps, apps, ws, s, protected, mode)[i],
            ),
        forall|i: int, veil: bool|
            0 <= i < foreign_list(ws, s, apps, protected, veil).len() ==> foreign_entry(
                ws,
                s,
                apps,
                protected,
                #[trigger] foreign_list(ws, s, apps, protected, veil)[i],
            ),
        forall|i: int|
            0 <= i < split_list(ws, ws, s, apps, protected, mode).len() ==> foreign_entry(
                ws,
                s,
                apps,
                protected,
                #[trigger] split_list(ws, ws, s, apps, protected, mode)[i],
            ),
        mode != ContainMode::Hide && mode != ContainMode::Stage ==> hide_list(apps, apps, ws, s, protected, mode)
            == Seq::<i32>::empty(),
{
    let own = own_arrangements(ws, s, protected, mode);
    lemma_own_unprotected(ws, s, protected, mode);
    assert forall|i: int| 0 <= i < arrange.len() implies !protected.contains((#[trigger] arrange[i]).pid) by {
        let k = arr_key(arrange[i]);
        let f = with_key(arrange, k);
        let g = with_key(own, k);
        arrange.lemma_filter_contains(|a: ArrangementModel| arr_key(a) == k, i);
        assert(f.contains(arrange[i]));
        assert(g.contains(arrange[i]));
        own.lemma_filter_contains_rev(|a: ArrangementModel| arr_key(a) == k, arrange[i]);
        assert(own.contains(arrange[i]));
        let m = choose|m: int| 0 <= m < own.len() && own[m] == arrange[i];
        assert(!protected.contains(own[m].pid));
    }
    lemma_unhide_unprotected(apps, apps, ws, s, protected, mode);
    lemma_hidden_apps_are_foreign(apps, apps, ws, s, protected, mode);
    assert forall|i: int, veil: bool| 0 <= i < foreign_list(ws, s, apps, protected, veil).len() implies foreign_entry(
        ws,
        s,
        apps,
        protected,
        #[trigger] foreign_list(ws, s, apps, protected, veil)[i],
    ) by {
        lemma_contained_windows_are_foreign(ws, s, apps, protected, veil);
    }
    lemma_split_foreign(ws, ws, s, apps, protected, mode);
    if mode != ContainMode::Hide && mode != ContainMode::Stage {
        lemma_hide_only_when_hiding(apps, apps, ws, s, protected, mode);
    }
}

} // verus!
