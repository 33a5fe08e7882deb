//! Works: the bodies of work the desktop shows.
//!
//! A work collects the intervals that share one primary identity (the
//! document, else the URL host, else the window title, else the app),
//! aggregated across time: total time, every URL, document, title and app
//! it touched, input counters, attributed saves, and its last activity.

use vstd::prelude::*;
use crate::ledger::hypotheses::MergeProposal;
use crate::ledger::identity::KeyModel;
use crate::ledger::intervals::{interval_title, interval_views, IntervalModel, WorkInterval};
use crate::ledger::pages::opt_text;
use crate::sorting::{lemma_insert_multiset, views};
use crate::sums::{lemma_sum_drop_last, lemma_sum_take, nonneg_terms, seq_sum};
use crate::text::{blank, concat2, concat3, decimal, fmt_u64, is_blank, lex_lt, lemma_lex_asymmetric,
    lemma_lex_irreflexive, lemma_lex_total, lemma_lex_transitive, push_new, push_unique, str_eq,
    str_less, to_owned_string, trim, trimmed};

verus! {

/// What kind of identity a work is grouped by.
#[derive(Debug, Clone, Copy, PartialEq, Eq, Structural, PartialOrd, Ord, Hash)]
pub enum IdentityKind {
    Document,
    UrlHost,
    WindowTitle,
    App,
    /// A purpose-level work formed over many resources and sittings.
    Purpose,
}

/// The position of a kind in declaration order.
pub open spec fn kind_rank(k: IdentityKind) -> int {
    match k {
        IdentityKind::Document => 0,
        IdentityKind::UrlHost => 1,
        IdentityKind::WindowTitle => 2,
        IdentityKind::App => 3,
        IdentityKind::Purpose => 4,
    }
}

/// The label a kind is shown with.
pub open spec fn kind_label(k: IdentityKind) -> Seq<char> {
    match k {
        IdentityKind::Document => "document"@,
        IdentityKind::UrlHost => "site"@,
        IdentityKind::WindowTitle => "window"@,
        IdentityKind::App => "app"@,
        IdentityKind::Purpose => "work"@,
    }
}

impl IdentityKind {
    /// The label the kind is shown with.
    pub fn label(&self) -> (r: &'static str)
        ensures
            r@ == kind_label(*self),
    {
        match self {
            IdentityKind::Document => "document",
            IdentityKind::UrlHost => "site",
            IdentityKind::WindowTitle => "window",
            IdentityKind::App => "app",
            IdentityKind::Purpose => "work",
        }
    }

    fn rank(&self) -> (r: u8)
        ensures
            r == kind_rank(*self),
    {
        match self {
            IdentityKind::Document => 0,
            IdentityKind::UrlHost => 1,
            IdentityKind::WindowTitle => 2,
            IdentityKind::App => 3,
            IdentityKind::Purpose => 4,
        }
    }
}

/// How the person engaged with a work, from the evidence mix.
#[derive(Debug, Clone, Copy, PartialEq, Eq, Structural)]
pub enum Engagement {
    /// Files were produced through the work.
    Building,
    /// Typing-dominant input: composition without observed file output.
    Writing,
    /// Click/scroll-dominant or passive attention.
    Reading,
}

/// A body of work: all intervals sharing one identity.
#[derive(Debug, Clone)]
pub struct Work {
    /// The primary identity.
    pub identity: String,
    pub identity_kind: IdentityKind,
    /// The intervals that belong to the work.
    pub intervals: Vec<WorkInterval>,
    /// Total time across all intervals (ms).
    pub total_time_ms: u64,
    pub urls: Vec<String>,
    pub documents: Vec<String>,
    pub titles: Vec<String>,
    pub apps: Vec<String>,
    /// Whether the person ever typed.
    pub has_production: bool,
    pub keys: u64,
    pub clicks: u64,
    pub scrolls: u64,
    /// How many file saves were attributed to the work.
    pub attached_saves: usize,
    /// Most recent activity (epoch ms).
    pub last_active_ms: u64,
    /// A session count set by the grouping layer, overriding the interval
    /// heuristic when present.
    pub session_count_override: Option<usize>,
}

/// The content of a [`Work`], its texts as characters.
pub struct WorkModel {
    pub identity: Seq<char>,
    pub identity_kind: IdentityKind,
    pub intervals: Seq<IntervalModel>,
    pub total_time_ms: int,
    pub urls: Seq<Seq<char>>,
    pub documents: Seq<Seq<char>>,
    pub titles: Seq<Seq<char>>,
    pub apps: Seq<Seq<char>>,
    pub has_production: bool,
    pub keys: int,
    pub clicks: int,
    pub scrolls: int,
    pub attached_saves: int,
    pub last_active_ms: int,
    pub session_count_override: Option<usize>,
}

impl View for Work {
    type V = WorkModel;

    open spec fn view(&self) -> WorkModel {
        WorkModel {
            identity: self.identity@,
            identity_kind: self.identity_kind,
            intervals: interval_views(self.intervals@),
            total_time_ms: self.total_time_ms as int,
            urls: views(self.urls@),
            documents: views(self.documents@),
            titles: views(self.titles@),
            apps: views(self.apps@),
            has_production: self.has_production,
            keys: self.keys as int,
            clicks: self.clicks as int,
            scrolls: self.scrolls as int,
            attached_saves: self.attached_saves as int,
            last_active_ms: self.last_active_ms as int,
            session_count_override: self.session_count_override,
        }
    }
}

/// The views of a sequence of works.
pub open spec fn work_views(v: Seq<Work>) -> Seq<WorkModel> {
    v.map_values(|w: Work| w@)
}

/// `secs` shown as `Ns`, `Nm` or `Nh Mm`.
pub open spec fn time_text(secs: nat) -> Seq<char> {
    if secs < 60 {
        decimal(secs) + "s"@
    } else if secs < 3600 {
        decimal(secs / 60) + "m"@
    } else {
        decimal(secs / 3600) + "h "@ + decimal((secs % 3600) / 60) + "m"@
    }
}

/// An interval with real engagement: several events or at least thirty
/// seconds of attention.
pub open spec fn engaged() -> spec_fn(IntervalModel) -> bool {
    |iv: IntervalModel| iv.event_count >= 2 || iv.total_dwell_ms >= 30_000
}

/// The engagement the evidence mix shows.
pub open spec fn engagement_of(w: WorkModel) -> Engagement {
    if w.attached_saves > 0 {
        Engagement::Building
    } else if w.keys > w.clicks + w.scrolls {
        Engagement::Writing
    } else {
        Engagement::Reading
    }
}

/// Whether an interval witnessed `resource` (as a document or a URL) in
/// an application with a non-blank name.
pub open spec fn witnesses(iv: IntervalModel, resource: Seq<char>) -> bool {
    &&& (iv.document_paths.contains(resource) || iv.urls.contains(resource))
    &&& !blank(iv.task_key.app_name)
}

/// The position of the latest witness among the first `n` intervals: the
/// greatest end time, the later position among equals; `-1` for none.
pub open spec fn latest_witness(ivs: Seq<IntervalModel>, resource: Seq<char>, n: int) -> int
    decreases n,
{
    if n <= 0 {
        -1
    } else {
        let best = latest_witness(ivs, resource, n - 1);
        if witnesses(ivs[n - 1], resource) && (best < 0 || ivs[best].end_ms <= ivs[n - 1].end_ms) {
            n - 1
        } else {
            best
        }
    }
}

proof fn lemma_latest_witness_range(ivs: Seq<IntervalModel>, resource: Seq<char>, n: int)
    requires
        0 <= n <= ivs.len(),
    ensures
        -1 <= latest_witness(ivs, resource, n) < n,
        latest_witness(ivs, resource, n) >= 0 ==> witnesses(
            ivs[latest_witness(ivs, resource, n)],
            resource,
        ),
    decreases n,
{
    if n > 0 {
        lemma_latest_witness_range(ivs, resource, n - 1);
    }
}

impl Work {
    /// A human-readable title: the first interval's title, else the
    /// identity.
    pub fn title(&self) -> (r: String)
        ensures
            r@ == if self@.intervals.len() > 0 {
                interval_title(self@.intervals[0].task_key)
            } else {
                self@.identity
            },
    {
        if self.intervals.len() > 0 {
            return self.intervals[0].title();
        }
        to_owned_string(self.identity.as_str())
    }

    /// Total time in human-readable form.
    pub fn time_summary(&self) -> (r: String)
        ensures
            r@ == time_text((self.total_time_ms / 1000) as nat),
    {
        let secs = self.total_time_ms / 1000;
        if secs < 60 {
            concat2(fmt_u64(secs).as_str(), "s")
        } else if secs < 3600 {
            concat2(fmt_u64(secs / 60).as_str(), "m")
        } else {
            let h = concat2(fmt_u64(secs / 3600).as_str(), "h ");
            concat3(h.as_str(), fmt_u64((secs % 3600) / 60).as_str(), "m")
        }
    }

    /// The number of sessions: the hypothesis layer's own count where it is
    /// set, else the number of intervals with real engagement.
    pub fn session_count(&self) -> (r: usize)
        ensures
            r == match self.session_count_override {
                Some(n) => n as int,
                None => self@.intervals.filter(engaged()).len() as int,
            },
    {
        if let Some(n) = self.session_count_override {
            return n;
        }
        let ghost ivs = self@.intervals;
        let mut count: usize = 0;
        let mut i: usize = 0;
        while i < self.intervals.len()
            invariant
                i <= self.intervals@.len(),
                ivs == interval_views(self.intervals@),
                count == ivs.take(i as int).filter(engaged()).len(),
                count <= i,
            decreases self.intervals@.len() - i,
        {
            assert(ivs.take(i as int + 1) =~= ivs.take(i as int).push(ivs[i as int]));
            proof {
                ivs.take(i as int).lemma_filter_push(ivs[i as int], engaged());
            }
            let iv = &self.intervals[i];
            assert(ivs[i as int] == iv@);
            if iv.event_count >= 2 || iv.total_dwell_ms >= 30_000 {
                count = count + 1;
            }
            i = i + 1;
        }
        assert(ivs.take(ivs.len() as int) =~= ivs);
        count
    }

    /// The dominant engagement mode, from the evidence mix alone.
    pub fn engagement(&self) -> (r: Engagement)
        requires
            self.clicks + self.scrolls <= u64::MAX,
        ensures
            r == engagement_of(self@),
    {
        if self.attached_saves > 0 {
            return Engagement::Building;
        }
        if self.keys > self.clicks + self.scrolls {
            return Engagement::Writing;
        }
        Engagement::Reading
    }

    /// The application a resource (a document path or URL) was most
    /// recently witnessed in, trimmed: the witness with the greatest end
    /// time, the later interval among equals. `None` where no interval
    /// with a named app saw it.
    pub fn app_for_resource(&self, resource: &str) -> (r: Option<String>)
        ensures
            ({
                let k = latest_witness(self@.intervals, resource@, self@.intervals.len() as int);
                match r {
                    Some(a) => k >= 0 && a@ == trim(self@.intervals[k].task_key.app_name),
                    None => k < 0,
                }
            }),
    {
        let ghost ivs = self@.intervals;
        let mut best: Option<usize> = None;
        let mut i: usize = 0;
        while i < self.intervals.len()
            invariant
                i <= self.intervals@.len(),
                ivs == interval_views(self.intervals@),
                match best {
                    Some(b) => b as int == latest_witness(ivs, resource@, i as int),
                    None => latest_witness(ivs, resource@, i as int) == -1,
                },
            decreases self.intervals@.len() - i,
        {
            proof {
                lemma_latest_witness_range(ivs, resource@, i as int);
            }
            let iv = &self.intervals[i];
            assert(ivs[i as int] == iv@);
            let seen = (crate::text::holds_text(&iv.document_paths, resource)
                || crate::text::holds_text(&iv.urls, resource)) && !is_blank(
                iv.task_key.app_name.as_str(),
            );
            if seen {
                let later = match best {
                    Some(b) => self.intervals[b].end_ms <= iv.end_ms,
                    None => true,
                };
                if later {
                    best = Some(i);
                }
            }
            i = i + 1;
        }
        match best {
            Some(b) => {
                proof {
                    lemma_latest_witness_range(ivs, resource@, ivs.len() as int);
                }
                Some(trimmed(self.intervals[b].task_key.app_name.as_str()))
            },
            None => None,
        }
    }
}

// ── Grouping by primary identity ───────────────────────────────────────────

/// The primary identity of a key: its document, else its host, else its
/// window title, else its app.
pub open spec fn primary_of(k: KeyModel) -> (Seq<char>, IdentityKind) {
    match k.document_path {
        Some(d) => (d, IdentityKind::Document),
        None => match k.url_host {
            Some(h) => (h, IdentityKind::UrlHost),
            None => match k.window_title {
                Some(t) => (t, IdentityKind::WindowTitle),
                None => (k.app_name, IdentityKind::App),
            },
        },
    }
}

/// `v` with every text of `xs` appended in order, skipping those it holds.
pub open spec fn push_all(v: Seq<Seq<char>>, xs: Seq<Seq<char>>) -> Seq<Seq<char>>
    decreases xs.len(),
{
    if xs.len() == 0 {
        v
    } else {
        push_new(push_all(v, xs.drop_last()), xs.last())
    }
}

/// A work with nothing in it yet.
pub open spec fn empty_work(identity: Seq<char>, kind: IdentityKind) -> WorkModel {
    WorkModel {
        identity,
        identity_kind: kind,
        intervals: seq![],
        total_time_ms: 0,
        urls: seq![],
        documents: seq![],
        titles: seq![],
        apps: seq![],
        has_production: false,
        keys: 0,
        clicks: 0,
        scrolls: 0,
        attached_saves: 0,
        last_active_ms: 0,
        session_count_override: None,
    }
}

/// `w` with one more interval.
pub open spec fn absorbed(w: WorkModel, iv: IntervalModel) -> WorkModel {
    WorkModel {
        intervals: w.intervals.push(iv),
        total_time_ms: w.total_time_ms + iv.total_dwell_ms,
        last_active_ms: if w.last_active_ms >= iv.end_ms {
            w.last_active_ms
        } else {
            iv.end_ms
        },
        keys: w.keys + iv.keys,
        clicks: w.clicks + iv.clicks,
        scrolls: w.scrolls + iv.scrolls,
        attached_saves: w.attached_saves + iv.attached_saves,
        has_production: w.has_production || iv.typed_count > 0,
        urls: push_all(w.urls, iv.urls),
        titles: push_all(w.titles, iv.titles),
        documents: push_all(w.documents, iv.document_paths),
        apps: push_new(w.apps, iv.task_key.app_name),
        ..w
    }
}

/// The identity and kind of a work.
pub open spec fn work_key(w: WorkModel) -> (Seq<char>, IdentityKind) {
    (w.identity, w.identity_kind)
}

/// The position of the work with the given key, or `-1`.
pub open spec fn work_at(ws: Seq<WorkModel>, key: (Seq<char>, IdentityKind)) -> int
    decreases ws.len(),
{
    if ws.len() == 0 {
        -1
    } else if work_key(ws.last()) == key {
        ws.len() - 1
    } else {
        work_at(ws.drop_last(), key)
    }
}

/// The works of the intervals, in order of first appearance.
pub open spec fn gathered(ivs: Seq<IntervalModel>) -> Seq<WorkModel>
    decreases ivs.len(),
{
    if ivs.len() == 0 {
        seq![]
    } else {
        let ws = gathered(ivs.drop_last());
        let iv = ivs.last();
        let key = primary_of(iv.task_key);
        let at = work_at(ws, key);
        if at >= 0 {
            ws.update(at, absorbed(ws[at], iv))
        } else {
            ws.push(absorbed(empty_work(key.0, key.1), iv))
        }
    }
}

/// `a` is shown before `b`: more recent first, then more time, then by
/// identity and kind.
pub open spec fn shown_before(a: WorkModel, b: WorkModel) -> bool {
    ||| a.last_active_ms > b.last_active_ms
    ||| a.last_active_ms == b.last_active_ms && a.total_time_ms > b.total_time_ms
    ||| a.last_active_ms == b.last_active_ms && a.total_time_ms == b.total_time_ms && lex_lt(
        a.identity,
        b.identity,
    )
    ||| a.last_active_ms == b.last_active_ms && a.total_time_ms == b.total_time_ms && a.identity
        == b.identity && kind_rank(a.identity_kind) < kind_rank(b.identity_kind)
}

/// Dwell, input counters and attributed saves of an interval.
pub open spec fn iv_dwell() -> spec_fn(IntervalModel) -> int {
    |iv: IntervalModel| iv.total_dwell_ms
}

pub open spec fn iv_keys() -> spec_fn(IntervalModel) -> int {
    |iv: IntervalModel| iv.keys
}

pub open spec fn iv_clicks() -> spec_fn(IntervalModel) -> int {
    |iv: IntervalModel| iv.clicks
}

pub open spec fn iv_scrolls() -> spec_fn(IntervalModel) -> int {
    |iv: IntervalModel| iv.scrolls
}

pub open spec fn iv_saves() -> spec_fn(IntervalModel) -> int {
    |iv: IntervalModel| iv.attached_saves
}

/// The inputs grouping accepts: totals over all intervals that fit their
/// fields.
pub open spec fn groupable(ivs: Seq<IntervalModel>) -> bool {
    &&& nonneg_terms(ivs, iv_dwell())
    &&& nonneg_terms(ivs, iv_keys())
    &&& nonneg_terms(ivs, iv_clicks())
    &&& nonneg_terms(ivs, iv_scrolls())
    &&& nonneg_terms(ivs, iv_saves())
    &&& seq_sum(ivs, iv_dwell()) <= u64::MAX
    &&& seq_sum(ivs, iv_keys()) <= u64::MAX
    &&& seq_sum(ivs, iv_clicks()) <= u64::MAX
    &&& seq_sum(ivs, iv_scrolls()) <= u64::MAX
    &&& seq_sum(ivs, iv_saves()) <= usize::MAX
}

proof fn lemma_work_at(ws: Seq<WorkModel>, key: (Seq<char>, IdentityKind))
    ensures
        -1 <= work_at(ws, key) < ws.len(),
        work_at(ws, key) >= 0 ==> work_key(ws[work_at(ws, key)]) == key,
        work_at(ws, key) < 0 ==> forall|i: int| 0 <= i < ws.len() ==> work_key(#[trigger] ws[i]) != key,
    decreases ws.len(),
{
    if ws.len() > 0 && work_key(ws.last()) != key {
        lemma_work_at(ws.drop_last(), key);
        if work_at(ws, key) < 0 {
            assert forall|i: int| 0 <= i < ws.len() implies work_key(#[trigger] ws[i]) != key by {
                if i < ws.len() - 1 {
                    assert(ws[i] == ws.drop_last()[i]);
                }
            }
        }
    }
}

proof fn lemma_nonneg_drop_last(ivs: Seq<IntervalModel>, f: spec_fn(IntervalModel) -> int)
    requires
        ivs.len() > 0,
        nonneg_terms(ivs, f),
    ensures
        nonneg_terms(ivs.drop_last(), f),
        f(ivs.last()) >= 0,
{
    assert forall|i: int| 0 <= i < ivs.drop_last().len() implies f(#[trigger] ivs.drop_last()[i]) >= 0 by {
        assert(ivs.drop_last()[i] == ivs[i]);
    }
}

/// What grouping keeps: one work per identity, and totals bounded by the
/// totals over all intervals.
proof fn lemma_gathered(ivs: Seq<IntervalModel>)
    requires
        nonneg_terms(ivs, iv_dwell()),
        nonneg_terms(ivs, iv_keys()),
        nonneg_terms(ivs, iv_clicks()),
        nonneg_terms(ivs, iv_scrolls()),
        nonneg_terms(ivs, iv_saves()),
    ensures
        forall|i: int, j: int|
            0 <= i < j < gathered(ivs).len() ==> work_key(#[trigger] gathered(ivs)[i]) != work_key(
                #[trigger] gathered(ivs)[j],
            ),
        forall|k: int|
            0 <= k < gathered(ivs).len() ==> {
                let w = #[trigger] gathered(ivs)[k];
                &&& 0 <= w.total_time_ms <= seq_sum(ivs, iv_dwell())
                &&& 0 <= w.keys <= seq_sum(ivs, iv_keys())
                &&& 0 <= w.clicks <= seq_sum(ivs, iv_clicks())
                &&& 0 <= w.scrolls <= seq_sum(ivs, iv_scrolls())
                &&& 0 <= w.attached_saves <= seq_sum(ivs, iv_saves())
            },
    decreases ivs.len(),
{
    if ivs.len() > 0 {
        let prev = ivs.drop_last();
        lemma_nonneg_drop_last(ivs, iv_dwell());
        lemma_nonneg_drop_last(ivs, iv_keys());
        lemma_nonneg_drop_last(ivs, iv_clicks());
        lemma_nonneg_drop_last(ivs, iv_scrolls());
        lemma_nonneg_drop_last(ivs, iv_saves());
        lemma_gathered(prev);
        lemma_sum_drop_last(ivs, iv_dwell());
        lemma_sum_drop_last(ivs, iv_keys());
        lemma_sum_drop_last(ivs, iv_clicks());
        lemma_sum_drop_last(ivs, iv_scrolls());
        lemma_sum_drop_last(ivs, iv_saves());
        let ws = gathered(prev);
        let key = primary_of(ivs.last().task_key);
        lemma_work_at(ws, key);
        let g = gathered(ivs);
        assert forall|i: int, j: int| 0 <= i < j < g.len() implies work_key(#[trigger] g[i]) != work_key(
            #[trigger] g[j],
        ) by {
            if work_at(ws, key) < 0 && j == ws.len() {
                assert(g[i] == ws[i]);
            } else {
                assert(work_key(g[i]) == work_key(ws[i]));
                assert(work_key(g[j]) == work_key(ws[j]));
            }
        }
    }
}

/// `a` and `b` with different identities are ordered one way or the other.
proof fn lemma_shown_before_total(a: WorkModel, b: WorkModel)
    requires
        work_key(a) != work_key(b),
    ensures
        shown_before(a, b) || shown_before(b, a),
{
    lemma_lex_total(a.identity, b.identity);
}

proof fn lemma_shown_before_transitive(a: WorkModel, b: WorkModel, c: WorkModel)
    requires
        shown_before(a, b),
        shown_before(b, c),
    ensures
        shown_before(a, c),
{
    if a.last_active_ms == b.last_active_ms && b.last_active_ms == c.last_active_ms
        && a.total_time_ms == b.total_time_ms && b.total_time_ms == c.total_time_ms {
        if lex_lt(a.identity, b.identity) && lex_lt(b.identity, c.identity) {
            lemma_lex_transitive(a.identity, b.identity, c.identity);
        }
    }
}

fn primary_identity(key: &crate::ledger::identity::TaskKey) -> (r: (String, IdentityKind))
    ensures
        (r.0@, r.1) == primary_of(key@),
{
    if let Some(doc) = &key.document_path {
        return (to_owned_string(doc.as_str()), IdentityKind::Document);
    }
    if let Some(host) = &key.url_host {
        return (to_owned_string(host.as_str()), IdentityKind::UrlHost);
    }
    if let Some(title) = &key.window_title {
        return (to_owned_string(title.as_str()), IdentityKind::WindowTitle);
    }
    (to_owned_string(key.app_name.as_str()), IdentityKind::App)
}

fn push_all_unique(v: &mut Vec<String>, xs: &Vec<String>)
    ensures
        views(final(v)@) == push_all(views(old(v)@), views(xs@)),
{
    let ghost v0 = views(v@);
    let ghost xv = views(xs@);
    let mut j: usize = 0;
    while j < xs.len()
        invariant
            j <= xs@.len(),
            xv == views(xs@),
            views(v@) == push_all(v0, xv.take(j as int)),
        decreases xs@.len() - j,
    {
        assert(xv.take(j as int + 1).drop_last() =~= xv.take(j as int));
        assert(xv[j as int] == xs@[j as int]@);
        push_unique(v, xs[j].as_str());
        j = j + 1;
    }
    assert(xv.take(xs@.len() as int) =~= xv);
}

fn absorb(w: &mut Work, iv: WorkInterval)
    requires
        old(w).total_time_ms + iv.total_dwell_ms <= u64::MAX,
        old(w).keys + iv.keys <= u64::MAX,
        old(w).clicks + iv.clicks <= u64::MAX,
        old(w).scrolls + iv.scrolls <= u64::MAX,
        old(w).attached_saves + iv.attached_saves <= usize::MAX,
    ensures
        final(w)@ == absorbed(old(w)@, iv@),
{
    w.total_time_ms = w.total_time_ms + iv.total_dwell_ms;
    if iv.end_ms > w.last_active_ms {
        w.last_active_ms = iv.end_ms;
    }
    w.keys = w.keys + iv.keys;
    w.clicks = w.clicks + iv.clicks;
    w.scrolls = w.scrolls + iv.scrolls;
    w.attached_saves = w.attached_saves + iv.attached_saves;
    if iv.typed_count > 0 {
        w.has_production = true;
    }
    push_all_unique(&mut w.urls, &iv.urls);
    push_all_unique(&mut w.titles, &iv.titles);
    push_all_unique(&mut w.documents, &iv.document_paths);
    push_unique(&mut w.apps, iv.task_key.app_name.as_str());
    let ghost before = w.intervals@;
    w.intervals.push(iv);
    assert(interval_views(w.intervals@) =~= interval_views(before).push(iv@));
}

fn new_work(identity: String, kind: IdentityKind) -> (r: Work)
    ensures
        r@ == empty_work(identity@, kind),
{
    let r = Work {
        identity,
        identity_kind: kind,
        intervals: Vec::new(),
        total_time_ms: 0,
        urls: Vec::new(),
        documents: Vec::new(),
        titles: Vec::new(),
        apps: Vec::new(),
        has_production: false,
        keys: 0,
        clicks: 0,
        scrolls: 0,
        attached_saves: 0,
        last_active_ms: 0,
        session_count_override: None,
    };
    assert(interval_views(r.intervals@) =~= Seq::<IntervalModel>::empty());
    assert(views(r.urls@) =~= Seq::<Seq<char>>::empty());
    assert(views(r.documents@) =~= Seq::<Seq<char>>::empty());
    assert(views(r.titles@) =~= Seq::<Seq<char>>::empty());
    assert(views(r.apps@) =~= Seq::<Seq<char>>::empty());
    r
}

fn find_work(works: &Vec<Work>, identity: &String, kind: IdentityKind) -> (r: Option<usize>)
    ensures
        match r {
            Some(a) => a as int == work_at(work_views(works@), (identity@, kind)),
            None => work_at(work_views(works@), (identity@, kind)) == -1,
        },
{
    let ghost ws = work_views(works@);
    let mut j: usize = works.len();
    assert(ws.take(j as int) =~= ws);
    while j > 0
        invariant
            j <= works@.len(),
            ws == work_views(works@),
            work_at(ws, (identity@, kind)) == work_at(ws.take(j as int), (identity@, kind)),
        decreases j,
    {
        let w = &works[j - 1];
        assert(ws.take(j as int).last() == w@);
        assert(ws.take(j as int).drop_last() =~= ws.take(j - 1));
        if w.identity_kind == kind && str_eq(w.identity.as_str(), identity.as_str()) {
            return Some(j - 1);
        }
        j = j - 1;
    }
    None
}

/// Whether `a` is shown before `b`.
fn shown_first(a: &Work, b: &Work) -> (r: bool)
    ensures
        r == shown_before(a@, b@),
{
    if a.last_active_ms != b.last_active_ms {
        return a.last_active_ms > b.last_active_ms;
    }
    if a.total_time_ms != b.total_time_ms {
        return a.total_time_ms > b.total_time_ms;
    }
    if str_less(a.identity.as_str(), b.identity.as_str()) {
        return true;
    }
    if !str_eq(a.identity.as_str(), b.identity.as_str()) {
        return false;
    }
    a.identity_kind.rank() < b.identity_kind.rank()
}

/// Groups intervals into works by primary identity, most recent first,
/// then most time, then by identity and kind.
pub fn group_into_works(intervals: Vec<WorkInterval>) -> (r: Vec<Work>)
    requires
        groupable(interval_views(intervals@)),
    ensures
        work_views(r@).to_multiset() == gathered(interval_views(intervals@)).to_multiset(),
        forall|i: int, j: int| 0 <= i < j < r@.len() ==> shown_before(#[trigger] r@[i]@, #[trigger] r@[j]@),
{
    let ghost ivs = interval_views(intervals@);
    let count = intervals.len();
    let ghost n = ivs.len();
    assert(n == count);
    let mut rest = intervals;
    let mut works: Vec<Work> = Vec::new();
    let mut i: usize = 0;
    while rest.len() > 0
        invariant
            groupable(ivs),
            n == ivs.len(),
            i + rest@.len() == n,
            n <= usize::MAX,
            interval_views(rest@) == ivs.skip(i as int),
            work_views(works@) == gathered(ivs.take(i as int)),
        decreases rest@.len(),
    {
        let ghost prefix = ivs.take(i as int + 1);
        let ghost old_rest = rest@;
        let iv = rest.remove(0);
        proof {
            assert(interval_views(old_rest)[0] == iv@);
            assert(iv@ == ivs.skip(i as int)[0]);
            assert forall|m: int| 0 <= m < rest@.len() implies #[trigger] interval_views(rest@)[m]
                == ivs.skip(i as int + 1)[m] by {
                assert(rest@[m] == old_rest[m + 1]);
                assert(interval_views(old_rest)[m + 1] == old_rest[m + 1]@);
            }
            assert(interval_views(rest@) =~= ivs.skip(i as int + 1));
            assert(prefix.drop_last() =~= ivs.take(i as int));
            assert(prefix.last() == iv@);
            lemma_sum_take(ivs, i as int + 1, iv_dwell());
            lemma_sum_take(ivs, i as int + 1, iv_keys());
            lemma_sum_take(ivs, i as int + 1, iv_clicks());
            lemma_sum_take(ivs, i as int + 1, iv_scrolls());
            lemma_sum_take(ivs, i as int + 1, iv_saves());
            assert forall|f: spec_fn(IntervalModel) -> int| nonneg_terms(ivs, f) implies nonneg_terms(
                prefix,
                f,
            ) by {
                assert forall|k: int| 0 <= k < prefix.len() implies f(#[trigger] prefix[k]) >= 0 by {
                    assert(prefix[k] == ivs[k]);
                }
            }
            lemma_gathered(prefix);
            lemma_work_at(work_views(works@), primary_of(iv@.task_key));
        }
        let (identity, kind) = primary_identity(&iv.task_key);
        let at = find_work(&works, &identity, kind);
        match at {
            Some(a) => {
                let ghost before = works@;
                let mut w = works.remove(a);
                assert(w@ == work_views(before)[a as int]);
                assert(gathered(prefix)[a as int] == absorbed(w@, iv@));
                absorb(&mut w, iv);
                works.insert(a, w);
                assert(work_views(works@) =~= work_views(before).update(a as int, w@));
            },
            None => {
                let mut w = new_work(identity, kind);
                assert(gathered(prefix)[works@.len() as int] == absorbed(w@, iv@));
                absorb(&mut w, iv);
                let ghost before = works@;
                works.push(w);
                assert(work_views(works@) =~= work_views(before).push(w@));
            },
        }
        i = i + 1;
    }
    assert(ivs.take(n as int) =~= ivs);
    proof {
        lemma_gathered(ivs);
        let g = gathered(ivs);
        assert forall|a: int, b: int| 0 <= a < b < works@.len() implies work_key(#[trigger] works@[a]@)
            != work_key(#[trigger] works@[b]@) by {
            assert(works@[a]@ == g[a] && works@[b]@ == g[b]);
        }
    }
    order_works(works)
}

/// Sorts works with distinct identities into display order.
fn order_works(works: Vec<Work>) -> (r: Vec<Work>)
    requires
        forall|i: int, j: int|
            0 <= i < j < works@.len() ==> work_key(#[trigger] works@[i]@) != work_key(#[trigger] works@[j]@),
    ensures
        work_views(r@).to_multiset() == work_views(works@).to_multiset(),
        forall|i: int, j: int| 0 <= i < j < r@.len() ==> shown_before(#[trigger] r@[i]@, #[trigger] r@[j]@),
{
    broadcast use vstd::seq_lib::group_to_multiset_ensures;

    let ghost g = work_views(works@);
    let count = works.len();
    let ghost n = g.len();
    assert(n == count);
    let mut rest = works;
    let mut out: Vec<Work> = Vec::new();
    let mut k: usize = 0;
    while rest.len() > 0
        invariant
            n == g.len(),
            n <= usize::MAX,
            k + rest@.len() == n,
            work_views(rest@) == g.skip(k as int),
            forall|i: int, j: int| 0 <= i < j < n ==> work_key(#[trigger] g[i]) != work_key(#[trigger] g[j]),
            work_views(out@).to_multiset() == g.take(k as int).to_multiset(),
            forall|i: int, j: int| 0 <= i < j < out@.len() ==> shown_before(#[trigger] out@[i]@, #[trigger] out@[j]@),
            forall|i: int, m: int|
                0 <= i < out@.len() && k <= m < n ==> work_key(#[trigger] out@[i]@) != work_key(#[trigger] g[m]),
        decreases rest@.len(),
    {
        let ghost old_rest = rest@;
        let x = rest.remove(0);
        proof {
            assert(work_views(old_rest)[0] == x@);
            assert(x@ == g.skip(k as int)[0]);
            assert(x@ == g[k as int]);
            assert forall|m: int| 0 <= m < rest@.len() implies #[trigger] work_views(rest@)[m]
                == g.skip(k as int + 1)[m] by {
                assert(rest@[m] == old_rest[m + 1]);
                assert(work_views(old_rest)[m + 1] == old_rest[m + 1]@);
            }
            assert(work_views(rest@) =~= g.skip(k as int + 1));
        }
        let mut p: usize = 0;
        while p < out.len() && !shown_first(&x, &out[p])
            invariant
                p <= out@.len(),
                forall|i: int| 0 <= i < p ==> !shown_before(x@, #[trigger] out@[i]@),
            decreases out@.len() - p,
        {
            p = p + 1;
        }
        let ghost old_out = out@;
        proof {
            assert forall|i: int| 0 <= i < p implies shown_before(#[trigger] old_out[i]@, x@) by {
                assert(work_key(old_out[i]@) != work_key(g[k as int]));
                lemma_shown_before_total(old_out[i]@, x@);
            }
            if p < old_out.len() {
                assert(shown_before(x@, old_out[p as int]@));
                assert forall|j: int| p <= j < old_out.len() implies shown_before(x@, #[trigger] old_out[j]@) by {
                    if j > p {
                        lemma_shown_before_transitive(x@, old_out[p as int]@, old_out[j]@);
                    }
                }
            }
        }
        out.insert(p, x);
        proof {
            let ov = work_views(old_out);
            assert(work_views(out@) =~= ov.insert(p as int, x@));
            lemma_insert_multiset(ov, p as int, x@);
            assert(g.take(k as int + 1) =~= g.take(k as int).push(g[k as int]));
            vstd::seq_lib::to_multiset_build(g.take(k as int), g[k as int]);
            assert forall|i: int, j: int| 0 <= i < j < out@.len() implies shown_before(
                #[trigger] out@[i]@,
                #[trigger] out@[j]@,
            ) by {
                if j < p {
                    assert(out@[i] == old_out[i] && out@[j] == old_out[j]);
                } else if j == p {
                    assert(out@[i] == old_out[i]);
                } else if i < p {
                    assert(out@[i] == old_out[i] && out@[j] == old_out[j - 1]);
                    lemma_shown_before_transitive(old_out[i]@, x@, old_out[j - 1]@);
                } else if i == p {
                    assert(out@[j] == old_out[j - 1]);
                } else {
                    assert(out@[i] == old_out[i - 1] && out@[j] == old_out[j - 1]);
                }
            }
            assert forall|i: int, m: int| 0 <= i < out@.len() && k + 1 <= m < n implies work_key(
                #[trigger] out@[i]@,
            ) != work_key(#[trigger] g[m]) by {
                if i < p {
                    assert(out@[i] == old_out[i]);
                } else if i == p {
                    assert(out@[i] == x);
                } else {
                    assert(out@[i] == old_out[i - 1]);
                }
            }
        }
        k = k + 1;
    }
    assert(g.take(n as int) =~= g);
    out
}

/// Whether grouping accepts the intervals: totals that fit their fields.
pub fn intervals_groupable(intervals: &Vec<WorkInterval>) -> (r: bool)
    ensures
        r == groupable(interval_views(intervals@)),
{
    let ghost ivs = interval_views(intervals@);
    let mut dwell: u64 = 0;
    let mut keys: u64 = 0;
    let mut clicks: u64 = 0;
    let mut scrolls: u64 = 0;
    let mut saves: usize = 0;
    proof {
        assert(nonneg_terms(ivs, iv_dwell()) && nonneg_terms(ivs, iv_keys()) && nonneg_terms(ivs, iv_clicks())
            && nonneg_terms(ivs, iv_scrolls()) && nonneg_terms(ivs, iv_saves())) by {
            assert forall|j: int| 0 <= j < ivs.len() implies #[trigger] ivs[j] == intervals@[j]@ by {}
        }
    }
    let mut i: usize = 0;
    while i < intervals.len()
        invariant
            i <= intervals@.len(),
            ivs == interval_views(intervals@),
            nonneg_terms(ivs, iv_dwell()) && nonneg_terms(ivs, iv_keys()) && nonneg_terms(ivs, iv_clicks())
                && nonneg_terms(ivs, iv_scrolls()) && nonneg_terms(ivs, iv_saves()),
            dwell == seq_sum(ivs.take(i as int), iv_dwell()),
            keys == seq_sum(ivs.take(i as int), iv_keys()),
            clicks == seq_sum(ivs.take(i as int), iv_clicks()),
            scrolls == seq_sum(ivs.take(i as int), iv_scrolls()),
            saves == seq_sum(ivs.take(i as int), iv_saves()),
        decreases intervals@.len() - i,
    {
        let iv = &intervals[i];
        proof {
            assert(ivs[i as int] == iv@);
            assert(ivs.take(i + 1).drop_last() =~= ivs.take(i as int));
            assert(ivs.take(i + 1).last() == iv@);
            lemma_sum_take(ivs, i + 1, iv_dwell());
            lemma_sum_take(ivs, i + 1, iv_keys());
            lemma_sum_take(ivs, i + 1, iv_clicks());
            lemma_sum_take(ivs, i + 1, iv_scrolls());
            lemma_sum_take(ivs, i + 1, iv_saves());
        }
        if dwell > u64::MAX - iv.total_dwell_ms || keys > u64::MAX - iv.keys || clicks > u64::MAX - iv.clicks
            || scrolls > u64::MAX - iv.scrolls || saves > usize::MAX - iv.attached_saves {
            return false;
        }
        dwell = dwell + iv.total_dwell_ms;
        keys = keys + iv.keys;
        clicks = clicks + iv.clicks;
        scrolls = scrolls + iv.scrolls;
        saves = saves + iv.attached_saves;
        i = i + 1;
    }
    assert(ivs.take(intervals@.len() as int) =~= ivs);
    true
}

// ── Selection for display ──────────────────────────────────────────────────

/// Works with less total time than this (10 seconds) are glances.
pub const MIN_WORK_TIME_MS: u64 = 10_000;

/// A work with enough time to be shown.
pub open spec fn substantial() -> spec_fn(WorkModel) -> bool {
    |w: WorkModel| w.total_time_ms >= MIN_WORK_TIME_MS
}

/// Whether some proposal names position `m`.
pub open spec fn referenced(ps: Seq<MergeProposal>, m: int) -> bool {
    exists|j: int| 0 <= j < ps.len() && (ps[j].work_a == m || ps[j].work_b == m)
}

/// Position `m` is kept: among the first `limit`, or named by a proposal.
pub open spec fn kept(ps: Seq<MergeProposal>, limit: int, m: int) -> bool {
    m < limit || referenced(ps, m)
}

/// How many of the positions before `m` are kept: the new position of a
/// kept `m`.
pub open spec fn kept_before(ps: Seq<MergeProposal>, limit: int, m: int) -> int
    decreases m,
{
    if m <= 0 {
        0
    } else {
        kept_before(ps, limit, m - 1) + if kept(ps, limit, m - 1) {
            1int
        } else {
            0int
        }
    }
}

/// The kept works among the first `n`.
pub open spec fn kept_works(ws: Seq<WorkModel>, ps: Seq<MergeProposal>, limit: int, n: int) -> Seq<WorkModel>
    decreases n,
{
    if n <= 0 {
        seq![]
    } else {
        let prev = kept_works(ws, ps, limit, n - 1);
        if kept(ps, limit, n - 1) {
            prev.push(ws[n - 1])
        } else {
            prev
        }
    }
}

/// The proposals whose works are both kept, renumbered to the kept
/// positions (`n` works in all).
pub open spec fn renumbered(ps: Seq<MergeProposal>, all: Seq<MergeProposal>, limit: int, n: int) -> Seq<MergeProposal>
    decreases ps.len(),
{
    if ps.len() == 0 {
        seq![]
    } else {
        let prev = renumbered(ps.drop_last(), all, limit, n);
        let p = ps.last();
        if p.work_a < n && kept(all, limit, p.work_a as int) && p.work_b < n && kept(all, limit, p.work_b as int) {
            prev.push(
                MergeProposal {
                    work_a: kept_before(all, limit, p.work_a as int) as usize,
                    work_b: kept_before(all, limit, p.work_b as int) as usize,
                    shared_sittings: p.shared_sittings,
                },
            )
        } else {
            prev
        }
    }
}

proof fn lemma_kept_before(ps: Seq<MergeProposal>, limit: int, m: int)
    requires
        0 <= m,
    ensures
        0 <= kept_before(ps, limit, m) <= m,
    decreases m,
{
    if m > 0 {
        lemma_kept_before(ps, limit, m - 1);
    }
}

fn is_referenced(ps: &Vec<MergeProposal>, m: usize) -> (r: bool)
    ensures
        r == referenced(ps@, m as int),
{
    let mut j: usize = 0;
    while j < ps.len()
        invariant
            j <= ps@.len(),
            forall|q: int| 0 <= q < j ==> !(ps@[q].work_a == m || ps@[q].work_b == m),
        decreases ps@.len() - j,
    {
        if ps[j].work_a == m || ps[j].work_b == m {
            return true;
        }
        j = j + 1;
    }
    false
}

/// The works worth showing and the proposals between them: works with at
/// least ten seconds, of those the first `limit` plus any a proposal names
/// by position, and the proposals between kept works renumbered to the
/// kept positions.
pub fn retain_recent_works(works: Vec<Work>, proposals: Vec<MergeProposal>, limit: usize) -> (r: (
    Vec<Work>,
    Vec<MergeProposal>,
))
    ensures
        ({
            let retained = work_views(works@).filter(substantial());
            &&& work_views(r.0@) == kept_works(retained, proposals@, limit as int, retained.len() as int)
            &&& r.1@ == renumbered(proposals@, proposals@, limit as int, retained.len() as int)
        }),
{
    let ghost wv = work_views(works@);
    let mut rest = works;
    let mut retained: Vec<Work> = Vec::new();
    let mut i: usize = 0;
    let total = rest.len();
    while rest.len() > 0
        invariant
            i + rest@.len() == wv.len(),
            total == wv.len(),
            work_views(rest@) == wv.skip(i as int),
            work_views(retained@) == wv.take(i as int).filter(substantial()),
        decreases rest@.len(),
    {
        let ghost old_rest = rest@;
        let w = rest.remove(0);
        proof {
            assert(work_views(old_rest)[0] == w@);
            assert(w@ == wv[i as int]);
            assert forall|q: int| 0 <= q < rest@.len() implies #[trigger] work_views(rest@)[q]
                == wv.skip(i as int + 1)[q] by {
                assert(rest@[q] == old_rest[q + 1]);
                assert(work_views(old_rest)[q + 1] == old_rest[q + 1]@);
            }
            assert(work_views(rest@) =~= wv.skip(i as int + 1));
            assert(wv.take(i as int + 1) =~= wv.take(i as int).push(wv[i as int]));
            wv.take(i as int).lemma_filter_push(wv[i as int], substantial());
        }
        if w.total_time_ms >= MIN_WORK_TIME_MS {
            let ghost before = retained@;
            retained.push(w);
            assert(work_views(retained@) =~= work_views(before).push(w@));
        }
        i = i + 1;
    }
    assert(wv.take(wv.len() as int) =~= wv);
    let ghost rv = work_views(retained@);
    let n = retained.len();
    let mut new_index: Vec<Option<usize>> = Vec::new();
    let mut kept_list: Vec<Work> = Vec::new();
    let mut src = retained;
    let mut m: usize = 0;
    while src.len() > 0
        invariant
            m + src@.len() == n,
            n == rv.len(),
            work_views(src@) == rv.skip(m as int),
            work_views(kept_list@) == kept_works(rv, proposals@, limit as int, m as int),
            kept_list@.len() == kept_before(proposals@, limit as int, m as int),
            new_index@.len() == m,
            forall|q: int|
                0 <= q < m ==> (#[trigger] new_index@[q] matches Some(v) ==> kept(proposals@, limit as int, q)
                    && v == kept_before(proposals@, limit as int, q)) && (new_index@[q] is None
                    ==> !kept(proposals@, limit as int, q)),
        decreases src@.len(),
    {
        let ghost old_src = src@;
        let w = src.remove(0);
        proof {
            assert(work_views(old_src)[0] == w@);
            assert(w@ == rv[m as int]);
            assert forall|q: int| 0 <= q < src@.len() implies #[trigger] work_views(src@)[q]
                == rv.skip(m as int + 1)[q] by {
                assert(src@[q] == old_src[q + 1]);
                assert(work_views(old_src)[q + 1] == old_src[q + 1]@);
            }
            assert(work_views(src@) =~= rv.skip(m as int + 1));
            lemma_kept_before(proposals@, limit as int, m as int);
        }
        if m < limit || is_referenced(&proposals, m) {
            new_index.push(Some(kept_list.len()));
            let ghost before = kept_list@;
            kept_list.push(w);
            assert(work_views(kept_list@) =~= work_views(before).push(w@));
        } else {
            new_index.push(None);
        }
        m = m + 1;
    }
    let mut out: Vec<MergeProposal> = Vec::new();
    let mut j: usize = 0;
    while j < proposals.len()
        invariant
            j <= proposals@.len(),
            new_index@.len() == n,
            forall|q: int|
                0 <= q < n ==> (#[trigger] new_index@[q] matches Some(v) ==> kept(proposals@, limit as int, q)
                    && v == kept_before(proposals@, limit as int, q)) && (new_index@[q] is None
                    ==> !kept(proposals@, limit as int, q)),
            out@ == renumbered(proposals@.take(j as int), proposals@, limit as int, n as int),
        decreases proposals@.len() - j,
    {
        let p = &proposals[j];
        assert(proposals@.take(j as int + 1).drop_last() =~= proposals@.take(j as int));
        assert(proposals@.take(j as int + 1).last() == *p);
        if p.work_a < n && p.work_b < n {
            match (new_index[p.work_a], new_index[p.work_b]) {
                (Some(a), Some(b)) => {
                    out.push(MergeProposal { work_a: a, work_b: b, shared_sittings: p.shared_sittings });
                },
                _ => {},
            }
        }
        j = j + 1;
    }
    assert(proposals@.take(proposals@.len() as int) =~= proposals@);
    (kept_list, out)
}

} // verus!
