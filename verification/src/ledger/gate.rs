//! The regression gate: behavioral checks of grouping against the ground
//! truth of one person's recorded history.
//!
//! * No host is a work.
//! * The recorded playlist lives in exactly one work.
//! * Exactly one gear work.
//! * The recorded chat never joins the gear work.
//! * Development spans at most two works.
//! * No work holds more than 60% of all resources.
//! * Unrelated videos never join the playlist's work.
//!
//! The scenario's names (hosts, playlist, chat, apps) are a fixture: the
//! history is machine-local by nature.

use vstd::prelude::*;
use crate::chars::{contains_text, has_sub};
use crate::ledger::works::{engaged, work_views, Work, WorkModel};
use crate::sorting::views;
use crate::sums::{lemma_sum_drop_last, nonneg_terms, seq_sum};
use crate::text::{concat2, concat3, decimal, fmt_u64, str_eq, to_owned_string, trim, trimmed};

verus! {

/// The regression outcome: what formed and which checks failed.
#[derive(Debug, Clone)]
pub struct GateReport {
    pub attention_events: usize,
    pub saves: usize,
    pub declared_pairs: usize,
    pub intervals: usize,
    pub works: Vec<GateWork>,
    pub merge_proposals: usize,
    /// Every violated gate, human-readable. Empty = pass.
    pub failures: Vec<String>,
}

/// One work as the regression report shows it.
#[derive(Debug, Clone)]
pub struct GateWork {
    pub identity: String,
    pub total_time_ms: u64,
    pub sessions: usize,
    pub urls: usize,
    pub documents: usize,
    pub titles: Vec<String>,
    pub apps: Vec<String>,
}

/// The names the scenarios are recognized by.
pub struct GateFixture {
    /// Hosts that must never be a work's identity.
    pub hosts: Vec<String>,
    /// The playlist id of the recorded trek videos.
    pub playlist: String,
    /// A title fragment and a host naming the gear pages.
    pub gear_title: String,
    pub gear_host: String,
    /// A URL fragment naming the recorded chat.
    pub chat: String,
    /// The development app and a path fragment of its sources.
    pub dev_app: String,
    pub dev_path: String,
    /// Ids of videos unrelated to the playlist.
    pub unrelated: Vec<String>,
}

impl GateFixture {
    /// The names of the recorded history the regression report checks: the
    /// hosts, the trek playlist, the Arc'teryx gear pages, the kundli chat
    /// (by its conversation path), the evo sources and the two unrelated
    /// videos.
    pub fn recorded() -> (r: Self)
        ensures
            views(r.hosts@) == seq!["youtube.com"@, "google.com"@, "www.youtube.com"@],
            r.playlist@ == "PLiM-TFJI81"@,
            r.gear_title@ == "Arc'teryx"@,
            r.gear_host@ == "arcteryx.com"@,
            r.chat@ == "/chat/f5c116b5"@,
            r.dev_app@ == "ZCode"@,
            r.dev_path@ == "Evo-Evolution.nosync/crates"@,
            views(r.unrelated@) == seq!["RdWnMbsZhxk"@, "eswW2BoFAUs"@],
    {
        let hosts = vec![
            to_owned_string("youtube.com"),
            to_owned_string("google.com"),
            to_owned_string("www.youtube.com"),
        ];
        let unrelated = vec![to_owned_string("RdWnMbsZhxk"), to_owned_string("eswW2BoFAUs")];
        assert(views(hosts@) =~= seq!["youtube.com"@, "google.com"@, "www.youtube.com"@]);
        assert(views(unrelated@) =~= seq!["RdWnMbsZhxk"@, "eswW2BoFAUs"@]);
        GateFixture {
            hosts,
            playlist: to_owned_string("PLiM-TFJI81"),
            gear_title: to_owned_string("Arc'teryx"),
            gear_host: to_owned_string("arcteryx.com"),
            chat: to_owned_string("/chat/f5c116b5"),
            dev_app: to_owned_string("ZCode"),
            dev_path: to_owned_string("Evo-Evolution.nosync/crates"),
            unrelated,
        }
    }
}

/// Some text of `v` satisfies `f`.
pub open spec fn some_text(v: Seq<Seq<char>>, f: spec_fn(Seq<char>) -> bool) -> bool {
    exists|i: int| 0 <= i < v.len() && f(#[trigger] v[i])
}

/// The work holds a URL of the playlist.
pub open spec fn on_playlist(list: Seq<char>) -> spec_fn(WorkModel) -> bool {
    |w: WorkModel| some_text(w.urls, |u: Seq<char>| has_sub(u, "list="@) && has_sub(u, list))
}

/// The work is the gear work: a gear title or a gear URL.
pub open spec fn is_gear(title: Seq<char>, host: Seq<char>) -> spec_fn(WorkModel) -> bool {
    |w: WorkModel|
        some_text(w.titles, |t: Seq<char>| has_sub(t, title)) || some_text(
            w.urls,
            |u: Seq<char>| has_sub(u, host),
        )
}

/// The work holds the chat.
pub open spec fn has_chat(chat: Seq<char>) -> spec_fn(WorkModel) -> bool {
    |w: WorkModel| some_text(w.urls, |u: Seq<char>| has_sub(u, chat))
}

/// The work is development: the app, a title naming it, or its sources.
pub open spec fn is_dev(app: Seq<char>, path: Seq<char>) -> spec_fn(WorkModel) -> bool {
    |w: WorkModel|
        some_text(w.apps, |a: Seq<char>| a == app) || some_text(w.titles, |t: Seq<char>| t == app)
            || some_text(w.documents, |d: Seq<char>| has_sub(d, path))
}

/// The position of the first work satisfying `f`, or `-1`.
pub open spec fn first_where(ws: Seq<WorkModel>, f: spec_fn(WorkModel) -> bool, n: int) -> int
    decreases n,
{
    if n <= 0 {
        -1
    } else {
        let before = first_where(ws, f, n - 1);
        if before >= 0 {
            before
        } else if f(ws[n - 1]) {
            n - 1
        } else {
            -1
        }
    }
}

/// The resources a work holds: its URLs and documents.
pub open spec fn resources() -> spec_fn(WorkModel) -> int {
    |w: WorkModel| (w.urls.len() + w.documents.len()) as int
}

/// The most resources any of the first `n` works holds.
pub open spec fn most_resources(ws: Seq<WorkModel>, n: int) -> int
    decreases n,
{
    if n <= 0 {
        0
    } else {
        let m = most_resources(ws, n - 1);
        let r = (ws[n - 1].urls.len() + ws[n - 1].documents.len()) as int;
        if r > m {
            r
        } else {
            m
        }
    }
}

/// The host gates, one message per host some work is keyed by.
pub open spec fn host_failures(ws: Seq<WorkModel>, hosts: Seq<Seq<char>>) -> Seq<Seq<char>>
    decreases hosts.len(),
{
    if hosts.len() == 0 {
        seq![]
    } else {
        let prev = host_failures(ws, hosts.drop_last());
        let h = hosts.last();
        if exists|k: int| 0 <= k < ws.len() && trim(#[trigger] ws[k].identity) == h {
            prev.push("a work is keyed by the host "@ + h)
        } else {
            prev
        }
    }
}

/// `xs` with `m` appended when `c` holds.
pub open spec fn add_if(xs: Seq<Seq<char>>, c: bool, m: Seq<char>) -> Seq<Seq<char>> {
    if c {
        xs.push(m)
    } else {
        xs
    }
}

/// Every violated gate, in gate order.
pub open spec fn gate_failures(ws: Seq<WorkModel>, fx: GateFixture) -> Seq<Seq<char>> {
    let n = ws.len() as int;
    let playlist = ws.filter(on_playlist(fx.playlist@)).len();
    let gear = ws.filter(is_gear(fx.gear_title@, fx.gear_host@)).len();
    let dev = ws.filter(is_dev(fx.dev_app@, fx.dev_path@)).len();
    let first_chat = first_where(ws, has_chat(fx.chat@), n);
    let first_gear = first_where(ws, is_gear(fx.gear_title@, fx.gear_host@), n);
    let trek = first_where(ws, on_playlist(fx.playlist@), n);
    let total = seq_sum(ws, resources());
    let largest = most_resources(ws, n);
    let unrelated = views(fx.unrelated@);
    let f1 = host_failures(ws, views(fx.hosts@));
    let f2 = add_if(
        f1,
        playlist != 1,
        "expected the trek playlist to live in exactly one work, found "@ + decimal(playlist),
    );
    let f3 = add_if(f2, gear != 1, "expected exactly one Arc'teryx gear work, found "@ + decimal(gear));
    let f4 = add_if(
        f3,
        first_chat >= 0 && first_gear >= 0 && first_chat == first_gear,
        "the kundli chat merged into the Arc'teryx gear work"@,
    );
    let f5 = add_if(
        f4,
        dev > 2,
        "evo development spans "@ + decimal(dev) + " works, expected at most 2"@,
    );
    let f6 = add_if(
        f5,
        total > 0 && 5 * largest > 3 * total,
        "a mega-work holds "@ + decimal(largest as nat) + " of "@ + decimal(total as nat)
            + " resources"@,
    );
    add_if(
        f6,
        trek >= 0 && some_text(
            ws[trek].urls,
            |u: Seq<char>| some_text(unrelated, |id: Seq<char>| has_sub(u, id)),
        ),
        "an unrelated video joined the trek work"@,
    )
}

/// Whether some text of `v` contains `p`.
fn any_contains(v: &Vec<String>, p: &str) -> (r: bool)
    ensures
        r == some_text(views(v@), |t: Seq<char>| has_sub(t, p@)),
{
    let ghost tv = views(v@);
    let mut i: usize = 0;
    while i < v.len()
        invariant
            i <= v@.len(),
            tv == views(v@),
            forall|j: int| 0 <= j < i ==> !has_sub(#[trigger] tv[j], p@),
        decreases v@.len() - i,
    {
        assert(tv[i as int] == v@[i as int]@);
        if contains_text(v[i].as_str(), p) {
            return true;
        }
        i = i + 1;
    }
    false
}

/// Whether some text of `v` equals `p`.
fn any_equals(v: &Vec<String>, p: &str) -> (r: bool)
    ensures
        r == some_text(views(v@), |t: Seq<char>| t == p@),
{
    let ghost tv = views(v@);
    let mut i: usize = 0;
    while i < v.len()
        invariant
            i <= v@.len(),
            tv == views(v@),
            forall|j: int| 0 <= j < i ==> #[trigger] tv[j] != p@,
        decreases v@.len() - i,
    {
        assert(tv[i as int] == v@[i as int]@);
        if str_eq(v[i].as_str(), p) {
            return true;
        }
        i = i + 1;
    }
    false
}

fn playlist_url_in(v: &Vec<String>, list: &str) -> (r: bool)
    ensures
        r == some_text(views(v@), |u: Seq<char>| has_sub(u, "list="@) && has_sub(u, list@)),
{
    let ghost tv = views(v@);
    let mut i: usize = 0;
    while i < v.len()
        invariant
            i <= v@.len(),
            tv == views(v@),
            forall|j: int| 0 <= j < i ==> !(has_sub(#[trigger] tv[j], "list="@) && has_sub(tv[j], list@)),
        decreases v@.len() - i,
    {
        assert(tv[i as int] == v@[i as int]@);
        if contains_text(v[i].as_str(), "list=") && contains_text(v[i].as_str(), list) {
            return true;
        }
        i = i + 1;
    }
    false
}

fn unrelated_url_in(v: &Vec<String>, ids: &Vec<String>) -> (r: bool)
    ensures
        r == some_text(
            views(v@),
            |u: Seq<char>| some_text(views(ids@), |id: Seq<char>| has_sub(u, id)),
        ),
{
    let ghost tv = views(v@);
    let ghost iv = views(ids@);
    let mut i: usize = 0;
    while i < v.len()
        invariant
            i <= v@.len(),
            tv == views(v@),
            iv == views(ids@),
            forall|j: int| 0 <= j < i ==> !some_text(iv, |id: Seq<char>| has_sub(#[trigger] tv[j], id)),
        decreases v@.len() - i,
    {
        assert(tv[i as int] == v@[i as int]@);
        let mut k: usize = 0;
        while k < ids.len()
            invariant
                k <= ids@.len(),
                i < v@.len(),
                tv == views(v@),
                iv == views(ids@),
                forall|q: int| 0 <= q < k ==> !has_sub(tv[i as int], #[trigger] iv[q]),
            decreases ids@.len() - k,
        {
            assert(iv[k as int] == ids@[k as int]@);
            if contains_text(v[i].as_str(), ids[k].as_str()) {
                assert(some_text(iv, |id: Seq<char>| has_sub(tv[i as int], id)));
                return true;
            }
            k = k + 1;
        }
        i = i + 1;
    }
    false
}

/// Every violated gate over the works, in gate order.
pub fn evaluate_gates(works: &Vec<Work>, fixture: &GateFixture) -> (r: Vec<String>)
    requires
        seq_sum(work_views(works@), resources()) <= usize::MAX,
    ensures
        views(r@) == gate_failures(work_views(works@), *fixture),
{
    let ghost ws = work_views(works@);
    let n = works.len();
    let mut failures: Vec<String> = Vec::new();
    // Gate 1: no host is a work identity.
    let ghost hv = views(fixture.hosts@);
    let mut h: usize = 0;
    while h < fixture.hosts.len()
        invariant
            h <= fixture.hosts@.len(),
            hv == views(fixture.hosts@),
            ws == work_views(works@),
            views(failures@) == host_failures(ws, hv.take(h as int)),
        decreases fixture.hosts@.len() - h,
    {
        let host = fixture.hosts[h].as_str();
        assert(hv.take(h + 1).drop_last() =~= hv.take(h as int));
        assert(hv.take(h + 1).last() == host@);
        let mut found = false;
        let mut k: usize = 0;
        while k < works.len()
            invariant
                k <= works@.len(),
                ws == work_views(works@),
                found == exists|q: int| 0 <= q < k && trim(#[trigger] ws[q].identity) == host@,
            decreases works@.len() - k,
        {
            assert(ws[k as int] == works@[k as int]@);
            let t = trimmed(works[k].identity.as_str());
            let same = str_eq(t.as_str(), host);
            assert(same == (trim(ws[k as int].identity) == host@));
            if same {
                found = true;
            }
            k = k + 1;
        }
        if found {
            let ghost before = failures@;
            failures.push(concat2("a work is keyed by the host ", host));
            assert(views(failures@) =~= views(before).push("a work is keyed by the host "@ + host@));
        }
        h = h + 1;
    }
    assert(hv.take(hv.len() as int) =~= hv);
    let ghost f1 = views(failures@);
    // Counts, first positions and resource totals in one pass.
    let mut playlist: usize = 0;
    let mut gear: usize = 0;
    let mut dev: usize = 0;
    let mut first_chat: Option<usize> = None;
    let mut first_gear: Option<usize> = None;
    let mut trek: Option<usize> = None;
    let mut total: usize = 0;
    let mut largest: usize = 0;
    let mut k: usize = 0;
    proof {
        assert(nonneg_terms(ws, resources()));
    }
    while k < n
        invariant
            n == works@.len(),
            ws == work_views(works@),
            nonneg_terms(ws, resources()),
            seq_sum(ws, resources()) <= usize::MAX,
            k <= n,
            playlist == ws.take(k as int).filter(on_playlist(fixture.playlist@)).len(),
            gear == ws.take(k as int).filter(is_gear(fixture.gear_title@, fixture.gear_host@)).len(),
            dev == ws.take(k as int).filter(is_dev(fixture.dev_app@, fixture.dev_path@)).len(),
            playlist <= k && gear <= k && dev <= k,
            match first_chat {
                Some(c) => c as int == first_where(ws, has_chat(fixture.chat@), k as int),
                None => first_where(ws, has_chat(fixture.chat@), k as int) == -1,
            },
            match first_gear {
                Some(c) => c as int == first_where(ws, is_gear(fixture.gear_title@, fixture.gear_host@), k as int),
                None => first_where(ws, is_gear(fixture.gear_title@, fixture.gear_host@), k as int) == -1,
            },
            match trek {
                Some(c) => c as int == first_where(ws, on_playlist(fixture.playlist@), k as int) && c < n,
                None => first_where(ws, on_playlist(fixture.playlist@), k as int) == -1,
            },
            total == seq_sum(ws.take(k as int), resources()),
            largest == most_resources(ws, k as int),
            largest <= total,
        decreases n - k,
    {
        let w = &works[k];
        let ghost wm = ws[k as int];
        assert(wm == w@);
        assert(ws.take(k + 1) =~= ws.take(k as int).push(wm));
        assert(ws.take(k + 1).drop_last() =~= ws.take(k as int));
        proof {
            ws.take(k as int).lemma_filter_push(wm, on_playlist(fixture.playlist@));
            ws.take(k as int).lemma_filter_push(wm, is_gear(fixture.gear_title@, fixture.gear_host@));
            ws.take(k as int).lemma_filter_push(wm, is_dev(fixture.dev_app@, fixture.dev_path@));
            assert(nonneg_terms(ws.take(k + 1), resources())) by {
                assert forall|q: int| 0 <= q < ws.take(k + 1).len() implies resources()(
                    #[trigger] ws.take(k + 1)[q],
                ) >= 0 by {
                    assert(ws.take(k + 1)[q] == ws[q]);
                }
            }
            crate::sums::lemma_sum_take(ws, k + 1, resources());
        }
        let on_list = playlist_url_in(&w.urls, fixture.playlist.as_str());
        let gear_here = any_contains(&w.titles, fixture.gear_title.as_str()) || any_contains(
            &w.urls,
            fixture.gear_host.as_str(),
        );
        let dev_here = any_equals(&w.apps, fixture.dev_app.as_str()) || any_equals(
            &w.titles,
            fixture.dev_app.as_str(),
        ) || any_contains(&w.documents, fixture.dev_path.as_str());
        let chat_here = any_contains(&w.urls, fixture.chat.as_str());
        if on_list {
            playlist = playlist + 1;
            if trek.is_none() {
                trek = Some(k);
            }
        }
        if gear_here {
            gear = gear + 1;
            if first_gear.is_none() {
                first_gear = Some(k);
            }
        }
        if dev_here {
            dev = dev + 1;
        }
        if chat_here && first_chat.is_none() {
            first_chat = Some(k);
        }
        let r = w.urls.len() + w.documents.len();
        if r > largest {
            largest = r;
        }
        total = total + r;
        k = k + 1;
    }
    assert(ws.take(n as int) =~= ws);
    if playlist != 1 {
        let ghost before = failures@;
        failures.push(concat2(
            "expected the trek playlist to live in exactly one work, found ",
            fmt_u64(playlist as u64).as_str(),
        ));
        assert(views(failures@) =~= views(before).push(
            "expected the trek playlist to live in exactly one work, found "@ + decimal(playlist as nat),
        ));
    }
    if gear != 1 {
        let ghost before = failures@;
        failures.push(concat2("expected exactly one Arc'teryx gear work, found ", fmt_u64(gear as u64).as_str()));
        assert(views(failures@) =~= views(before).push(
            "expected exactly one Arc'teryx gear work, found "@ + decimal(gear as nat),
        ));
    }
    let same = match (first_chat, first_gear) {
        (Some(c), Some(g)) => c == g,
        _ => false,
    };
    if same {
        let ghost before = failures@;
        failures.push(to_owned_string("the kundli chat merged into the Arc'teryx gear work"));
        assert(views(failures@) =~= views(before).push("the kundli chat merged into the Arc'teryx gear work"@));
    }
    if dev > 2 {
        let ghost before = failures@;
        failures.push(concat3("evo development spans ", fmt_u64(dev as u64).as_str(), " works, expected at most 2"));
        assert(views(failures@) =~= views(before).push(
            "evo development spans "@ + decimal(dev as nat) + " works, expected at most 2"@,
        ));
    }
    if total > 0 && 5 * (largest as u128) > 3 * (total as u128) {
        let ghost before = failures@;
        let a = concat3("a mega-work holds ", fmt_u64(largest as u64).as_str(), " of ");
        failures.push(concat3(a.as_str(), fmt_u64(total as u64).as_str(), " resources"));
        assert(views(failures@) =~= views(before).push(
            "a mega-work holds "@ + decimal(largest as nat) + " of "@ + decimal(total as nat)
                + " resources"@,
        ));
    }
    if let Some(t) = trek {
        assert(ws[t as int] == works@[t as int]@);
        if unrelated_url_in(&works[t].urls, &fixture.unrelated) {
            let ghost before = failures@;
            failures.push(to_owned_string("an unrelated video joined the trek work"));
            assert(views(failures@) =~= views(before).push("an unrelated video joined the trek work"@));
        }
    }
    failures
}

/// The first `n` characters of a text (all of it when shorter).
pub open spec fn take_chars(s: Seq<char>, n: int) -> Seq<char> {
    if s.len() <= n {
        s
    } else {
        s.take(n)
    }
}

/// A work as the regression report shows it: its identity cut to 80 characters, its
/// time, its engaged sessions, its resource counts, its first 8 titles
/// and its apps.
pub fn gate_work(w: &Work) -> (r: GateWork)
    ensures
        r.identity@ == take_chars(w.identity@, 80),
        r.total_time_ms == w.total_time_ms,
        r.sessions == match w.session_count_override {
            Some(n) => n as int,
            None => w@.intervals.filter(engaged()).len() as int,
        },
        r.urls == w.urls@.len(),
        r.documents == w.documents@.len(),
        views(r.titles@) == take_chars_list(views(w.titles@), 8),
        views(r.apps@) == views(w.apps@),
{
    let cv = crate::text::chars_of(w.identity.as_str());
    let cut = if cv.len() <= 80 {
        crate::text::string_of(&cv)
    } else {
        crate::text::string_of_range(&cv, 0, 80)
    };
    proof {
        if cv@.len() > 80 {
            assert(cv@.subrange(0, 80) =~= cv@.take(80));
        }
    }
    let ghost tv = views(w.titles@);
    let mut titles: Vec<String> = Vec::new();
    let mut i: usize = 0;
    while i < w.titles.len() && i < 8
        invariant
            i <= w.titles@.len(),
            i <= 8,
            tv == views(w.titles@),
            views(titles@) == tv.take(i as int),
        decreases w.titles@.len() - i,
    {
        let ghost before = titles@;
        titles.push(to_owned_string(w.titles[i].as_str()));
        assert(views(titles@) =~= views(before).push(tv[i as int]));
        assert(tv.take(i + 1) =~= tv.take(i as int).push(tv[i as int]));
        i = i + 1;
    }
    assert(tv.take(i as int) =~= take_chars_list(tv, 8));
    let ghost av = views(w.apps@);
    let mut apps: Vec<String> = Vec::new();
    let mut j: usize = 0;
    while j < w.apps.len()
        invariant
            j <= w.apps@.len(),
            av == views(w.apps@),
            views(apps@) == av.take(j as int),
        decreases w.apps@.len() - j,
    {
        let ghost before = apps@;
        apps.push(to_owned_string(w.apps[j].as_str()));
        assert(views(apps@) =~= views(before).push(av[j as int]));
        assert(av.take(j + 1) =~= av.take(j as int).push(av[j as int]));
        j = j + 1;
    }
    assert(av.take(w.apps@.len() as int) =~= av);
    GateWork {
        identity: cut,
        total_time_ms: w.total_time_ms,
        sessions: w.session_count(),
        urls: w.urls.len(),
        documents: w.documents.len(),
        titles,
        apps,
    }
}

/// The first `n` texts of a list (all of it when shorter).
pub open spec fn take_chars_list(v: Seq<Seq<char>>, n: int) -> Seq<Seq<char>> {
    if v.len() <= n {
        v
    } else {
        v.take(n)
    }
}

/// Whether the resources of all works can be counted in a `usize`.
pub fn resources_fit(works: &Vec<Work>) -> (r: bool)
    ensures
        r == (seq_sum(work_views(works@), resources()) <= usize::MAX),
{
    let ghost ws = work_views(works@);
    let mut total: usize = 0;
    proof {
        assert(nonneg_terms(ws, resources()));
    }
    let mut i: usize = 0;
    while i < works.len()
        invariant
            i <= works@.len(),
            ws == work_views(works@),
            nonneg_terms(ws, resources()),
            total == seq_sum(ws.take(i as int), resources()),
        decreases works@.len() - i,
    {
        let w = &works[i];
        proof {
            assert(ws[i as int] == w@);
            assert(ws.take(i + 1).drop_last() =~= ws.take(i as int));
            assert(ws.take(i + 1).last() == w@);
            crate::sums::lemma_sum_take(ws, i + 1, resources());
        }
        let r = w.urls.len();
        if r > usize::MAX - total {
            return false;
        }
        let t = total + r;
        if w.documents.len() > usize::MAX - t {
            return false;
        }
        total = t + w.documents.len();
        i = i + 1;
    }
    assert(ws.take(works@.len() as int) =~= ws);
    true
}

} // verus!
