//! Purpose-level grouping: which work an attendance was part of.
//!
//! Pages (the resource atoms) are joined into structural groups only by
//! hard links: a shared opaque token (a playlist), near-duplicate cleaned
//! titles, or a declared same-work pair. A group establishes a work when
//! it holds at least 15% of a sitting's dwell for at least 300 s, or when
//! it spans two or more pages with 300 s of dwell in all. Zero-keystroke
//! pages seen beside two or more established works are ambient and join
//! nothing; other groups attach, inside a sitting, to the sitting's
//! dominant established work when they hold 8% of it or carry input and
//! interleave with it. Works co-present in two or more sittings are
//! proposed for merging, never merged.
//!
//! Shares are compared exactly, in integers: `20·d ≥ 3·t` for 15% and
//! `25·d ≥ 2·t` for 8%.

use vstd::prelude::*;
use crate::ledger::hypotheses::{lemma_start_order, Declarations, MergeProposal, PROPOSAL_SITTINGS, sitting_views, sittings_from_intervals, sittings_of, start_order, Sitting, SittingModel};
use crate::ledger::identity::KeyModel;
use crate::ledger::works::{iv_clicks, iv_dwell, iv_keys, iv_saves, iv_scrolls, work_views, IdentityKind, Work, WorkModel};
use crate::ledger::identity::TaskKey;
use crate::ledger::pages::opt_text;
use crate::sorting::{key_order, lemma_key_order, lemma_sorted_unique, stable_key_order};
use vstd::relations::{sorted_by, total_ordering};
use crate::sums::{lemma_sum_take, nonneg_terms, seq_sum};
use crate::ledger::intervals::{interval_views, IntervalModel, WorkInterval};
use crate::ledger::pages::{canonical_page, canonical_page_of, distinct_tokens, opaque_tokens, string_views, token_candidates};
use crate::ledger::titles::{distinct, near_duplicate, near_duplicate_tokens, recurring_chrome, recurring_title_chrome, set_views, specific_tokens, specific_tokens_of};
use crate::ledger::works::push_all;
use crate::sorting::{lemma_lex_order_total, lex_order, sort_strings, sorted_texts, views};
use crate::chars::slice;
use crate::text::{blank, is_blank, decimal, fmt_u64, chars_of, concat2, has_prefix, starts_with, string_of, str_less, lemma_lex_asymmetric, lemma_lex_irreflexive, lemma_lex_total, lemma_lex_transitive, lex_le, lex_less, lex_lt, push_new, push_unique, str_eq};

verus! {

broadcast use vstd::seq_lib::group_seq_properties;

// ── Page keys ──────────────────────────────────────────────────────────────

/// `doc:`
pub open spec fn doc_prefix() -> Seq<char> {
    seq!['d', 'o', 'c', ':']
}

/// `page:`
pub open spec fn page_prefix() -> Seq<char> {
    seq!['p', 'a', 'g', 'e', ':']
}

/// `title:`
pub open spec fn title_prefix() -> Seq<char> {
    seq!['t', 'i', 't', 'l', 'e', ':']
}

/// `app:`
pub open spec fn app_prefix() -> Seq<char> {
    seq!['a', 'p', 'p', ':']
}

/// The page an interval attended: its document, its canonical page, its
/// title, or its application, in that order of precedence.
pub open spec fn page_key(k: KeyModel) -> Seq<char> {
    match k.document_path {
        Some(d) => doc_prefix() + d,
        None => match k.page {
            Some(p) => page_prefix() + p,
            None => match k.window_title {
                Some(t) => title_prefix() + t,
                None => app_prefix() + k.app_name,
            },
        },
    }
}

/// The page of each interval.
pub open spec fn interval_keys(ivs: Seq<IntervalModel>) -> Seq<Seq<char>> {
    ivs.map_values(|iv: IntervalModel| page_key(iv.task_key))
}

/// The pages in order of first attendance.
pub open spec fn page_order(ivs: Seq<IntervalModel>) -> Seq<Seq<char>> {
    distinct(interval_keys(ivs))
}

/// The pages in code-point order.
pub open spec fn page_list(ivs: Seq<IntervalModel>) -> Seq<Seq<char>> {
    sorted_texts(page_order(ivs))
}

/// The page key of an interval.
pub fn page_key_of(interval: &WorkInterval) -> (r: String)
    ensures
        r@ == page_key(interval.task_key@),
{
    proof {
        reveal_strlit("doc:");
        reveal_strlit("page:");
        reveal_strlit("title:");
        reveal_strlit("app:");
    }
    let k = &interval.task_key;
    match &k.document_path {
        Some(d) => concat2("doc:", d.as_str()),
        None => match &k.page {
            Some(p) => concat2("page:", p.as_str()),
            None => match &k.window_title {
                Some(t) => concat2("title:", t.as_str()),
                None => concat2("app:", k.app_name.as_str()),
            },
        },
    }
}

/// What `distinct` keeps: every element once, nothing else.
pub proof fn lemma_distinct(v: Seq<Seq<char>>)
    ensures
        distinct(v).no_duplicates(),
        forall|x: Seq<char>| #[trigger] distinct(v).contains(x) <==> v.contains(x),
        distinct(v).len() <= v.len(),
    decreases v.len(),
{
    if v.len() > 0 {
        let p = v.drop_last();
        lemma_distinct(p);
        assert(distinct(v) == push_new(distinct(p), v.last()));
        assert forall|x: Seq<char>| #[trigger] distinct(v).contains(x) <==> v.contains(x) by {
            if v.contains(x) && x != v.last() {
                let i = choose|i: int| 0 <= i < v.len() && v[i] == x;
                assert(p[i] == x);
            }
            if distinct(p).contains(x) {
                let i = choose|i: int| 0 <= i < p.len() && p[i] == x;
                assert(v[i] == x);
            }
            if distinct(v).contains(x) && !distinct(p).contains(x) {
                assert(x == v.last());
                assert(v[v.len() - 1] == x);
            }
        }
    } else {
        assert(distinct(v) =~= Seq::<Seq<char>>::empty());
    }
}

/// Sorting keeps a sequence's elements, and keeps them free of repeats.
pub proof fn lemma_sorted_texts(t: Seq<Seq<char>>)
    ensures
        forall|x: Seq<char>| #[trigger] sorted_texts(t).contains(x) <==> t.contains(x),
        sorted_texts(t).len() == t.len(),
        t.no_duplicates() ==> sorted_texts(t).no_duplicates(),
{
    broadcast use vstd::multiset::group_multiset_axioms;

    lemma_lex_order_total();
    t.lemma_sort_by_ensures(lex_order());
    let s = sorted_texts(t);
    assert(s.to_multiset().len() == s.len());
    assert(t.to_multiset().len() == t.len());
    assert forall|x: Seq<char>| #[trigger] s.contains(x) <==> t.contains(x) by {
        if s.contains(x) {
            assert(s.to_multiset().count(x) > 0);
        }
        if t.contains(x) {
            assert(t.to_multiset().count(x) > 0);
        }
    }
    if t.no_duplicates() {
        t.lemma_multiset_has_no_duplicates();
        assert forall|x: Seq<char>| s.to_multiset().contains(x) implies s.to_multiset().count(x) == 1 by {
            assert(t.to_multiset().contains(x));
        }
        s.lemma_multiset_has_no_duplicates_conv();
    }
}

/// The position of `s` in `v`, when `v` holds it.
pub fn position_of(v: &Vec<String>, s: &str) -> (r: Option<usize>)
    ensures
        match r {
            Some(k) => k < v@.len() && v@[k as int]@ == s@ && forall|j: int| 0 <= j < k ==> v@[j]@ != s@,
            None => !views(v@).contains(s@),
        },
{
    let mut i: usize = 0;
    while i < v.len()
        invariant
            i <= v@.len(),
            forall|j: int| 0 <= j < i ==> v@[j]@ != s@,
        decreases v@.len() - i,
    {
        if str_eq(v[i].as_str(), s) {
            return Some(i);
        }
        i = i + 1;
    }
    proof {
        if views(v@).contains(s@) {
            let j = choose|j: int| 0 <= j < views(v@).len() && views(v@)[j] == s@;
            assert(v@[j]@ == s@);
        }
    }
    None
}

/// The pages of a run of intervals: their keys in code-point order, and
/// for each interval the position of its page among them.
pub fn pages_of(intervals: &[WorkInterval]) -> (r: (Vec<String>, Vec<usize>, Vec<String>))
    ensures
        views(r.0@) == page_list(interval_views(intervals@)),
        views(r.2@) == page_order(interval_views(intervals@)),
        r.1@.len() == intervals@.len(),
        forall|i: int| 0 <= i < intervals@.len() ==> (#[trigger] r.1@[i]) < r.0@.len()
            && r.0@[r.1@[i] as int]@ == interval_keys(interval_views(intervals@))[i],
        views(r.0@).no_duplicates(),
{
    let ghost ivs = interval_views(intervals@);
    let ghost ks = interval_keys(ivs);
    let mut keys: Vec<String> = Vec::new();
    let mut order: Vec<String> = Vec::new();
    let mut i: usize = 0;
    while i < intervals.len()
        invariant
            i <= intervals@.len(),
            ivs == interval_views(intervals@),
            ks == interval_keys(ivs),
            views(keys@) == ks.take(i as int),
            views(order@) == distinct(ks.take(i as int)),
        decreases intervals@.len() - i,
    {
        let k = page_key_of(&intervals[i]);
        proof {
            assert(k@ == ks[i as int]);
            assert(ks.take(i + 1).drop_last() =~= ks.take(i as int));
            assert(ks.take(i + 1).last() == ks[i as int]);
        }
        push_unique(&mut order, k.as_str());
        let ghost before = views(keys@);
        keys.push(k);
        assert(views(keys@) =~= before.push(ks[i as int]));
        i = i + 1;
    }
    assert(ks.take(intervals@.len() as int) =~= ks);
    let sorted = sort_strings(&order);
    proof {
        lemma_distinct(ks);
        lemma_sorted_texts(distinct(ks));
    }
    let mut pk: Vec<usize> = Vec::new();
    let mut j: usize = 0;
    while j < keys.len()
        invariant
            j <= keys@.len(),
            keys@.len() == intervals@.len(),
            views(keys@) == ks,
            ks == interval_keys(ivs),
            ivs == interval_views(intervals@),
            views(sorted@) == sorted_texts(distinct(ks)),
            forall|x: Seq<char>| #[trigger] views(sorted@).contains(x) <==> ks.contains(x),
            pk@.len() == j,
            forall|t: int| 0 <= t < j ==> (#[trigger] pk@[t]) < sorted@.len()
                && sorted@[pk@[t] as int]@ == ks[t],
        decreases keys@.len() - j,
    {
        assert(ks[j as int] == keys@[j as int]@);
        assert(ks.contains(ks[j as int]));
        match position_of(&sorted, keys[j].as_str()) {
            Some(p) => {
                pk.push(p);
            },
            None => {
                assert(false);
                pk.push(0);
            },
        }
        j = j + 1;
    }
    (sorted, pk, order)
}

// ── Page texts ─────────────────────────────────────────────────────────────

/// Which texts of an interval a page gathers.
#[derive(Clone, Copy)]
pub enum TextField {
    Urls,
    Documents,
    Titles,
    App,
}

/// The texts of an interval in one field.
pub open spec fn field_texts(iv: IntervalModel, f: TextField) -> Seq<Seq<char>> {
    match f {
        TextField::Urls => iv.urls,
        TextField::Documents => iv.document_paths,
        TextField::Titles => iv.titles,
        TextField::App => seq![iv.task_key.app_name],
    }
}

/// The texts in one field of the first `n` intervals attending `p`, in
/// interval order.
pub open spec fn gathered_texts(ivs: Seq<IntervalModel>, f: TextField, p: Seq<char>, n: int) -> Seq<Seq<char>>
    decreases n,
{
    if n <= 0 {
        Seq::empty()
    } else {
        let prev = gathered_texts(ivs, f, p, n - 1);
        if page_key(ivs[n - 1].task_key) == p {
            prev + field_texts(ivs[n - 1], f)
        } else {
            prev
        }
    }
}

/// A page's texts in one field: each once, in code-point order.
pub open spec fn page_texts(ivs: Seq<IntervalModel>, f: TextField, p: Seq<char>) -> Seq<Seq<char>> {
    sorted_texts(distinct(gathered_texts(ivs, f, p, ivs.len() as int)))
}

/// Appending texts one by one, each unless already held.
pub proof fn lemma_push_all_concat(v: Seq<Seq<char>>, a: Seq<Seq<char>>, b: Seq<Seq<char>>)
    ensures
        push_all(v, a + b) == push_all(push_all(v, a), b),
    decreases b.len(),
{
    if b.len() == 0 {
        assert(a + b =~= a);
    } else {
        lemma_push_all_concat(v, a, b.drop_last());
        assert((a + b).drop_last() =~= a + b.drop_last());
        assert((a + b).last() == b.last());
    }
}

/// The texts of `f` held by an interval.
fn field_of(iv: &WorkInterval, f: TextField) -> (r: Vec<String>)
    ensures
        views(r@) == field_texts(iv@, f),
{
    match f {
        TextField::Urls => iv.urls.clone(),
        TextField::Documents => iv.document_paths.clone(),
        TextField::Titles => iv.titles.clone(),
        TextField::App => {
            let v = vec![iv.task_key.app_name.clone()];
            assert(views(v@) =~= seq![iv.task_key.app_name@]);
            v
        },
    }
}

/// Appends each text of `xs` unless already held.
fn push_each(acc: &mut Vec<String>, xs: &Vec<String>)
    ensures
        views(final(acc)@) == push_all(views(old(acc)@), views(xs@)),
{
    let ghost start = views(acc@);
    let ghost xv = views(xs@);
    let mut i: usize = 0;
    while i < xs.len()
        invariant
            i <= xs@.len(),
            xv == views(xs@),
            views(acc@) == push_all(start, xv.take(i as int)),
        decreases xs@.len() - i,
    {
        assert(xv.take(i + 1).drop_last() =~= xv.take(i as int));
        assert(xv.take(i + 1).last() == xs@[i as int]@);
        push_unique(acc, xs[i].as_str());
        i = i + 1;
    }
    assert(xv.take(xs@.len() as int) =~= xv);
}

/// For each page of `keys`, its texts in one field.
pub fn page_texts_of(intervals: &[WorkInterval], pages: &Vec<String>, pk: &Vec<usize>, f: TextField) -> (r: Vec<Vec<String>>)
    requires
        pk@.len() == intervals@.len(),
        views(pages@).no_duplicates(),
        forall|i: int| 0 <= i < intervals@.len() ==> (#[trigger] pk@[i]) < pages@.len()
            && pages@[pk@[i] as int]@ == interval_keys(interval_views(intervals@))[i],
    ensures
        r@.len() == pages@.len(),
        forall|q: int| 0 <= q < pages@.len() ==> views(#[trigger] r@[q]@) == page_texts(interval_views(intervals@), f, pages@[q]@),
{
    let ghost ivs = interval_views(intervals@);
    let mut out: Vec<Vec<String>> = Vec::new();
    let mut q: usize = 0;
    while q < pages.len()
        invariant
            q <= pages@.len(),
            ivs == interval_views(intervals@),
            pk@.len() == intervals@.len(),
            forall|i: int| 0 <= i < intervals@.len() ==> (#[trigger] pk@[i]) < pages@.len()
                && pages@[pk@[i] as int]@ == interval_keys(ivs)[i],
            out@.len() == q,
            views(pages@).no_duplicates(),
            forall|t: int| 0 <= t < q ==> views(#[trigger] out@[t]@) == page_texts(ivs, f, pages@[t]@),
        decreases pages@.len() - q,
    {
        let ghost p = pages@[q as int]@;
        let mut acc: Vec<String> = Vec::new();
        let mut i: usize = 0;
        while i < intervals.len()
            invariant
                i <= intervals@.len(),
                q < pages@.len(),
                p == pages@[q as int]@,
                views(pages@).no_duplicates(),
                ivs == interval_views(intervals@),
                pk@.len() == intervals@.len(),
                forall|k: int| 0 <= k < intervals@.len() ==> (#[trigger] pk@[k]) < pages@.len()
                    && pages@[pk@[k] as int]@ == interval_keys(ivs)[k],
                views(acc@) == distinct(gathered_texts(ivs, f, p, i as int)),
            decreases intervals@.len() - i,
        {
            assert(interval_keys(ivs)[i as int] == page_key(ivs[i as int].task_key));
            let ghost prev = gathered_texts(ivs, f, p, i as int);
            if pk[i] == q {
                let xs = field_of(&intervals[i], f);
                proof {
                    assert(ivs[i as int] == intervals@[i as int]@);
                    lemma_push_all_concat(Seq::empty(), prev, views(xs@));
                }
                push_each(&mut acc, &xs);
            } else {
                proof {
                    if page_key(ivs[i as int].task_key) == p {
                        assert(views(pages@)[pk@[i as int] as int] == views(pages@)[q as int]);
                    }
                }
            }
            i = i + 1;
        }
        let sorted = sort_strings(&acc);
        let ghost before = out@;
        out.push(sorted);
        assert(out@[q as int] == sorted);
        assert forall|t: int| 0 <= t < q + 1 implies views(#[trigger] out@[t]@) == page_texts(ivs, f, pages@[t]@) by {
            if t < q {
                assert(out@[t] == before[t]);
            }
        }
        q = q + 1;
    }
    out
}

// ── Structural links ───────────────────────────────────────────────────────

/// A hard link between two pages (or declared subjects), with its reason.
pub type Link = (Seq<char>, Seq<char>, Seq<char>);

/// The characters of each link.
pub open spec fn link_views(v: Seq<(String, String, String)>) -> Seq<Link> {
    v.map_values(|e: (String, String, String)| (e.0@, e.1@, e.2@))
}

/// `x` and `y` are joined by the links: the equivalence the links
/// generate, built up one link at a time.
pub open spec fn linked(es: Seq<Link>, x: Seq<char>, y: Seq<char>) -> bool
    decreases es.len(),
{
    if es.len() == 0 {
        x == y
    } else {
        let p = es.drop_last();
        let a = es.last().0;
        let b = es.last().1;
        ||| linked(p, x, y)
        ||| linked(p, x, a) && linked(p, b, y)
        ||| linked(p, x, b) && linked(p, a, y)
    }
}

/// Some link has `x` as an end.
pub open spec fn touches(es: Seq<Link>, x: Seq<char>) -> bool {
    exists|k: int| 0 <= k < es.len() && (es[k].0 == x || es[k].1 == x)
}

/// A node of the link graph: a page, or an end of a link.
pub open spec fn is_node(pages: Seq<Seq<char>>, es: Seq<Link>, z: Seq<char>) -> bool {
    pages.contains(z) || touches(es, z)
}

/// `y` is the root of `x`'s group: the least node, in code-point order,
/// that the links join to `x`.
pub open spec fn is_root(pages: Seq<Seq<char>>, es: Seq<Link>, x: Seq<char>, y: Seq<char>) -> bool {
    &&& is_node(pages, es, y)
    &&& linked(es, x, y)
    &&& forall|z: Seq<char>| is_node(pages, es, z) && linked(es, x, z) ==> lex_le(y, z)
}

/// The root of `x`'s group.
pub open spec fn group_root(pages: Seq<Seq<char>>, es: Seq<Link>, x: Seq<char>) -> Seq<char> {
    choose|y: Seq<char>| is_root(pages, es, x, y)
}

/// The trace line of a link that joined two groups: `[reason] a + b`.
pub open spec fn link_line(e: Link) -> Seq<char> {
    seq!['['] + e.2 + seq![']', ' '] + e.0 + seq![' ', '+', ' '] + e.1
}

/// The trace of the links: one line for each link that joined two
/// groups not joined before it.
pub open spec fn link_trace(es: Seq<Link>) -> Seq<Seq<char>>
    decreases es.len(),
{
    if es.len() == 0 {
        Seq::empty()
    } else {
        let p = es.drop_last();
        let prev = link_trace(p);
        if linked(p, es.last().0, es.last().1) {
            prev
        } else {
            prev.push(link_line(es.last()))
        }
    }
}

pub proof fn lemma_linked_reflexive(es: Seq<Link>, x: Seq<char>)
    ensures
        linked(es, x, x),
    decreases es.len(),
{
    if es.len() > 0 {
        lemma_linked_reflexive(es.drop_last(), x);
    }
}

pub proof fn lemma_linked_symmetric(es: Seq<Link>, x: Seq<char>, y: Seq<char>)
    requires
        linked(es, x, y),
    ensures
        linked(es, y, x),
    decreases es.len(),
{
    if es.len() > 0 {
        let p = es.drop_last();
        let a = es.last().0;
        let b = es.last().1;
        if linked(p, x, y) {
            lemma_linked_symmetric(p, x, y);
        } else if linked(p, x, a) && linked(p, b, y) {
            lemma_linked_symmetric(p, x, a);
            lemma_linked_symmetric(p, b, y);
        } else {
            lemma_linked_symmetric(p, x, b);
            lemma_linked_symmetric(p, a, y);
        }
    }
}

/// Only a node the links touch is joined to anything but itself.
pub proof fn lemma_linked_outside(es: Seq<Link>, x: Seq<char>, y: Seq<char>)
    requires
        linked(es, x, y),
        !touches(es, x) || !touches(es, y),
    ensures
        x == y,
    decreases es.len(),
{
    if es.len() > 0 {
        let p = es.drop_last();
        let a = es.last().0;
        let b = es.last().1;
        let n = es.len() - 1;
        assert(es[n].0 == a && es[n].1 == b);
        assert forall|z: Seq<char>| touches(p, z) implies touches(es, z) by {
            let k = choose|k: int| 0 <= k < p.len() && (p[k].0 == z || p[k].1 == z);
            assert(es[k] == p[k]);
        }
        if linked(p, x, y) {
            lemma_linked_outside(p, x, y);
        } else if linked(p, x, a) && linked(p, b, y) {
            if !touches(es, x) {
                lemma_linked_outside(p, x, a);
            } else {
                lemma_linked_outside(p, b, y);
            }
        } else {
            if !touches(es, x) {
                lemma_linked_outside(p, x, b);
            } else {
                lemma_linked_outside(p, a, y);
            }
        }
    }
}

/// Two texts each at or below the other are equal.
pub proof fn lemma_lex_antisymmetric(a: Seq<char>, b: Seq<char>)
    requires
        lex_le(a, b),
        lex_le(b, a),
    ensures
        a == b,
{
    lemma_lex_total(a, b);
}

/// A group has one root.
pub proof fn lemma_root_unique(pages: Seq<Seq<char>>, es: Seq<Link>, x: Seq<char>, y: Seq<char>)
    requires
        is_root(pages, es, x, y),
    ensures
        group_root(pages, es, x) == y,
{
    let r = group_root(pages, es, x);
    assert(is_root(pages, es, x, r));
    assert(lex_le(y, r));
    assert(lex_le(r, y));
    lemma_lex_antisymmetric(r, y);
}

/// Labels over the nodes after the links in `done`: the pages come first,
/// every node of the links is held once, and labels agree exactly on
/// joined nodes.
pub open spec fn union_core(
    pages: Seq<Seq<char>>,
    done: Seq<Link>,
    nodes: Seq<Seq<char>>,
    labels: Seq<usize>,
) -> bool {
    &&& nodes.no_duplicates()
    &&& labels.len() == nodes.len()
    &&& pages.len() <= nodes.len()
    &&& forall|i: int| 0 <= i < pages.len() ==> #[trigger] nodes[i] == pages[i]
    &&& forall|i: int| 0 <= i < nodes.len() ==> (#[trigger] labels[i]) < nodes.len()
    &&& forall|z: Seq<char>| is_node(pages, done, z) ==> #[trigger] nodes.contains(z)
    &&& forall|i: int, j: int|
        0 <= i < nodes.len() && 0 <= j < nodes.len() ==> ((#[trigger] labels[i] == #[trigger] labels[j])
            <==> linked(done, nodes[i], nodes[j]))
}

/// [`union_core`], with no node beyond the pages and the ends of `done`.
pub open spec fn union_state(
    pages: Seq<Seq<char>>,
    done: Seq<Link>,
    nodes: Seq<Seq<char>>,
    labels: Seq<usize>,
) -> bool {
    &&& union_core(pages, done, nodes, labels)
    &&& forall|z: Seq<char>| #[trigger] nodes.contains(z) ==> is_node(pages, done, z)
}

/// The position of `x` among the nodes, adding it with a label of its
/// own when it is new.
fn node_index(
    nodes: &mut Vec<String>,
    labels: &mut Vec<usize>,
    x: &str,
    Ghost(pages): Ghost<Seq<Seq<char>>>,
    Ghost(done): Ghost<Seq<Link>>,
) -> (k: usize)
    requires
        union_core(pages, done, views(old(nodes)@), old(labels)@),
    ensures
        k < final(nodes)@.len(),
        final(nodes)@[k as int]@ == x@,
        union_core(pages, done, views(final(nodes)@), final(labels)@),
        forall|z: Seq<char>| #[trigger] views(final(nodes)@).contains(z) <==> (views(old(nodes)@).contains(z) || z == x@),
        old(nodes)@.len() <= final(nodes)@.len() <= old(nodes)@.len() + 1,
        forall|i: int| 0 <= i < old(nodes)@.len() ==> #[trigger] final(nodes)@[i] == old(nodes)@[i] && final(labels)@[i]
            == old(labels)@[i],
{
    let ghost nv = views(nodes@);
    match position_of(nodes, x) {
        Some(k) => {
            proof {
                assert forall|z: Seq<char>| #[trigger] views(nodes@).contains(z) <==> (nv.contains(z) || z == x@) by {
                    if z == x@ {
                        assert(nv[k as int] == x@);
                    }
                }
            }
            k
        },
        None => {
            let n = nodes.len();
            nodes.push(crate::text::to_owned_string(x));
            labels.push(n);
            proof {
                let nv2 = views(nodes@);
                assert(nv2 =~= nv.push(x@));
                assert(!touches(done, x@)) by {
                    if touches(done, x@) {
                        assert(is_node(pages, done, x@));
                        assert(nv.contains(x@));
                    }
                }
                assert forall|i: int, j: int|
                    0 <= i < nv2.len() && 0 <= j < nv2.len() implies ((#[trigger] labels@[i] == #[trigger] labels@[j])
                        <==> linked(done, nv2[i], nv2[j])) by {
                    if i == n && j == n {
                        lemma_linked_reflexive(done, x@);
                    } else if i == n {
                        if linked(done, nv2[i], nv2[j]) {
                            lemma_linked_outside(done, nv2[i], nv2[j]);
                            assert(nv.contains(nv2[j]));
                        }
                    } else if j == n {
                        if linked(done, nv2[i], nv2[j]) {
                            lemma_linked_outside(done, nv2[i], nv2[j]);
                            assert(nv.contains(nv2[i]));
                        }
                    }
                }
                assert forall|z: Seq<char>| is_node(pages, done, z) implies #[trigger] nv2.contains(z) by {
                    assert(nv.contains(z));
                }
                assert forall|z: Seq<char>| #[trigger] nv2.contains(z) <==> (nv.contains(z) || z == x@) by {
                    if z == x@ {
                        assert(nv2[n as int] == x@);
                    }
                }
            }
            n
        },
    }
}

/// One more link: the groups of its ends become one.
proof fn lemma_link_step(
    pages: Seq<Seq<char>>,
    done: Seq<Link>,
    e: Link,
    nodes: Seq<Seq<char>>,
    labels: Seq<usize>,
    ia: int,
    ib: int,
    after: Seq<usize>,
)
    requires
        union_core(pages, done, nodes, labels),
        0 <= ia < nodes.len(),
        0 <= ib < nodes.len(),
        nodes[ia] == e.0,
        nodes[ib] == e.1,
        after.len() == labels.len(),
        forall|k: int| 0 <= k < labels.len() ==> #[trigger] after[k] == if labels[k] == labels[ib] {
            labels[ia]
        } else {
            labels[k]
        },
    ensures
        union_core(pages, done.push(e), nodes, after),
{
    let d2 = done.push(e);
    assert(d2.drop_last() =~= done);
    assert(d2.last() == e);
    assert forall|i: int, j: int|
        0 <= i < nodes.len() && 0 <= j < nodes.len() implies ((#[trigger] after[i] == #[trigger] after[j])
            <==> linked(d2, nodes[i], nodes[j])) by {
        assert(linked(d2, nodes[i], nodes[j]) == (linked(done, nodes[i], nodes[j]) || (linked(done, nodes[i], e.0)
            && linked(done, e.1, nodes[j])) || (linked(done, nodes[i], e.1) && linked(done, e.0, nodes[j]))));
        assert((labels[i] == labels[j]) == linked(done, nodes[i], nodes[j]));
        assert((labels[i] == labels[ia]) == linked(done, nodes[i], nodes[ia]));
        assert((labels[ib] == labels[j]) == linked(done, nodes[ib], nodes[j]));
        assert((labels[i] == labels[ib]) == linked(done, nodes[i], nodes[ib]));
        assert((labels[ia] == labels[j]) == linked(done, nodes[ia], nodes[j]));
    }
    assert forall|z: Seq<char>| is_node(pages, d2, z) implies #[trigger] nodes.contains(z) by {
        if !pages.contains(z) {
            let k = choose|k: int| 0 <= k < d2.len() && (d2[k].0 == z || d2[k].1 == z);
            if k < done.len() {
                assert(d2[k] == done[k]);
                assert(touches(done, z));
            } else {
                assert(nodes[ia] == z || nodes[ib] == z);
            }
        }
    }
}

/// Joins the pages by the links, in order: the nodes (the pages first,
/// then each new end of a link), a group label for each, and the trace
/// of the links that joined two groups.
pub fn join_links(pages: &Vec<String>, links: &Vec<(String, String, String)>) -> (r: (Vec<String>, Vec<usize>, Vec<String>))
    requires
        views(pages@).no_duplicates(),
    ensures
        union_state(views(pages@), link_views(links@), views(r.0@), r.1@),
        views(r.2@) == link_trace(link_views(links@)),
{
    let ghost pv = views(pages@);
    let ghost lv = link_views(links@);
    let mut nodes: Vec<String> = pages.clone();
    let mut labels: Vec<usize> = Vec::new();
    let mut i: usize = 0;
    while i < nodes.len()
        invariant
            i <= nodes@.len(),
            views(nodes@) == pv,
            labels@.len() == i,
            forall|k: int| 0 <= k < i ==> #[trigger] labels@[k] == k,
        decreases nodes@.len() - i,
    {
        labels.push(i);
        i = i + 1;
    }
    proof {
        assert(lv.take(0) =~= Seq::<Link>::empty());
        assert forall|z: Seq<char>| #[trigger] pv.contains(z) <==> is_node(pv, lv.take(0), z) by {}
    }
    let mut trace: Vec<String> = Vec::new();
    let mut k: usize = 0;
    while k < links.len()
        invariant
            k <= links@.len(),
            pv == views(pages@),
            lv == link_views(links@),
            union_state(pv, lv.take(k as int), views(nodes@), labels@),
            views(trace@) == link_trace(lv.take(k as int)),
        decreases links@.len() - k,
    {
        let ghost done = lv.take(k as int);
        let ghost nv0 = views(nodes@);
        let ghost e = lv[k as int];
        let a = &links[k].0;
        let b = &links[k].1;
        let ia = node_index(&mut nodes, &mut labels, a.as_str(), Ghost(pv), Ghost(done));
        let ib = node_index(&mut nodes, &mut labels, b.as_str(), Ghost(pv), Ghost(done));
        let ghost nv = views(nodes@);
        proof {
            assert(nv[ia as int] == nodes@[ia as int]@);
            assert(lv.take(k + 1) =~= done.push(e));
            assert(lv.take(k + 1).drop_last() =~= done);
            assert(e == (links@[k as int].0@, links@[k as int].1@, links@[k as int].2@));
        }
        let la = labels[ia];
        let lb = labels[ib];
        let ghost before = labels@;
        if la != lb {
            let mut j: usize = 0;
            while j < labels.len()
                invariant
                    j <= labels@.len(),
                    labels@.len() == before.len(),
                    ia < before.len(),
                    ib < before.len(),
                    la == before[ia as int],
                    lb == before[ib as int],
                    forall|t: int| 0 <= t < j ==> #[trigger] labels@[t] == if before[t] == lb {
                        la
                    } else {
                        before[t]
                    },
                    forall|t: int| j <= t < labels@.len() ==> #[trigger] labels@[t] == before[t],
                decreases labels@.len() - j,
            {
                if labels[j] == lb {
                    labels.set(j, la);
                }
                j = j + 1;
            }
            let line = line_of(&links[k]);
            trace.push(line);
        } else {
            proof {
                assert(labels@ =~= before);
            }
        }
        proof {
            let after = labels@;
            assert forall|t: int| 0 <= t < before.len() implies #[trigger] after[t] == if before[t] == before[ib as int] {
                before[ia as int]
            } else {
                before[t]
            } by {}
            lemma_link_step(pv, done, e, nv, before, ia as int, ib as int, after);
            let d2 = done.push(e);
            assert forall|z: Seq<char>| #[trigger] nv.contains(z) implies is_node(pv, d2, z) by {
                if nv0.contains(z) {
                    assert(is_node(pv, done, z));
                    if !pv.contains(z) {
                        let t = choose|t: int| 0 <= t < done.len() && (done[t].0 == z || done[t].1 == z);
                        assert(d2[t] == done[t]);
                    }
                } else {
                    let n2 = d2.len() - 1;
                    assert(d2[n2] == e);
                }
            }
        }
        k = k + 1;
    }
    assert(lv.take(links@.len() as int) =~= lv);
    (nodes, labels, trace)
}

/// `[reason] a + b`
fn line_of(e: &(String, String, String)) -> (r: String)
    ensures
        r@ == link_line((e.0@, e.1@, e.2@)),
{
    proof {
        reveal_strlit("[");
        reveal_strlit("] ");
        reveal_strlit(" + ");
    }
    let head = crate::text::concat3("[", e.2.as_str(), "] ");
    let mid = crate::text::concat3(head.as_str(), e.0.as_str(), " + ");
    concat2(mid.as_str(), e.1.as_str())
}

/// The root of each page's group, in the order of the pages.
pub fn page_roots(
    pages: &Vec<String>,
    nodes: &Vec<String>,
    labels: &Vec<usize>,
    Ghost(es): Ghost<Seq<Link>>,
) -> (r: Vec<String>)
    requires
        union_state(views(pages@), es, views(nodes@), labels@),
    ensures
        r@.len() == pages@.len(),
        forall|q: int| 0 <= q < pages@.len() ==> (#[trigger] r@[q])@ == group_root(views(pages@), es, pages@[q]@),
{
    let ghost pv = views(pages@);
    let ghost nv = views(nodes@);
    let mut out: Vec<String> = Vec::new();
    let mut q: usize = 0;
    while q < pages.len()
        invariant
            q <= pages@.len(),
            pv == views(pages@),
            nv == views(nodes@),
            union_state(pv, es, nv, labels@),
            out@.len() == q,
            forall|t: int| 0 <= t < q ==> (#[trigger] out@[t])@ == group_root(pv, es, pages@[t]@),
        decreases pages@.len() - q,
    {
        assert(nv[q as int] == pv[q as int]);
        let lq = labels[q];
        let mut best: usize = q;
        let mut j: usize = 0;
        while j < nodes.len()
            invariant
                j <= nodes@.len(),
                q < pages@.len() <= nodes@.len(),
                nv == views(nodes@),
                labels@.len() == nodes@.len(),
                lq == labels@[q as int],
                best < nodes@.len(),
                labels@[best as int] == lq,
                forall|t: int| 0 <= t < j && labels@[t] == lq ==> lex_le(nv[best as int], #[trigger] nv[t]),
            decreases nodes@.len() - j,
        {
            if labels[j] == lq && str_less(nodes[j].as_str(), nodes[best].as_str()) {
                proof {
                    let old_best = nv[best as int];
                    let nb = nv[j as int];
                    assert forall|t: int| 0 <= t < j + 1 && labels@[t] == lq implies lex_le(nb, #[trigger] nv[t]) by {
                        if t == j {
                            lemma_lex_irreflexive(nb);
                        } else {
                            assert(lex_le(old_best, nv[t]));
                            if lex_lt(nv[t], nb) {
                                lemma_lex_transitive(nv[t], nb, old_best);
                            }
                        }
                    }
                }
                best = j;
            } else {
                proof {
                    if labels@[j as int] == lq {
                        assert(!lex_lt(nv[j as int], nv[best as int]));
                    }
                }
            }
            j = j + 1;
        }
        proof {
            let x = pv[q as int];
            let y = nv[best as int];
            assert(nv.contains(y));
            assert(linked(es, x, y));
            assert forall|z: Seq<char>| is_node(pv, es, z) && linked(es, x, z) implies lex_le(y, z) by {
                assert(nv.contains(z));
                let t = choose|t: int| 0 <= t < nv.len() && nv[t] == z;
                assert(labels@[t] == lq);
            }
            assert(is_root(pv, es, x, y));
            lemma_root_unique(pv, es, x, y);
        }
        let root = nodes[best].clone();
        let ghost before = out@;
        out.push(root);
        proof {
            assert forall|t: int| 0 <= t < q + 1 implies (#[trigger] out@[t])@ == group_root(pv, es, pages@[t]@) by {
                if t < q {
                    assert(out@[t] == before[t]);
                }
            }
        }
        q = q + 1;
    }
    out
}

// ── Links by shared opaque tokens ──────────────────────────────────────────

/// The opaque tokens a page carries; only canonical web pages carry any.
pub open spec fn page_tokens(p: Seq<char>) -> Seq<Seq<char>> {
    if has_prefix(p, page_prefix()) {
        distinct_tokens(token_candidates(p.skip(5)))
    } else {
        Seq::empty()
    }
}

/// The tokens of every page, in page order.
pub open spec fn carried_tokens(order: Seq<Seq<char>>) -> Seq<Seq<char>> {
    order.map_values(|p: Seq<char>| page_tokens(p)).flatten()
}

/// Every token carried by some page, once, in code-point order.
pub open spec fn token_list(order: Seq<Seq<char>>) -> Seq<Seq<char>> {
    sorted_texts(distinct(carried_tokens(order)))
}

/// The pages carrying `t`, in page order.
pub open spec fn token_holders(order: Seq<Seq<char>>, t: Seq<char>) -> Seq<Seq<char>> {
    order.filter(|p: Seq<char>| page_tokens(p).contains(t))
}

/// Links between consecutive members.
pub open spec fn chain_links(ms: Seq<Seq<char>>, reason: Seq<char>) -> Seq<Link> {
    Seq::new((ms.len() - 1) as nat, |j: int| (ms[j], ms[j + 1], reason))
}

/// `token t`
pub open spec fn token_reason(t: Seq<char>) -> Seq<char> {
    seq!['t', 'o', 'k', 'e', 'n', ' '] + t
}

/// The most pages a token may glue: beyond it, the token is a site-wide id.
pub const TOKEN_GROUP_CAP: usize = 30;

/// The links of the given tokens: the pages holding each token, chained,
/// when two to thirty pages hold it.
pub open spec fn token_links_for(order: Seq<Seq<char>>, toks: Seq<Seq<char>>) -> Seq<Link>
    decreases toks.len(),
{
    if toks.len() == 0 {
        Seq::empty()
    } else {
        let prev = token_links_for(order, toks.drop_last());
        let ms = token_holders(order, toks.last());
        if 2 <= ms.len() <= TOKEN_GROUP_CAP {
            prev + chain_links(ms, token_reason(toks.last()))
        } else {
            prev
        }
    }
}

/// The token links of the pages: a token shared by two to thirty pages
/// joins them.
pub open spec fn token_links(order: Seq<Seq<char>>) -> Seq<Link> {
    token_links_for(order, token_list(order))
}

/// The opaque tokens of a page key.
pub fn page_tokens_of(p: &str) -> (r: Vec<String>)
    ensures
        views(r@) == page_tokens(p@),
{
    proof {
        reveal_strlit("page:");
    }
    assert("page:"@ =~= page_prefix());
    if starts_with(p, "page:") {
        let v = chars_of(p);
        let rest = slice(&v, 5, v.len());
        let page = string_of(&rest);
        assert(rest@ =~= p@.skip(5));
        let r = opaque_tokens(page.as_str());
        assert(views(r@) =~= string_views(r@));
        r
    } else {
        let r: Vec<String> = Vec::new();
        assert(views(r@) =~= Seq::<Seq<char>>::empty());
        r
    }
}

/// The pages, in page order, whose tokens hold `t`.
fn holders_of(order: &Vec<String>, per_page: &Vec<Vec<String>>, t: &str) -> (r: Vec<String>)
    requires
        per_page@.len() == order@.len(),
        forall|u: int| 0 <= u < order@.len() ==> views(#[trigger] per_page@[u]@) == page_tokens(views(order@)[u]),
    ensures
        views(r@) == token_holders(views(order@), t@),
{
    let ghost ov = views(order@);
    let ghost holds = |p: Seq<char>| page_tokens(p).contains(t@);
    let mut members: Vec<String> = Vec::new();
    let mut m: usize = 0;
    assert(ov.take(0).filter(holds) =~= Seq::<Seq<char>>::empty());
    while m < order.len()
        invariant
            m <= order@.len(),
            ov == views(order@),
            holds == (|p: Seq<char>| page_tokens(p).contains(t@)),
            per_page@.len() == order@.len(),
            forall|u: int| 0 <= u < order@.len() ==> views(#[trigger] per_page@[u]@) == page_tokens(ov[u]),
            views(members@) == ov.take(m as int).filter(holds),
        decreases order@.len() - m,
    {
        proof {
            assert(ov.take(m + 1) =~= ov.take(m as int).push(ov[m as int]));
            ov.take(m as int).lemma_filter_push(ov[m as int], holds);
            assert(views(per_page@[m as int]@) == page_tokens(ov[m as int]));
        }
        if crate::text::holds_text(&per_page[m], t) {
            let ghost before = views(members@);
            members.push(order[m].clone());
            assert(views(members@) =~= before.push(ov[m as int]));
        }
        m = m + 1;
    }
    assert(ov.take(order@.len() as int) =~= ov);
    members
}

/// The token links of the pages, in page order.
pub fn token_links_of(order: &Vec<String>) -> (r: Vec<(String, String, String)>)
    ensures
        link_views(r@) == token_links(views(order@)),
{
    let ghost ov = views(order@);
    let ghost tv = ov.map_values(|p: Seq<char>| page_tokens(p));
    let mut per_page: Vec<Vec<String>> = Vec::new();
    let mut flat: Vec<String> = Vec::new();
    let mut i: usize = 0;
    while i < order.len()
        invariant
            i <= order@.len(),
            ov == views(order@),
            tv == ov.map_values(|p: Seq<char>| page_tokens(p)),
            per_page@.len() == i,
            forall|t: int| 0 <= t < i ==> views(#[trigger] per_page@[t]@) == page_tokens(ov[t]),
            views(flat@) == distinct(tv.take(i as int).flatten()),
        decreases order@.len() - i,
    {
        assert(ov[i as int] == order@[i as int]@);
        let toks = page_tokens_of(order[i].as_str());
        proof {
            assert(tv.take(i + 1) =~= tv.take(i as int).push(tv[i as int]));
            tv.take(i as int).lemma_flatten_push(tv[i as int]);
            lemma_push_all_concat(Seq::empty(), tv.take(i as int).flatten(), views(toks@));
        }
        push_each(&mut flat, &toks);
        let ghost before = per_page@;
        per_page.push(toks);
        proof {
            assert forall|t: int| 0 <= t < i + 1 implies views(#[trigger] per_page@[t]@) == page_tokens(ov[t]) by {
                if t < i {
                    assert(per_page@[t] == before[t]);
                }
            }
        }
        i = i + 1;
    }
    assert(tv.take(order@.len() as int) =~= tv);
    let toks = sort_strings(&flat);
    let ghost tl = views(toks@);
    let mut out: Vec<(String, String, String)> = Vec::new();
    let mut k: usize = 0;
    assert(tl.take(0) =~= Seq::<Seq<char>>::empty());
    while k < toks.len()
        invariant
            k <= toks@.len(),
            ov == views(order@),
            tl == views(toks@),
            tl == token_list(ov),
            per_page@.len() == order@.len(),
            forall|t: int| 0 <= t < order@.len() ==> views(#[trigger] per_page@[t]@) == page_tokens(ov[t]),
            link_views(out@) == token_links_for(ov, tl.take(k as int)),
        decreases toks@.len() - k,
    {
        let t = &toks[k];
        let ghost tk = tl[k as int];
        let members = holders_of(order, &per_page, t.as_str());
        let ghost ms = views(members@);
        proof {
            assert(tl.take(k + 1).drop_last() =~= tl.take(k as int));
            assert(tl.take(k + 1).last() == tk);
        }
        if members.len() >= 2 && members.len() <= TOKEN_GROUP_CAP {
            proof {
                reveal_strlit("token ");
            }
            let reason = concat2("token ", t.as_str());
            assert(reason@ =~= token_reason(tk));
            let ghost base = link_views(out@);
            let mut j: usize = 0;
            while j < members.len() - 1
                invariant
                    j < members@.len(),
                    ms == views(members@),
                    members@.len() >= 2,
                    reason@ == token_reason(tk),
                    link_views(out@) == base + chain_links(ms, token_reason(tk)).take(j as int),
                decreases members@.len() - j,
            {
                let ghost before = link_views(out@);
                out.push((members[j].clone(), members[j + 1].clone(), reason.clone()));
                proof {
                    let c = chain_links(ms, token_reason(tk));
                    assert(link_views(out@) =~= before.push((ms[j as int], ms[j + 1], token_reason(tk))));
                    assert(c.take(j + 1) =~= c.take(j as int).push(c[j as int]));
                }
                j = j + 1;
            }
            proof {
                let c = chain_links(ms, token_reason(tk));
                assert(c.take(j as int) =~= c);
            }
        }
        k = k + 1;
    }
    assert(tl.take(toks@.len() as int) =~= tl);
    out
}

// ── Links by near-duplicate titles ─────────────────────────────────────────

/// The title set of each page, pages in code-point order.
pub open spec fn title_sets(ivs: Seq<IntervalModel>) -> Seq<Seq<Seq<char>>> {
    page_list(ivs).map_values(|p: Seq<char>| page_texts(ivs, TextField::Titles, p))
}

/// The recurring title chrome of the pages' titles.
pub open spec fn title_chrome(ivs: Seq<IntervalModel>) -> Seq<Seq<char>> {
    recurring_chrome(title_sets(ivs).flatten())
}

/// The specific tokens of each of a page's titles.
pub open spec fn page_specific(ivs: Seq<IntervalModel>, p: Seq<char>) -> Seq<Seq<Seq<char>>> {
    page_texts(ivs, TextField::Titles, p).map_values(
        |t: Seq<char>| specific_tokens(title_sets(ivs), title_chrome(ivs), t),
    )
}

/// Some title of one page is a near duplicate of some title of the other.
pub open spec fn titles_near(a: Seq<Seq<Seq<char>>>, b: Seq<Seq<Seq<char>>>) -> bool {
    exists|x: int, y: int| 0 <= x < a.len() && 0 <= y < b.len() && near_duplicate(#[trigger] a[x], #[trigger] b[y])
}

/// `title similarity`
pub open spec fn similarity_reason() -> Seq<char> {
    seq!['t', 'i', 't', 'l', 'e', ' ', 's', 'i', 'm', 'i', 'l', 'a', 'r', 'i', 't', 'y']
}

/// The title links from page `i` to the pages after it, up to `m`.
pub open spec fn row_links(order: Seq<Seq<char>>, sp: Seq<Seq<Seq<Seq<char>>>>, i: int, m: int) -> Seq<Link>
    decreases m - i,
{
    if m <= i + 1 {
        Seq::empty()
    } else {
        let prev = row_links(order, sp, i, m - 1);
        if titles_near(sp[i], sp[m - 1]) {
            prev.push((order[i], order[m - 1], similarity_reason()))
        } else {
            prev
        }
    }
}

/// The title links of the first `k` pages to the pages after each.
pub open spec fn title_links_upto(order: Seq<Seq<char>>, sp: Seq<Seq<Seq<Seq<char>>>>, k: int) -> Seq<Link>
    decreases k,
{
    if k <= 0 {
        Seq::empty()
    } else {
        title_links_upto(order, sp, k - 1) + row_links(order, sp, k - 1, order.len() as int)
    }
}

/// The title links of the pages: every pair, in page order, whose
/// titles are near duplicates once chrome and common tokens are gone.
pub open spec fn title_links(ivs: Seq<IntervalModel>) -> Seq<Link> {
    let order = page_order(ivs);
    title_links_upto(order, order.map_values(|p: Seq<char>| page_specific(ivs, p)), order.len() as int)
}

/// The specific token lists of each page.
pub open spec fn list_views(v: Seq<Vec<Vec<String>>>) -> Seq<Seq<Seq<Seq<char>>>> {
    v.map_values(|x: Vec<Vec<String>>| set_views(x@))
}

fn titles_near_of(a: &Vec<Vec<String>>, b: &Vec<Vec<String>>) -> (r: bool)
    ensures
        r == titles_near(set_views(a@), set_views(b@)),
{
    let ghost av = set_views(a@);
    let ghost bv = set_views(b@);
    let mut x: usize = 0;
    while x < a.len()
        invariant
            x <= a@.len(),
            av == set_views(a@),
            bv == set_views(b@),
            forall|i: int, j: int| 0 <= i < x && 0 <= j < bv.len() ==> !near_duplicate(#[trigger] av[i], #[trigger] bv[j]),
        decreases a@.len() - x,
    {
        let mut y: usize = 0;
        while y < b.len()
            invariant
                x < a@.len(),
                y <= b@.len(),
                av == set_views(a@),
                bv == set_views(b@),
                forall|i: int, j: int| 0 <= i < x && 0 <= j < bv.len() ==> !near_duplicate(#[trigger] av[i], #[trigger] bv[j]),
                forall|j: int| 0 <= j < y ==> !near_duplicate(av[x as int], #[trigger] bv[j]),
            decreases b@.len() - y,
        {
            if near_duplicate_tokens(&a[x], &b[y]) {
                assert(near_duplicate(av[x as int], bv[y as int]));
                return true;
            }
            y = y + 1;
        }
        x = x + 1;
    }
    false
}

/// The title links of the pages in page order, given each page's
/// specific token lists.
fn title_links_of(order: &Vec<String>, sp: &Vec<Vec<Vec<String>>>) -> (r: Vec<(String, String, String)>)
    requires
        sp@.len() == order@.len(),
    ensures
        link_views(r@) == title_links_upto(views(order@), list_views(sp@), order@.len() as int),
{
    let ghost ov = views(order@);
    let ghost spv = list_views(sp@);
    let ghost reason = similarity_reason();
    proof {
        reveal_strlit("title similarity");
    }
    let sim = crate::text::to_owned_string("title similarity");
    assert(sim@ =~= reason);
    let mut out: Vec<(String, String, String)> = Vec::new();
    let mut i: usize = 0;
    while i < order.len()
        invariant
            i <= order@.len(),
            ov == views(order@),
            spv == list_views(sp@),
            sp@.len() == order@.len(),
            sim@ == reason,
            reason == similarity_reason(),
            link_views(out@) == title_links_upto(ov, spv, i as int),
        decreases order@.len() - i,
    {
        let ghost base = link_views(out@);
        let mut m: usize = i + 1;
        while m < order.len()
            invariant
                i < order@.len(),
                i + 1 <= m <= order@.len(),
                ov == views(order@),
                spv == list_views(sp@),
                sp@.len() == order@.len(),
                sim@ == reason,
                reason == similarity_reason(),
                link_views(out@) == base + row_links(ov, spv, i as int, m as int),
            decreases order@.len() - m,
        {
            let ghost before = link_views(out@);
            if titles_near_of(&sp[i], &sp[m]) {
                out.push((order[i].clone(), order[m].clone(), sim.clone()));
                assert(link_views(out@) =~= before.push((ov[i as int], ov[m as int], reason)));
            }
            proof {
                assert(spv[i as int] == set_views(sp@[i as int]@));
                assert(spv[m as int] == set_views(sp@[m as int]@));
                assert(row_links(ov, spv, i as int, m + 1) == if titles_near(spv[i as int], spv[m as int]) {
                    row_links(ov, spv, i as int, m as int).push((ov[i as int], ov[m as int], reason))
                } else {
                    row_links(ov, spv, i as int, m as int)
                });
            }
            m = m + 1;
        }
        proof {
            assert(title_links_upto(ov, spv, i + 1) == title_links_upto(ov, spv, i as int) + row_links(ov, spv, i as int, ov.len() as int));
        }
        i = i + 1;
    }
    out
}

// ── Declared links ─────────────────────────────────────────────────────────

/// A declared subject in page vocabulary: its canonical page when it is a
/// URL, a document when it is a path, else a title.
pub open spec fn canonical_subject(s: Seq<char>) -> Seq<char> {
    match canonical_page_of(s) {
        Some(p) => page_prefix() + p,
        None => if s.len() > 0 && s[0] == '/' {
            doc_prefix() + s
        } else {
            title_prefix() + s
        },
    }
}

/// The characters of each pair.
pub open spec fn pair_texts(v: Seq<(String, String)>) -> Seq<(Seq<char>, Seq<char>)> {
    v.map_values(|e: (String, String)| (e.0@, e.1@))
}

/// The subjects of the declared pairs, in page vocabulary.
pub open spec fn declared_ends(d: Seq<(Seq<char>, Seq<char>)>) -> Seq<Seq<char>> {
    d.map_values(|e: (Seq<char>, Seq<char>)| seq![canonical_subject(e.0), canonical_subject(e.1)]).flatten()
}

/// `declared same work`
pub open spec fn declared_reason() -> Seq<char> {
    seq!['d', 'e', 'c', 'l', 'a', 'r', 'e', 'd', ' ', 's', 'a', 'm', 'e', ' ', 'w', 'o', 'r', 'k']
}

/// `declared same work (new)`
pub open spec fn declared_new_reason() -> Seq<char> {
    declared_reason() + seq![' ', '(', 'n', 'e', 'w', ')']
}

/// A subject is known before the `k`-th declaration when it is a page or
/// the subject of an earlier declaration.
pub open spec fn known_before(pages: Seq<Seq<char>>, d: Seq<(Seq<char>, Seq<char>)>, k: int, c: Seq<char>) -> bool {
    pages.contains(c) || declared_ends(d.take(k)).contains(c)
}

/// The declared links: each declared pair joined, noted as new when one
/// of its subjects was not known before it.
pub open spec fn declared_links(pages: Seq<Seq<char>>, d: Seq<(Seq<char>, Seq<char>)>) -> Seq<Link> {
    Seq::new(
        d.len(),
        |k: int|
            {
                let a = canonical_subject(d[k].0);
                let b = canonical_subject(d[k].1);
                (a, b, if known_before(pages, d, k, a) && known_before(pages, d, k, b) {
                    declared_reason()
                } else {
                    declared_new_reason()
                })
            },
    )
}

/// A declared subject in page vocabulary.
pub fn canonical_subject_of(s: &str) -> (r: String)
    ensures
        r@ == canonical_subject(s@),
{
    proof {
        reveal_strlit("page:");
        reveal_strlit("doc:");
        reveal_strlit("title:");
    }
    match canonical_page(s) {
        Some(p) => concat2("page:", p.as_str()),
        None => {
            let v = chars_of(s);
            if v.len() > 0 && v[0] == '/' {
                concat2("doc:", s)
            } else {
                concat2("title:", s)
            }
        },
    }
}

/// The declared links over the given pages.
#[verifier::rlimit(40)]
fn declared_links_of(pages: &Vec<String>, same_work: &Vec<(String, String)>) -> (r: Vec<(String, String, String)>)
    ensures
        link_views(r@) == declared_links(views(pages@), pair_texts(same_work@)),
{
    let ghost pv = views(pages@);
    let ghost d = pair_texts(same_work@);
    let ghost dm = d.map_values(|e: (Seq<char>, Seq<char>)| seq![canonical_subject(e.0), canonical_subject(e.1)]);
    proof {
        reveal_strlit("declared same work");
        reveal_strlit("declared same work (new)");
    }
    let same = crate::text::to_owned_string("declared same work");
    let fresh = crate::text::to_owned_string("declared same work (new)");
    assert(same@ =~= declared_reason());
    assert(fresh@ =~= declared_new_reason());
    let mut seen: Vec<String> = Vec::new();
    let mut out: Vec<(String, String, String)> = Vec::new();
    let mut k: usize = 0;
    while k < same_work.len()
        invariant
            k <= same_work@.len(),
            pv == views(pages@),
            d == pair_texts(same_work@),
            dm == d.map_values(|e: (Seq<char>, Seq<char>)| seq![canonical_subject(e.0), canonical_subject(e.1)]),
            same@ == declared_reason(),
            fresh@ == declared_new_reason(),
            views(seen@) == dm.take(k as int).flatten(),
            link_views(out@) == declared_links(pv, d).take(k as int),
        decreases same_work@.len() - k,
    {
        assert(d[k as int] == (same_work@[k as int].0@, same_work@[k as int].1@));
        proof {
        }
        let a = canonical_subject_of(same_work[k].0.as_str());
        let b = canonical_subject_of(same_work[k].1.as_str());
        proof {
            assert(declared_ends(d.take(k as int)) == dm.take(k as int).flatten()) by {
                assert(d.take(k as int).map_values(|e: (Seq<char>, Seq<char>)| seq![canonical_subject(e.0), canonical_subject(e.1)])
                    =~= dm.take(k as int));
            }
        }
        let known_a = crate::text::holds_text(pages, a.as_str()) || crate::text::holds_text(&seen, a.as_str());
        let known_b = crate::text::holds_text(pages, b.as_str()) || crate::text::holds_text(&seen, b.as_str());
        let reason = if known_a && known_b {
            same.clone()
        } else {
            fresh.clone()
        };
        let ghost before = link_views(out@);
        out.push((a.clone(), b.clone(), reason));
        proof {
            assert(link_views(out@) =~= before.push(declared_links(pv, d)[k as int]));
            assert(declared_links(pv, d).take(k + 1) =~= declared_links(pv, d).take(k as int).push(declared_links(pv, d)[k as int]));
        }
        let ghost seen_before = views(seen@);
        seen.push(a);
        seen.push(b);
        proof {
            assert(views(seen@) =~= seen_before + dm[k as int]);
            assert(dm.take(k + 1) =~= dm.take(k as int).push(dm[k as int]));
            dm.take(k as int).lemma_flatten_push(dm[k as int]);
        }
        k = k + 1;
    }
    assert(declared_links(pv, d).take(same_work@.len() as int) =~= declared_links(pv, d));
    out
}

// ── Structure ──────────────────────────────────────────────────────────────

/// Every hard link, in the order they are drawn: shared tokens, then
/// near-duplicate titles, then declarations.
pub open spec fn structural_links(ivs: Seq<IntervalModel>, d: Seq<(Seq<char>, Seq<char>)>) -> Seq<Link> {
    token_links(page_order(ivs)) + title_links(ivs) + declared_links(page_list(ivs), d)
}

/// The root of a page's structural group.
pub open spec fn page_root(ivs: Seq<IntervalModel>, d: Seq<(Seq<char>, Seq<char>)>, p: Seq<char>) -> Seq<char> {
    group_root(page_list(ivs), structural_links(ivs, d), p)
}

/// The structural groups of the pages: the root of each page's group,
/// pages in code-point order, and the trace of the links that joined
/// groups.
pub fn structure_of(
    intervals: &[WorkInterval],
    same_work: &Vec<(String, String)>,
    pages: &Vec<String>,
    order: &Vec<String>,
    titles: &Vec<Vec<String>>,
) -> (r: (Vec<String>, Vec<String>))
    requires
        views(pages@) == page_list(interval_views(intervals@)),
        views(order@) == page_order(interval_views(intervals@)),
        views(pages@).no_duplicates(),
        titles@.len() == pages@.len(),
        forall|q: int| 0 <= q < pages@.len() ==> views(#[trigger] titles@[q]@) == page_texts(interval_views(intervals@), TextField::Titles, pages@[q]@),
    ensures
        r.0@.len() == pages@.len(),
        forall|q: int| 0 <= q < pages@.len() ==> (#[trigger] r.0@[q])@ == page_root(
            interval_views(intervals@),
            pair_texts(same_work@),
            pages@[q]@,
        ),
        views(r.1@) == link_trace(structural_links(interval_views(intervals@), pair_texts(same_work@))),
{
    let ghost ivs = interval_views(intervals@);
    let ghost d = pair_texts(same_work@);
    proof {
    }
    // The title evidence: every page's titles, the corpus chrome, and the
    // specific tokens of each page's titles in page order.
    let mut corpus: Vec<String> = Vec::new();
    let mut q: usize = 0;
    let ghost ts = title_sets(ivs);
    assert(set_views(titles@) =~= ts) by {
        assert forall|t: int| 0 <= t < ts.len() implies set_views(titles@)[t] == ts[t] by {
            assert(views(pages@)[t] == pages@[t]@);
        }
    }
    while q < titles.len()
        invariant
            q <= titles@.len(),
            ts == set_views(titles@),
            views(corpus@) == ts.take(q as int).flatten(),
        decreases titles@.len() - q,
    {
        let ghost before = views(corpus@);
        let mut j: usize = 0;
        while j < titles[q].len()
            invariant
                q < titles@.len(),
                j <= titles@[q as int]@.len(),
                views(corpus@) == before + views(titles@[q as int]@).take(j as int),
            decreases titles@[q as int]@.len() - j,
        {
            let ghost prev = views(corpus@);
            corpus.push(titles[q][j].clone());
            assert(views(corpus@) =~= prev.push(titles@[q as int]@[j as int]@));
            assert(views(titles@[q as int]@).take(j + 1) =~= views(titles@[q as int]@).take(j as int).push(titles@[q as int]@[j as int]@));
            j = j + 1;
            assert(views(corpus@) =~= before + views(titles@[q as int]@).take(j as int));
        }
        proof {
            assert(views(titles@[q as int]@).take(j as int) =~= views(titles@[q as int]@));
            assert(ts.take(q + 1) =~= ts.take(q as int).push(ts[q as int]));
            ts.take(q as int).lemma_flatten_push(ts[q as int]);
        }
        q = q + 1;
    }
    assert(ts.take(titles@.len() as int) =~= ts);
    let chrome = recurring_title_chrome(&corpus);
    let ghost spv = views(order@).map_values(|p: Seq<char>| page_specific(ivs, p));
    let mut sp: Vec<Vec<Vec<String>>> = Vec::new();
    let mut i: usize = 0;
    while i < order.len()
        invariant
            i <= order@.len(),
            ivs == interval_views(intervals@),
            views(pages@) == page_list(ivs),
            views(order@) == page_order(ivs),
            titles@.len() == pages@.len(),
            forall|q: int| 0 <= q < pages@.len() ==> views(#[trigger] titles@[q]@) == page_texts(ivs, TextField::Titles, pages@[q]@),
            ts == set_views(titles@),
            ts == title_sets(ivs),
            views(chrome@) == title_chrome(ivs),
            spv == views(order@).map_values(|p: Seq<char>| page_specific(ivs, p)),
            sp@.len() == i,
            forall|t: int| 0 <= t < i ==> set_views(#[trigger] sp@[t]@) == spv[t],
        decreases order@.len() - i,
    {
        proof {
            lemma_distinct(interval_keys(ivs));
            lemma_sorted_texts(page_order(ivs));
            assert(views(order@).contains(views(order@)[i as int]));
        }
        let qi = match position_of(pages, order[i].as_str()) {
            Some(qi) => qi,
            None => {
                assert(views(pages@).contains(order@[i as int]@));
                0
            },
        };
        let ghost ptitles = views(titles@[qi as int]@);
        let ghost target = ptitles.map_values(|t: Seq<char>| specific_tokens(ts, title_chrome(ivs), t));
        let mut lists: Vec<Vec<String>> = Vec::new();
        let mut j: usize = 0;
        while j < titles[qi].len()
            invariant
                qi < titles@.len(),
                j <= titles@[qi as int]@.len(),
                ptitles == views(titles@[qi as int]@),
                ts == set_views(titles@),
                views(chrome@) == title_chrome(ivs),
                target == ptitles.map_values(|t: Seq<char>| specific_tokens(ts, title_chrome(ivs), t)),
                lists@.len() == j,
                forall|t: int| 0 <= t < j ==> views(#[trigger] lists@[t]@) == target[t],
            decreases titles@[qi as int]@.len() - j,
        {
            let toks = specific_tokens_of(titles, &chrome, titles[qi][j].as_str());
            let ghost before = lists@;
            lists.push(toks);
            proof {
                assert forall|t: int| 0 <= t < j + 1 implies views(#[trigger] lists@[t]@) == target[t] by {
                    if t < j {
                        assert(lists@[t] == before[t]);
                    }
                }
            }
            j = j + 1;
        }
        proof {
            assert(set_views(lists@) =~= target);
            assert(ptitles == page_texts(ivs, TextField::Titles, views(order@)[i as int]));
            assert(target =~= page_specific(ivs, views(order@)[i as int]));
        }
        let ghost before = sp@;
        sp.push(lists);
        proof {
            assert forall|t: int| 0 <= t < i + 1 implies set_views(#[trigger] sp@[t]@) == spv[t] by {
                if t < i {
                    assert(sp@[t] == before[t]);
                }
            }
        }
        i = i + 1;
    }
    assert(list_views(sp@) =~= spv);
    let mut links = token_links_of(order);
    let mut by_title = title_links_of(order, &sp);
    let mut declared = declared_links_of(pages, same_work);
    links.append(&mut by_title);
    links.append(&mut declared);
    proof {
        assert(link_views(links@) =~= structural_links(ivs, d));
    }
    let (nodes, labels, trace) = join_links(pages, &links);
    let roots = page_roots(pages, &nodes, &labels, Ghost(structural_links(ivs, d)));
    (roots, trace)
}

// ── Sittings and group dwell ───────────────────────────────────────────────

/// Minimum dwell (5 minutes) inside one sitting, or across a multi-page
/// group, for a group to earn a work.
pub const ESTABLISH_DWELL_MS: u64 = 300 * 1000;

/// The root of each interval's page group.
pub open spec fn interval_roots(ivs: Seq<IntervalModel>, d: Seq<(Seq<char>, Seq<char>)>) -> Seq<Seq<char>> {
    interval_keys(ivs).map_values(|k: Seq<char>| page_root(ivs, d, k))
}

/// The sittings of the intervals.
pub open spec fn sittings(ivs: Seq<IntervalModel>) -> Seq<SittingModel> {
    sittings_of(ivs, start_order(ivs, ivs.len() as int))
}

/// The dwell of the intervals at the given positions.
pub open spec fn dwell_sum(ivs: Seq<IntervalModel>, idx: Seq<int>) -> int
    decreases idx.len(),
{
    if idx.len() == 0 {
        0
    } else {
        dwell_sum(ivs, idx.drop_last()) + ivs[idx.last()].total_dwell_ms
    }
}

/// The dwell of the intervals at the given positions whose group is `g`.
pub open spec fn group_dwell(ivs: Seq<IntervalModel>, rs: Seq<Seq<char>>, idx: Seq<int>, g: Seq<char>) -> int
    decreases idx.len(),
{
    if idx.len() == 0 {
        0
    } else {
        group_dwell(ivs, rs, idx.drop_last(), g) + if rs[idx.last()] == g {
            ivs[idx.last()].total_dwell_ms
        } else {
            0
        }
    }
}

/// The keystrokes of the intervals at the given positions whose group is `g`.
pub open spec fn group_keys(ivs: Seq<IntervalModel>, rs: Seq<Seq<char>>, idx: Seq<int>, g: Seq<char>) -> int
    decreases idx.len(),
{
    if idx.len() == 0 {
        0
    } else {
        group_keys(ivs, rs, idx.drop_last(), g) + if rs[idx.last()] == g {
            ivs[idx.last()].keys
        } else {
            0
        }
    }
}

/// Every position below `n`.
pub open spec fn positions(n: int) -> Seq<int> {
    Seq::new(n as nat, |i: int| i)
}

/// A group establishes a work in a sitting: at least 15% of its dwell
/// and at least five minutes.
pub open spec fn establishes(ivs: Seq<IntervalModel>, rs: Seq<Seq<char>>, s: SittingModel, g: Seq<char>) -> bool {
    let gd = group_dwell(ivs, rs, s.interval_indices, g);
    &&& s.total_dwell_ms > 0
    &&& 20 * gd >= 3 * s.total_dwell_ms
    &&& gd >= ESTABLISH_DWELL_MS
}

/// A group established a work in some sitting.
#[verifier::opaque]
pub open spec fn established(ivs: Seq<IntervalModel>, d: Seq<(Seq<char>, Seq<char>)>, g: Seq<char>) -> bool {
    exists|k: int| 0 <= k < sittings(ivs).len() && establishes(ivs, interval_roots(ivs, d), #[trigger] sittings(ivs)[k], g)
}

/// The pages of a group, in code-point order.
pub open spec fn group_pages(ivs: Seq<IntervalModel>, d: Seq<(Seq<char>, Seq<char>)>, g: Seq<char>) -> Seq<Seq<char>> {
    page_list(ivs).filter(|p: Seq<char>| page_root(ivs, d, p) == g)
}

/// A body of work by structure alone: two or more pages with five
/// minutes of dwell in all.
pub open spec fn structural_work(ivs: Seq<IntervalModel>, d: Seq<(Seq<char>, Seq<char>)>, g: Seq<char>) -> bool {
    &&& group_pages(ivs, d, g).len() >= 2
    &&& group_dwell(ivs, interval_roots(ivs, d), positions(ivs.len() as int), g) >= ESTABLISH_DWELL_MS
}

/// A group that makes a work: established, or a work by structure.
pub open spec fn work_group(ivs: Seq<IntervalModel>, d: Seq<(Seq<char>, Seq<char>)>, g: Seq<char>) -> bool {
    established(ivs, d, g) || structural_work(ivs, d, g)
}

/// The groups of the pages, in code-point order of their roots.
pub open spec fn groups(ivs: Seq<IntervalModel>, d: Seq<(Seq<char>, Seq<char>)>) -> Seq<Seq<char>> {
    sorted_texts(distinct(page_list(ivs).map_values(|p: Seq<char>| page_root(ivs, d, p))))
}

/// A sitting's dwell is the dwell of its intervals, and its positions
/// are positions of intervals.
proof fn lemma_sitting_sums(ivs: Seq<IntervalModel>, order: Seq<int>)
    requires
        forall|k: int| 0 <= k < order.len() ==> 0 <= #[trigger] order[k] < ivs.len(),
    ensures
        forall|k: int| 0 <= k < sittings_of(ivs, order).len() ==> (#[trigger] sittings_of(ivs, order)[k]).total_dwell_ms
            == dwell_sum(ivs, sittings_of(ivs, order)[k].interval_indices),
        forall|k: int, t: int|
            0 <= k < sittings_of(ivs, order).len() && 0 <= t < sittings_of(ivs, order)[k].interval_indices.len()
                ==> 0 <= #[trigger] sittings_of(ivs, order)[k].interval_indices[t] < ivs.len(),
    decreases order.len(),
{
    if order.len() > 0 {
        let pre = order.drop_last();
        lemma_sitting_sums(ivs, pre);
        let prev = sittings_of(ivs, pre);
        let cur = sittings_of(ivs, order);
        let p = order.last();
        assert(order[order.len() - 1] == p);
        if prev.len() > 0 && ivs[p].start_ms - prev.last().end_ms <= crate::ledger::hypotheses::SITTING_GAP_MS {
            let last = prev.len() - 1;
            assert(cur[last].interval_indices == prev[last].interval_indices.push(p));
            assert(cur[last].interval_indices.drop_last() =~= prev[last].interval_indices);
            assert(cur[last].interval_indices.last() == p);
            assert forall|k: int| 0 <= k < cur.len() implies (#[trigger] cur[k]).total_dwell_ms == dwell_sum(ivs, cur[k].interval_indices) by {
                if k < last {
                    assert(cur[k] == prev[k]);
                }
            }
            assert forall|k: int, t: int|
                0 <= k < cur.len() && 0 <= t < cur[k].interval_indices.len() implies 0 <= #[trigger] cur[k].interval_indices[t]
                    < ivs.len() by {
                if k == last && t == cur[k].interval_indices.len() - 1 {
                } else if k == last {
                    assert(cur[k].interval_indices[t] == prev[k].interval_indices[t]);
                }
            }
        } else {
            let last = prev.len() as int;
            assert(cur[last].interval_indices == seq![p]);
            assert(cur[last].interval_indices.drop_last() =~= Seq::<int>::empty());
            assert(cur[last].interval_indices.last() == p);
            assert(dwell_sum(ivs, Seq::<int>::empty()) == 0);
            assert(dwell_sum(ivs, cur[last].interval_indices) == ivs[p].total_dwell_ms);
            assert forall|k: int| 0 <= k < cur.len() implies (#[trigger] cur[k]).total_dwell_ms == dwell_sum(ivs, cur[k].interval_indices) by {
                if k < last {
                    assert(cur[k] == prev[k]);
                }
            }
            assert forall|k: int, t: int|
                0 <= k < cur.len() && 0 <= t < cur[k].interval_indices.len() implies 0 <= #[trigger] cur[k].interval_indices[t]
                    < ivs.len() by {
                if k < last {
                    assert(cur[k] == prev[k]);
                }
            }
        }
    }
}

/// Part of a sum is at most the sum.
proof fn lemma_group_dwell_bound(ivs: Seq<IntervalModel>, rs: Seq<Seq<char>>, idx: Seq<int>, g: Seq<char>)
    requires
        forall|t: int| 0 <= t < idx.len() ==> 0 <= #[trigger] idx[t] < ivs.len(),
        forall|i: int| 0 <= i < ivs.len() ==> (#[trigger] ivs[i]).total_dwell_ms >= 0,
    ensures
        0 <= group_dwell(ivs, rs, idx, g) <= dwell_sum(ivs, idx),
    decreases idx.len(),
{
    if idx.len() > 0 {
        lemma_group_dwell_bound(ivs, rs, idx.drop_last(), g);
        assert(ivs[idx.last()].total_dwell_ms >= 0);
    }
}

/// The dwell of all intervals is their sum.
proof fn lemma_dwell_sum_all(ivs: Seq<IntervalModel>, k: int)
    requires
        0 <= k <= ivs.len(),
    ensures
        dwell_sum(ivs, positions(k)) == seq_sum(ivs.take(k), iv_dwell()),
    decreases k,
{
    if k > 0 {
        lemma_dwell_sum_all(ivs, k - 1);
        assert(positions(k).drop_last() =~= positions(k - 1));
        assert(ivs.take(k).drop_last() =~= ivs.take(k - 1));
    } else {
        assert(ivs.take(0) =~= Seq::<IntervalModel>::empty());
    }
}

/// A prefix of the positions sums to no more than all of them.
proof fn lemma_dwell_sum_prefix(ivs: Seq<IntervalModel>, idx: Seq<int>, t: int)
    requires
        0 <= t <= idx.len(),
        forall|u: int| 0 <= u < idx.len() ==> 0 <= #[trigger] idx[u] < ivs.len(),
        forall|i: int| 0 <= i < ivs.len() ==> (#[trigger] ivs[i]).total_dwell_ms >= 0,
    ensures
        0 <= dwell_sum(ivs, idx.take(t)) <= dwell_sum(ivs, idx),
    decreases idx.len() - t,
{
    if t < idx.len() {
        lemma_dwell_sum_prefix(ivs, idx, t + 1);
        assert(idx.take(t + 1).drop_last() =~= idx.take(t));
        assert(idx.take(t + 1).last() == idx[t]);
        assert(ivs[idx[t]].total_dwell_ms >= 0);
        assert forall|u: int| 0 <= u < idx.take(t).len() implies 0 <= #[trigger] idx.take(t)[u] < ivs.len() by {
            assert(idx.take(t)[u] == idx[u]);
        }
        lemma_dwell_nonneg(ivs, idx.take(t));
    } else {
        assert(idx.take(t) =~= idx);
        lemma_dwell_nonneg(ivs, idx);
    }
}

proof fn lemma_dwell_nonneg(ivs: Seq<IntervalModel>, idx: Seq<int>)
    requires
        forall|u: int| 0 <= u < idx.len() ==> 0 <= #[trigger] idx[u] < ivs.len(),
        forall|i: int| 0 <= i < ivs.len() ==> (#[trigger] ivs[i]).total_dwell_ms >= 0,
    ensures
        dwell_sum(ivs, idx) >= 0,
    decreases idx.len(),
{
    if idx.len() > 0 {
        lemma_dwell_nonneg(ivs, idx.drop_last());
        assert(ivs[idx.last()].total_dwell_ms >= 0);
    }
}

/// The positions as integers.
pub open spec fn index_views(v: Seq<usize>) -> Seq<int> {
    v.map_values(|i: usize| i as int)
}

/// The sorted distinct texts of `values`, and for each value its position
/// among them.
fn index_texts(values: &Vec<String>) -> (r: (Vec<String>, Vec<usize>))
    ensures
        views(r.0@) == sorted_texts(distinct(views(values@))),
        views(r.0@).no_duplicates(),
        r.1@.len() == values@.len(),
        forall|q: int| 0 <= q < values@.len() ==> (#[trigger] r.1@[q]) < r.0@.len() && r.0@[r.1@[q] as int]@ == values@[q]@,
{
    let ghost vv = views(values@);
    let mut seen: Vec<String> = Vec::new();
    let mut i: usize = 0;
    while i < values.len()
        invariant
            i <= values@.len(),
            vv == views(values@),
            views(seen@) == distinct(vv.take(i as int)),
        decreases values@.len() - i,
    {
        proof {
            assert(vv.take(i + 1).drop_last() =~= vv.take(i as int));
            assert(vv.take(i + 1).last() == values@[i as int]@);
        }
        push_unique(&mut seen, values[i].as_str());
        i = i + 1;
    }
    assert(vv.take(values@.len() as int) =~= vv);
    let sorted = sort_strings(&seen);
    proof {
        lemma_distinct(vv);
        lemma_sorted_texts(distinct(vv));
    }
    let mut pos: Vec<usize> = Vec::new();
    let mut j: usize = 0;
    while j < values.len()
        invariant
            j <= values@.len(),
            vv == views(values@),
            views(sorted@) == sorted_texts(distinct(vv)),
            forall|x: Seq<char>| #[trigger] views(sorted@).contains(x) <==> vv.contains(x),
            pos@.len() == j,
            forall|t: int| 0 <= t < j ==> (#[trigger] pos@[t]) < sorted@.len() && sorted@[pos@[t] as int]@ == values@[t]@,
        decreases values@.len() - j,
    {
        assert(vv.contains(vv[j as int]));
        match position_of(&sorted, values[j].as_str()) {
            Some(p) => {
                pos.push(p);
            },
            None => {
                assert(views(sorted@).contains(values@[j as int]@));
                pos.push(0);
            },
        }
        j = j + 1;
    }
    (sorted, pos)
}

/// The groups, and the group of each interval: positions among the
/// groups, which are in code-point order of their roots.
pub open spec fn group_of_intervals(
    ivs: Seq<IntervalModel>,
    d: Seq<(Seq<char>, Seq<char>)>,
    gs: Seq<Seq<char>>,
    gi: Seq<usize>,
) -> bool {
    &&& gs == groups(ivs, d)
    &&& gs.no_duplicates()
    &&& gi.len() == ivs.len()
    &&& forall|i: int| 0 <= i < ivs.len() ==> (#[trigger] gi[i]) < gs.len() && gs[gi[i] as int] == interval_roots(ivs, d)[i]
}

/// The dwell of each group over the intervals at the given positions.
fn group_sums(
    intervals: &[WorkInterval],
    idx: &Vec<usize>,
    gi: &Vec<usize>,
    ng: usize,
    Ghost(gs): Ghost<Seq<Seq<char>>>,
    Ghost(rs): Ghost<Seq<Seq<char>>>,
) -> (r: Vec<u64>)
    requires
        gs.len() == ng,
        gs.no_duplicates(),
        gi@.len() == intervals@.len(),
        rs.len() == intervals@.len(),
        forall|i: int| 0 <= i < intervals@.len() ==> (#[trigger] gi@[i]) < ng && gs[gi@[i] as int] == rs[i],
        forall|t: int| 0 <= t < idx@.len() ==> (#[trigger] idx@[t]) < intervals@.len(),
        dwell_sum(interval_views(intervals@), index_views(idx@)) <= u64::MAX,
    ensures
        r@.len() == ng,
        forall|g: int| 0 <= g < ng ==> (#[trigger] r@[g]) == group_dwell(interval_views(intervals@), rs, index_views(idx@), gs[g]),
{
    let ghost ivs = interval_views(intervals@);
    let ghost iv = index_views(idx@);
    let mut out: Vec<u64> = Vec::new();
    let mut g: usize = 0;
    while g < ng
        invariant
            g <= ng,
            out@.len() == g,
            forall|h: int| 0 <= h < g ==> #[trigger] out@[h] == 0,
        decreases ng - g,
    {
        out.push(0);
        g = g + 1;
    }
    proof {
        assert(iv.take(0) =~= Seq::<int>::empty());
        assert forall|i: int| 0 <= i < ivs.len() implies (#[trigger] ivs[i]).total_dwell_ms >= 0 by {
            assert(ivs[i] == intervals@[i]@);
        }
        assert forall|u: int| 0 <= u < iv.len() implies 0 <= #[trigger] iv[u] < ivs.len() by {
            assert(iv[u] == idx@[u] as int);
        }
    }
    let mut t: usize = 0;
    while t < idx.len()
        invariant
            t <= idx@.len(),
            ivs == interval_views(intervals@),
            iv == index_views(idx@),
            gs.len() == ng,
            gs.no_duplicates(),
            gi@.len() == intervals@.len(),
            rs.len() == intervals@.len(),
            forall|i: int| 0 <= i < intervals@.len() ==> (#[trigger] gi@[i]) < ng && gs[gi@[i] as int] == rs[i],
            forall|u: int| 0 <= u < idx@.len() ==> (#[trigger] idx@[u]) < intervals@.len(),
            forall|i: int| 0 <= i < ivs.len() ==> (#[trigger] ivs[i]).total_dwell_ms >= 0,
            forall|u: int| 0 <= u < iv.len() ==> 0 <= #[trigger] iv[u] < ivs.len(),
            dwell_sum(ivs, iv) <= u64::MAX,
            out@.len() == ng,
            forall|h: int| 0 <= h < ng ==> (#[trigger] out@[h]) == group_dwell(ivs, rs, iv.take(t as int), gs[h]),
        decreases idx@.len() - t,
    {
        let i = idx[t];
        let h = gi[i];
        proof {
            assert(iv.take(t + 1).drop_last() =~= iv.take(t as int));
            assert(iv.take(t + 1).last() == i as int);
            assert(ivs[i as int] == intervals@[i as int]@);
            lemma_dwell_sum_prefix(ivs, iv, t + 1);
            assert forall|u: int| 0 <= u < iv.take(t + 1).len() implies 0 <= #[trigger] iv.take(t + 1)[u] < ivs.len() by {
                assert(iv.take(t + 1)[u] == iv[u]);
            }
            lemma_group_dwell_bound(ivs, rs, iv.take(t + 1), gs[h as int]);
            assert forall|g2: int| 0 <= g2 < ng && g2 != h implies gs[g2] != rs[i as int] by {
                assert(gs[h as int] == rs[i as int]);
            }
        }
        let v = out[h] + intervals[i].total_dwell_ms;
        out.set(h, v);
        t = t + 1;
    }
    assert(iv.take(idx@.len() as int) =~= iv);
    out
}

/// The sittings are sums of their intervals' dwell, over positions of
/// intervals.
proof fn lemma_sittings_facts(ivs: Seq<IntervalModel>)
    ensures
        forall|k: int| 0 <= k < sittings(ivs).len() ==> (#[trigger] sittings(ivs)[k]).total_dwell_ms == dwell_sum(
            ivs,
            sittings(ivs)[k].interval_indices,
        ),
        forall|k: int, t: int|
            0 <= k < sittings(ivs).len() && 0 <= t < sittings(ivs)[k].interval_indices.len() ==> 0
                <= #[trigger] sittings(ivs)[k].interval_indices[t] < ivs.len(),
{
    lemma_start_order(ivs, ivs.len() as int);
    lemma_sitting_sums(ivs, start_order(ivs, ivs.len() as int));
}

/// Which groups establish a work: for each group, whether some sitting
/// gives it 15% of its dwell and five minutes.
fn establishment(
    intervals: &[WorkInterval],
    sits: &Vec<Sitting>,
    gi: &Vec<usize>,
    ng: usize,
    Ghost(gs): Ghost<Seq<Seq<char>>>,
    Ghost(d): Ghost<Seq<(Seq<char>, Seq<char>)>>,
) -> (r: Vec<bool>)
    requires
        sitting_views(sits@) == sittings(interval_views(intervals@)),
        group_of_intervals(interval_views(intervals@), d, gs, gi@),
        ng == gs.len(),
    ensures
        r@.len() == ng,
        forall|g: int| 0 <= g < ng ==> (#[trigger] r@[g]) == established(interval_views(intervals@), d, gs[g]),
{
    let ghost ivs = interval_views(intervals@);
    let ghost rs = interval_roots(ivs, d);
    let ghost ss = sittings(ivs);
    proof {
        lemma_sittings_facts(ivs);
    }
    let mut est: Vec<bool> = Vec::new();
    let mut g: usize = 0;
    while g < ng
        invariant
            g <= ng,
            est@.len() == g,
            forall|h: int| 0 <= h < g ==> !(#[trigger] est@[h]),
        decreases ng - g,
    {
        est.push(false);
        g = g + 1;
    }
    let mut k: usize = 0;
    while k < sits.len()
        invariant
            k <= sits@.len(),
            ivs == interval_views(intervals@),
            rs == interval_roots(ivs, d),
            ss == sittings(ivs),
            sitting_views(sits@) == ss,
            group_of_intervals(ivs, d, gs, gi@),
            ng == gs.len(),
            forall|q: int| 0 <= q < ss.len() ==> (#[trigger] ss[q]).total_dwell_ms == dwell_sum(ivs, ss[q].interval_indices),
            forall|q: int, t: int|
                0 <= q < ss.len() && 0 <= t < ss[q].interval_indices.len() ==> 0 <= #[trigger] ss[q].interval_indices[t] < ivs.len(),
            est@.len() == ng,
            forall|h: int| 0 <= h < ng ==> (#[trigger] est@[h]) == exists|q: int| 0 <= q < k && establishes(ivs, rs, #[trigger] ss[q], gs[h]),
        decreases sits@.len() - k,
    {
        let s = &sits[k];
        proof {
            assert(ss[k as int] == s@);
            assert(index_views(s.interval_indices@) == s@.interval_indices);
            assert forall|t: int| 0 <= t < s.interval_indices@.len() implies (#[trigger] s.interval_indices@[t]) < intervals@.len() by {
                assert(s@.interval_indices[t] == s.interval_indices@[t] as int);
            }
        }
        let sums = group_sums(intervals, &s.interval_indices, gi, ng, Ghost(gs), Ghost(rs));
        let total = s.total_dwell_ms;
        let ghost before = est@;
        let mut h: usize = 0;
        while h < ng
            invariant
                h <= ng,
                k < sits@.len(),
                ss[k as int] == s@,
                total == s@.total_dwell_ms,
                sums@.len() == ng,
                forall|g2: int| 0 <= g2 < ng ==> (#[trigger] sums@[g2]) == group_dwell(ivs, rs, s@.interval_indices, gs[g2]),
                est@.len() == ng,
                forall|g2: int| 0 <= g2 < h ==> (#[trigger] est@[g2]) == (before[g2] || establishes(ivs, rs, ss[k as int], gs[g2])),
                forall|g2: int| h <= g2 < ng ==> (#[trigger] est@[g2]) == before[g2],
            decreases ng - h,
        {
            let gd = sums[h];
            let here = total > 0 && 20 * (gd as u128) >= 3 * (total as u128) && gd >= ESTABLISH_DWELL_MS;
            if here {
                est.set(h, true);
            }
            h = h + 1;
        }
        proof {
            assert forall|g2: int| 0 <= g2 < ng implies (#[trigger] est@[g2]) == exists|q: int| 0 <= q < k + 1 && establishes(ivs, rs, #[trigger] ss[q], gs[g2]) by {
                if est@[g2] && !before[g2] {
                    assert(establishes(ivs, rs, ss[k as int], gs[g2]));
                }
                if exists|q: int| 0 <= q < k + 1 && establishes(ivs, rs, #[trigger] ss[q], gs[g2]) {
                    let q = choose|q: int| 0 <= q < k + 1 && establishes(ivs, rs, #[trigger] ss[q], gs[g2]);
                    if q < k {
                        assert(before[g2]);
                    }
                }
            }
        }
        k = k + 1;
    }
    proof {
        reveal(established);
    }
    est
}

/// The group of each page: positions among the groups.
pub open spec fn group_of_pages(
    ivs: Seq<IntervalModel>,
    d: Seq<(Seq<char>, Seq<char>)>,
    gs: Seq<Seq<char>>,
    gp: Seq<usize>,
) -> bool {
    &&& gp.len() == page_list(ivs).len()
    &&& forall|q: int| 0 <= q < gp.len() ==> (#[trigger] gp[q]) < gs.len() && gs[gp[q] as int] == page_root(ivs, d, page_list(ivs)[q])
}

/// Which groups make a work: established, or two or more pages with
/// five minutes of dwell in all.
fn work_groups_of(
    intervals: &[WorkInterval],
    gp: &Vec<usize>,
    gi: &Vec<usize>,
    est: &Vec<bool>,
    ng: usize,
    Ghost(gs): Ghost<Seq<Seq<char>>>,
    Ghost(d): Ghost<Seq<(Seq<char>, Seq<char>)>>,
) -> (r: Vec<bool>)
    requires
        group_of_intervals(interval_views(intervals@), d, gs, gi@),
        group_of_pages(interval_views(intervals@), d, gs, gp@),
        ng == gs.len(),
        est@.len() == ng,
        forall|g: int| 0 <= g < ng ==> (#[trigger] est@[g]) == established(interval_views(intervals@), d, gs[g]),
        seq_sum(interval_views(intervals@), iv_dwell()) <= u64::MAX,
    ensures
        r@.len() == ng,
        forall|g: int| 0 <= g < ng ==> (#[trigger] r@[g]) == work_group(interval_views(intervals@), d, gs[g]),
{
    let ghost ivs = interval_views(intervals@);
    let ghost rs = interval_roots(ivs, d);
    let ghost kl = page_list(ivs);
    let mut counts: Vec<usize> = Vec::new();
    let mut g: usize = 0;
    while g < ng
        invariant
            g <= ng,
            counts@.len() == g,
            forall|h: int| 0 <= h < g ==> #[trigger] counts@[h] == 0,
        decreases ng - g,
    {
        counts.push(0);
        g = g + 1;
    }
    proof {
        assert(kl.take(0) =~= Seq::<Seq<char>>::empty());
        assert forall|h: int| 0 <= h < ng implies #[trigger] counts@[h] == kl.take(0).filter(|p: Seq<char>| page_root(ivs, d, p) == gs[h]).len() by {}
    }
    let mut q: usize = 0;
    while q < gp.len()
        invariant
            q <= gp@.len(),
            ivs == interval_views(intervals@),
            kl == page_list(ivs),
            group_of_pages(ivs, d, gs, gp@),
            gs.no_duplicates(),
            ng == gs.len(),
            counts@.len() == ng,
            forall|h: int| 0 <= h < ng ==> #[trigger] counts@[h] == kl.take(q as int).filter(|p: Seq<char>| page_root(ivs, d, p) == gs[h]).len(),
            forall|h: int| 0 <= h < ng ==> #[trigger] counts@[h] <= q,
        decreases gp@.len() - q,
    {
        let h = gp[q];
        proof {
            assert(kl.take(q + 1) =~= kl.take(q as int).push(kl[q as int]));
            assert forall|h2: int| #![trigger gs[h2]] 0 <= h2 < ng implies (kl.take(q + 1).filter(|p: Seq<char>| page_root(ivs, d, p) == gs[h2]).len()
                == kl.take(q as int).filter(|p: Seq<char>| page_root(ivs, d, p) == gs[h2]).len() + if h2 == h { 1int } else { 0int }) by {
                kl.take(q as int).lemma_filter_push(kl[q as int], |p: Seq<char>| page_root(ivs, d, p) == gs[h2]);
                if h2 != h {
                    assert(gs[h2] != gs[h as int]);
                }
            }
        }
        let c = counts[h] + 1;
        counts.set(h, c);
        q = q + 1;
    }
    assert(kl.take(gp@.len() as int) =~= kl);
    let mut all: Vec<usize> = Vec::new();
    let mut i: usize = 0;
    while i < intervals.len()
        invariant
            i <= intervals@.len(),
            index_views(all@) == positions(i as int),
            forall|t: int| 0 <= t < all@.len() ==> (#[trigger] all@[t]) < intervals@.len(),
        decreases intervals@.len() - i,
    {
        let ghost prev = index_views(all@);
        all.push(i);
        assert(index_views(all@) =~= prev.push(i as int));
        i = i + 1;
        assert(index_views(all@) =~= positions(i as int));
    }
    proof {
        lemma_dwell_sum_all(ivs, ivs.len() as int);
        assert(ivs.take(ivs.len() as int) =~= ivs);
    }
    let sums = group_sums(intervals, &all, gi, ng, Ghost(gs), Ghost(rs));
    let mut out: Vec<bool> = Vec::new();
    let mut h: usize = 0;
    while h < ng
        invariant
            h <= ng,
            ng == gs.len(),
            rs == interval_roots(ivs, d),
            est@.len() == ng,
            counts@.len() == ng,
            sums@.len() == ng,
            forall|g2: int| 0 <= g2 < ng ==> (#[trigger] est@[g2]) == established(ivs, d, gs[g2]),
            forall|g2: int| 0 <= g2 < ng ==> #[trigger] counts@[g2] == group_pages(ivs, d, gs[g2]).len(),
            forall|g2: int| 0 <= g2 < ng ==> (#[trigger] sums@[g2]) == group_dwell(ivs, rs, positions(ivs.len() as int), gs[g2]),
            out@.len() == h,
            forall|g2: int| 0 <= g2 < h ==> (#[trigger] out@[g2]) == work_group(ivs, d, gs[g2]),
        decreases ng - h,
    {
        let w = est[h] || (counts[h] >= 2 && sums[h] >= ESTABLISH_DWELL_MS);
        proof {
            assert(est@[h as int] == established(ivs, d, gs[h as int]));
            assert(counts@[h as int] == group_pages(ivs, d, gs[h as int]).len());
            assert(sums@[h as int] == group_dwell(ivs, rs, positions(ivs.len() as int), gs[h as int]));
            assert(w == work_group(ivs, d, gs[h as int]));
        }
        let ghost before = out@;
        out.push(w);
        proof {
            assert forall|g2: int| 0 <= g2 < h + 1 implies (#[trigger] out@[g2]) == work_group(ivs, d, gs[g2]) by {
                if g2 < h {
                    assert(out@[g2] == before[g2]);
                }
            }
        }
        h = h + 1;
    }
    out
}

// ── Ambient quarantine ─────────────────────────────────────────────────────

/// Some interval attending `p` carried keystrokes.
pub open spec fn page_typed(ivs: Seq<IntervalModel>, p: Seq<char>) -> bool {
    exists|i: int| 0 <= i < ivs.len() && #[trigger] interval_keys(ivs)[i] == p && ivs[i].keys > 0
}

/// Some interval of the sitting attends `p`.
pub open spec fn in_sitting(ivs: Seq<IntervalModel>, s: SittingModel, p: Seq<char>) -> bool {
    exists|t: int| 0 <= t < s.interval_indices.len() && interval_keys(ivs)[#[trigger] s.interval_indices[t]] == p
}

/// `g` is an established work, other than `p`'s own group, present in a
/// sitting where `p` is.
pub open spec fn co_work(ivs: Seq<IntervalModel>, d: Seq<(Seq<char>, Seq<char>)>, p: Seq<char>, g: Seq<char>) -> bool {
    &&& established(ivs, d, g)
    &&& g != page_root(ivs, d, p)
    &&& exists|k: int, t: int|
        0 <= k < sittings(ivs).len() && in_sitting(ivs, #[trigger] sittings(ivs)[k], p) && 0 <= t
            < sittings(ivs)[k].interval_indices.len() && interval_roots(ivs, d)[#[trigger] sittings(ivs)[k].interval_indices[t]]
            == g
}

/// An ambient page: no keystrokes, no work of its own, and seen beside
/// two or more different established works.
#[verifier::opaque]
pub open spec fn quarantined(ivs: Seq<IntervalModel>, d: Seq<(Seq<char>, Seq<char>)>, p: Seq<char>) -> bool {
    &&& !page_typed(ivs, p)
    &&& !work_group(ivs, d, page_root(ivs, d, p))
    &&& exists|g1: Seq<char>, g2: Seq<char>| g1 != g2 && co_work(ivs, d, p, g1) && co_work(ivs, d, p, g2)
}

/// The page of each interval: positions among the pages.
pub open spec fn page_of_intervals(ivs: Seq<IntervalModel>, pk: Seq<usize>) -> bool {
    &&& pk.len() == ivs.len()
    &&& page_list(ivs).no_duplicates()
    &&& forall|i: int| 0 <= i < ivs.len() ==> (#[trigger] pk[i]) < page_list(ivs).len() && page_list(ivs)[pk[i] as int]
        == interval_keys(ivs)[i]
}

fn page_typed_of(intervals: &[WorkInterval], pk: &Vec<usize>, q: usize) -> (r: bool)
    requires
        page_of_intervals(interval_views(intervals@), pk@),
        q < page_list(interval_views(intervals@)).len(),
    ensures
        r == page_typed(interval_views(intervals@), page_list(interval_views(intervals@))[q as int]),
{
    let ghost ivs = interval_views(intervals@);
    let ghost kl = page_list(ivs);
    let mut i: usize = 0;
    while i < intervals.len()
        invariant
            i <= intervals@.len(),
            ivs == interval_views(intervals@),
            kl == page_list(ivs),
            page_of_intervals(ivs, pk@),
            q < kl.len(),
            forall|j: int| 0 <= j < i && #[trigger] interval_keys(ivs)[j] == kl[q as int] ==> ivs[j].keys <= 0,
        decreases intervals@.len() - i,
    {
        proof {
            assert(ivs[i as int] == intervals@[i as int]@);
            if interval_keys(ivs)[i as int] == kl[q as int] && pk@[i as int] != q {
                assert(kl[pk@[i as int] as int] == kl[q as int]);
            }
        }
        if pk[i] == q && intervals[i].keys > 0 {
            return true;
        }
        i = i + 1;
    }
    false
}

fn page_in_sitting(intervals: &[WorkInterval], pk: &Vec<usize>, idx: &Vec<usize>, q: usize) -> (r: bool)
    requires
        page_of_intervals(interval_views(intervals@), pk@),
        q < page_list(interval_views(intervals@)).len(),
        forall|t: int| 0 <= t < idx@.len() ==> (#[trigger] idx@[t]) < intervals@.len(),
    ensures
        r == exists|t: int| 0 <= t < idx@.len() && interval_keys(interval_views(intervals@))[#[trigger] index_views(idx@)[t]]
            == page_list(interval_views(intervals@))[q as int],
{
    let ghost ivs = interval_views(intervals@);
    let ghost kl = page_list(ivs);
    let ghost iv = index_views(idx@);
    let mut t: usize = 0;
    while t < idx.len()
        invariant
            t <= idx@.len(),
            ivs == interval_views(intervals@),
            kl == page_list(ivs),
            iv == index_views(idx@),
            page_of_intervals(ivs, pk@),
            q < kl.len(),
            forall|u: int| 0 <= u < idx@.len() ==> (#[trigger] idx@[u]) < intervals@.len(),
            forall|u: int| 0 <= u < t ==> interval_keys(ivs)[#[trigger] iv[u]] != kl[q as int],
        decreases idx@.len() - t,
    {
        let i = idx[t];
        proof {
            assert(iv[t as int] == i as int);
            if pk@[i as int] != q && interval_keys(ivs)[i as int] == kl[q as int] {
                assert(kl[pk@[i as int] as int] == kl[q as int]);
            }
        }
        if pk[i] == q {
            return true;
        }
        t = t + 1;
    }
    false
}

/// Which pages are ambient, pages in code-point order.
fn quarantine_of(
    intervals: &[WorkInterval],
    sits: &Vec<Sitting>,
    pk: &Vec<usize>,
    gp: &Vec<usize>,
    gi: &Vec<usize>,
    est: &Vec<bool>,
    wg: &Vec<bool>,
    ng: usize,
    Ghost(gs): Ghost<Seq<Seq<char>>>,
    Ghost(d): Ghost<Seq<(Seq<char>, Seq<char>)>>,
) -> (r: Vec<bool>)
    requires
        sitting_views(sits@) == sittings(interval_views(intervals@)),
        page_of_intervals(interval_views(intervals@), pk@),
        group_of_intervals(interval_views(intervals@), d, gs, gi@),
        group_of_pages(interval_views(intervals@), d, gs, gp@),
        ng == gs.len(),
        est@.len() == ng,
        wg@.len() == ng,
        forall|g: int| 0 <= g < ng ==> (#[trigger] est@[g]) == established(interval_views(intervals@), d, gs[g]),
        forall|g: int| 0 <= g < ng ==> (#[trigger] wg@[g]) == work_group(interval_views(intervals@), d, gs[g]),
    ensures
        r@.len() == gp@.len(),
        forall|q: int| 0 <= q < gp@.len() ==> (#[trigger] r@[q]) == quarantined(
            interval_views(intervals@),
            d,
            page_list(interval_views(intervals@))[q],
        ),
{
    let ghost ivs = interval_views(intervals@);
    let ghost kl = page_list(ivs);
    let ghost rs = interval_roots(ivs, d);
    let ghost ss = sittings(ivs);
    proof {
        lemma_sittings_facts(ivs);
    }
    let mut out: Vec<bool> = Vec::new();
    let mut q: usize = 0;
    while q < gp.len()
        invariant
            q <= gp@.len(),
            ivs == interval_views(intervals@),
            kl == page_list(ivs),
            rs == interval_roots(ivs, d),
            ss == sittings(ivs),
            sitting_views(sits@) == ss,
            page_of_intervals(ivs, pk@),
            group_of_intervals(ivs, d, gs, gi@),
            group_of_pages(ivs, d, gs, gp@),
            ng == gs.len(),
            est@.len() == ng,
            wg@.len() == ng,
            forall|g: int| 0 <= g < ng ==> (#[trigger] est@[g]) == established(ivs, d, gs[g]),
            forall|g: int| 0 <= g < ng ==> (#[trigger] wg@[g]) == work_group(ivs, d, gs[g]),
            forall|k: int, t: int|
                0 <= k < ss.len() && 0 <= t < ss[k].interval_indices.len() ==> 0 <= #[trigger] ss[k].interval_indices[t] < ivs.len(),
            out@.len() == q,
            forall|u: int| 0 <= u < q ==> (#[trigger] out@[u]) == quarantined(ivs, d, kl[u]),
        decreases gp@.len() - q,
    {
        let ghost p = kl[q as int];
        let own = gp[q];
        let typed = page_typed_of(intervals, pk, q);
        let mut verdict = false;
        if !typed && !wg[own] {
            let mut co: Vec<bool> = Vec::new();
            let mut h: usize = 0;
            while h < ng
                invariant
                    h <= ng,
                    co@.len() == h,
                    forall|g: int| 0 <= g < h ==> !(#[trigger] co@[g]),
                decreases ng - h,
            {
                co.push(false);
                h = h + 1;
            }
            let mut k: usize = 0;
            while k < sits.len()
                invariant
                    k <= sits@.len(),
                    q < gp@.len(),
                    own == gp@[q as int],
                    p == kl[q as int],
                    ivs == interval_views(intervals@),
                    kl == page_list(ivs),
                    rs == interval_roots(ivs, d),
                    ss == sittings(ivs),
                    sitting_views(sits@) == ss,
                    page_of_intervals(ivs, pk@),
                    group_of_intervals(ivs, d, gs, gi@),
                    group_of_pages(ivs, d, gs, gp@),
                    ng == gs.len(),
                    est@.len() == ng,
                    forall|g: int| 0 <= g < ng ==> (#[trigger] est@[g]) == established(ivs, d, gs[g]),
                    forall|k2: int, t: int|
                        0 <= k2 < ss.len() && 0 <= t < ss[k2].interval_indices.len() ==> 0 <= #[trigger] ss[k2].interval_indices[t] < ivs.len(),
                    co@.len() == ng,
                    forall|g: int| 0 <= g < ng ==> (#[trigger] co@[g]) == (established(ivs, d, gs[g]) && gs[g] != page_root(ivs, d, p)
                        && exists|k2: int, t: int| 0 <= k2 < k && in_sitting(ivs, #[trigger] ss[k2], p) && 0 <= t < ss[k2].interval_indices.len()
                            && rs[#[trigger] ss[k2].interval_indices[t]] == gs[g]),
                decreases sits@.len() - k,
            {
                let idx = &sits[k].interval_indices;
                proof {
                    assert(ss[k as int] == sits@[k as int]@);
                    assert(index_views(idx@) == ss[k as int].interval_indices);
                    assert forall|t: int| 0 <= t < idx@.len() implies (#[trigger] idx@[t]) < intervals@.len() by {
                        assert(ss[k as int].interval_indices[t] == idx@[t] as int);
                    }
                }
                let here = page_in_sitting(intervals, pk, idx, q);
                let ghost before = co@;
                if here {
                    let mut t: usize = 0;
                    while t < idx.len()
                        invariant
                            t <= idx@.len(),
                            k < sits@.len(),
                            ivs == interval_views(intervals@),
                            ss == sittings(ivs),
                            before.len() == ng,
                            index_views(idx@) == ss[k as int].interval_indices,
                            forall|u: int| 0 <= u < idx@.len() ==> (#[trigger] idx@[u]) < intervals@.len(),
                            q < gp@.len(),
                            own == gp@[q as int],
                            p == kl[q as int],
                            rs == interval_roots(ivs, d),
                            group_of_intervals(ivs, d, gs, gi@),
                            group_of_pages(ivs, d, gs, gp@),
                            kl == page_list(ivs),
                            ng == gs.len(),
                            est@.len() == ng,
                            forall|g: int| 0 <= g < ng ==> (#[trigger] est@[g]) == established(ivs, d, gs[g]),
                            co@.len() == ng,
                            forall|g: int| 0 <= g < ng ==> (#[trigger] co@[g]) == (before[g] || (established(ivs, d, gs[g])
                                && gs[g] != page_root(ivs, d, p) && exists|u: int| 0 <= u < t && rs[#[trigger] ss[k as int].interval_indices[u]] == gs[g])),
                        decreases idx@.len() - t,
                    {
                        let i = idx[t];
                        let h2 = gi[i];
                        proof {
                            assert(ss[k as int].interval_indices[t as int] == i as int);
                            assert(gs[h2 as int] == rs[i as int]);
                            assert(gs[own as int] == page_root(ivs, d, p));
                        }
                        if est[h2] && h2 != own {
                            co.set(h2, true);
                        }
                        proof {
                            assert forall|g: int| 0 <= g < ng implies (#[trigger] co@[g]) == (before[g] || (established(ivs, d, gs[g])
                                && gs[g] != page_root(ivs, d, p) && exists|u: int| 0 <= u < t + 1 && rs[#[trigger] ss[k as int].interval_indices[u]] == gs[g])) by {
                                if g != h2 && exists|u: int| 0 <= u < t + 1 && rs[#[trigger] ss[k as int].interval_indices[u]] == gs[g] {
                                    let u = choose|u: int| 0 <= u < t + 1 && rs[#[trigger] ss[k as int].interval_indices[u]] == gs[g];
                                    if u == t {
                                        assert(gs[g] == gs[h2 as int]);
                                    }
                                }
                                if g == h2 && co@[g] && !before[g] {
                                    assert(rs[ss[k as int].interval_indices[t as int]] == gs[g]);
                                }
                            }
                        }
                        t = t + 1;
                    }
                }
                proof {
                    assert(here == in_sitting(ivs, ss[k as int], p));
                    assert forall|g: int| 0 <= g < ng implies (#[trigger] co@[g]) == (established(ivs, d, gs[g]) && gs[g] != page_root(ivs, d, p)
                        && exists|k2: int, t: int| 0 <= k2 < k + 1 && in_sitting(ivs, #[trigger] ss[k2], p) && 0 <= t < ss[k2].interval_indices.len()
                            && rs[#[trigger] ss[k2].interval_indices[t]] == gs[g]) by {
                        if exists|k2: int, t: int| 0 <= k2 < k + 1 && in_sitting(ivs, #[trigger] ss[k2], p) && 0 <= t < ss[k2].interval_indices.len()
                            && rs[#[trigger] ss[k2].interval_indices[t]] == gs[g] {
                            let (k2, t) = choose|k2: int, t: int| 0 <= k2 < k + 1 && in_sitting(ivs, #[trigger] ss[k2], p) && 0 <= t < ss[k2].interval_indices.len()
                                && rs[#[trigger] ss[k2].interval_indices[t]] == gs[g];
                            if k2 == k {
                                assert(rs[ss[k as int].interval_indices[t]] == gs[g]);
                            }
                        }
                    }
                }
                k = k + 1;
            }
            // Two different co-present established works quarantine the page.
            let mut first: Option<usize> = None;
            let mut two = false;
            let mut h: usize = 0;
            while h < ng
                invariant
                    h <= ng,
                    co@.len() == ng,
                    match first {
                        Some(f) => f < h && co@[f as int] && forall|g: int| 0 <= g < f ==> !(#[trigger] co@[g]),
                        None => forall|g: int| 0 <= g < h ==> !(#[trigger] co@[g]),
                    },
                    two == exists|g1: int, g2: int| 0 <= g1 < g2 < h && #[trigger] co@[g1] && #[trigger] co@[g2],
                decreases ng - h,
            {
                if co[h] {
                    match first {
                        Some(f) => {
                            assert(co@[f as int] && co@[h as int]);
                            two = true;
                        },
                        None => {
                            first = Some(h);
                        },
                    }
                }
                h = h + 1;
            }
            proof {
                let r = page_root(ivs, d, p);
                assert forall|g: Seq<char>| co_work(ivs, d, p, g) implies exists|h3: int| 0 <= h3 < ng && gs[h3] == g && co@[h3] by {
                    let (k2, t) = choose|k2: int, t: int| 0 <= k2 < ss.len() && in_sitting(ivs, #[trigger] ss[k2], p) && 0 <= t
                        < ss[k2].interval_indices.len() && rs[#[trigger] ss[k2].interval_indices[t]] == g;
                    let i = ss[k2].interval_indices[t];
                    assert(0 <= i < ivs.len());
                    let h3 = gi@[i] as int;
                    assert(gs[h3] == g);
                    assert(co@[h3]);
                }
                if two {
                    let (g1, g2) = choose|g1: int, g2: int| 0 <= g1 < g2 < ng && #[trigger] co@[g1] && #[trigger] co@[g2];
                    assert(gs[g1] != gs[g2]);
                    assert(co_work(ivs, d, p, gs[g1]));
                    assert(co_work(ivs, d, p, gs[g2]));
                } else {
                    if exists|g1: Seq<char>, g2: Seq<char>| g1 != g2 && co_work(ivs, d, p, g1) && co_work(ivs, d, p, g2) {
                        let (g1, g2) = choose|g1: Seq<char>, g2: Seq<char>| g1 != g2 && co_work(ivs, d, p, g1) && co_work(ivs, d, p, g2);
                        let h1 = choose|h3: int| 0 <= h3 < ng && gs[h3] == g1 && co@[h3];
                        let h2 = choose|h3: int| 0 <= h3 < ng && gs[h3] == g2 && co@[h3];
                        if h1 < h2 {
                            assert(co@[h1] && co@[h2]);
                        } else {
                            assert(co@[h2] && co@[h1]);
                        }
                    }
                }
            }
            verdict = two;
        }
        proof {
            reveal(quarantined);
            assert(typed == page_typed(ivs, p));
            assert(wg@[own as int] == work_group(ivs, d, page_root(ivs, d, p)));
        }
        let ghost before = out@;
        out.push(verdict);
        proof {
            assert forall|u: int| 0 <= u < q + 1 implies (#[trigger] out@[u]) == quarantined(ivs, d, kl[u]) by {
                if u < q {
                    assert(out@[u] == before[u]);
                }
            }
        }
        q = q + 1;
    }
    out
}

// ── Attachment inside sittings ─────────────────────────────────────────────

/// Switches with an established work's pages within this window (five
/// minutes) count towards interleaving.
pub const ATTACH_SWITCH_WINDOW_MS: u64 = 5 * 60 * 1000;

/// Switches needed for an input-carrying group to attach below the share
/// floor.
pub const ATTACH_SWITCHES: usize = 3;

/// Some interval of the sitting belongs to group `g`.
pub open spec fn present(rs: Seq<Seq<char>>, s: SittingModel, g: Seq<char>) -> bool {
    exists|t: int| 0 <= t < s.interval_indices.len() && rs[#[trigger] s.interval_indices[t]] == g
}

/// `g` is the sitting's dominant established work: most dwell among the
/// established groups present, ties to the least root.
pub open spec fn is_dominant(ivs: Seq<IntervalModel>, d: Seq<(Seq<char>, Seq<char>)>, s: SittingModel, g: Seq<char>) -> bool {
    let rs = interval_roots(ivs, d);
    &&& present(rs, s, g)
    &&& established(ivs, d, g)
    &&& forall|g2: Seq<char>|
        present(rs, s, g2) && established(ivs, d, g2) ==> group_dwell(ivs, rs, s.interval_indices, g2) < group_dwell(
            ivs,
            rs,
            s.interval_indices,
            g,
        ) || (group_dwell(ivs, rs, s.interval_indices, g2) == group_dwell(ivs, rs, s.interval_indices, g) && lex_le(g, g2))
}

/// The sitting's dominant established work, if any is present.
pub open spec fn dominant(ivs: Seq<IntervalModel>, d: Seq<(Seq<char>, Seq<char>)>, s: SittingModel) -> Option<Seq<char>> {
    if exists|g: Seq<char>| is_dominant(ivs, d, s, g) {
        Some(choose|g: Seq<char>| is_dominant(ivs, d, s, g))
    } else {
        None
    }
}

/// How many intervals of the sitting belong to an established group
/// other than interval `i`'s and start within five minutes of it.
pub open spec fn switch_count(ivs: Seq<IntervalModel>, d: Seq<(Seq<char>, Seq<char>)>, s: SittingModel, i: int) -> nat {
    let rs = interval_roots(ivs, d);
    s.interval_indices.filter(
        |u: int|
            established(ivs, d, rs[u]) && rs[u] != rs[i] && -(ATTACH_SWITCH_WINDOW_MS as int) <= ivs[u].start_ms
                - ivs[i].start_ms <= ATTACH_SWITCH_WINDOW_MS,
    ).len()
}

/// Some interval of group `g` in the sitting switches three or more times
/// with an established work's pages.
pub open spec fn interleaves(ivs: Seq<IntervalModel>, d: Seq<(Seq<char>, Seq<char>)>, s: SittingModel, g: Seq<char>) -> bool {
    exists|t: int|
        0 <= t < s.interval_indices.len() && interval_roots(ivs, d)[#[trigger] s.interval_indices[t]] == g && switch_count(
            ivs,
            d,
            s,
            s.interval_indices[t],
        ) >= ATTACH_SWITCHES
}

/// Some interval of group `g` in the sitting carried keystrokes.
pub open spec fn group_typed(ivs: Seq<IntervalModel>, d: Seq<(Seq<char>, Seq<char>)>, s: SittingModel, g: Seq<char>) -> bool {
    exists|t: int|
        0 <= t < s.interval_indices.len() && interval_roots(ivs, d)[#[trigger] s.interval_indices[t]] == g
            && ivs[s.interval_indices[t]].keys > 0
}

/// Group `g` attaches to the sitting's dominant work: the dominant work
/// holds at least 8% of the sitting, and `g`, present and not
/// established, holds 8% itself or carries input and interleaves.
#[verifier::opaque]
pub open spec fn attaches(ivs: Seq<IntervalModel>, d: Seq<(Seq<char>, Seq<char>)>, s: SittingModel, g: Seq<char>) -> bool {
    let rs = interval_roots(ivs, d);
    let total = s.total_dwell_ms;
    &&& total > 0
    &&& dominant(ivs, d, s) is Some
    &&& 25 * group_dwell(ivs, rs, s.interval_indices, dominant(ivs, d, s)->0) >= 2 * total
    &&& present(rs, s, g)
    &&& !established(ivs, d, g)
    &&& g != dominant(ivs, d, s)->0
    &&& (25 * group_dwell(ivs, rs, s.interval_indices, g) >= 2 * total || (group_typed(ivs, d, s, g) && interleaves(ivs, d, s, g)))
}

/// The groups are in code-point order of their roots.
proof fn lemma_groups_sorted(ivs: Seq<IntervalModel>, d: Seq<(Seq<char>, Seq<char>)>)
    ensures
        forall|i: int, j: int| 0 <= i <= j < groups(ivs, d).len() ==> lex_le(#[trigger] groups(ivs, d)[i], #[trigger] groups(ivs, d)[j]),
{
    let t = distinct(page_list(ivs).map_values(|p: Seq<char>| page_root(ivs, d, p)));
    lemma_lex_order_total();
    t.lemma_sort_by_ensures(lex_order());
    let gs = groups(ivs, d);
    assert forall|i: int, j: int| 0 <= i <= j < gs.len() implies lex_le(#[trigger] gs[i], #[trigger] gs[j]) by {
        if i == j {
            lemma_lex_irreflexive(gs[i]);
        } else {
            assert(lex_order()(gs[i], gs[j]));
        }
    }
}

/// What one sitting shows of each group: its dwell, its presence, whether
/// it typed, whether it interleaves; and the dominant established group.
struct SittingView {
    dwell: Vec<u64>,
    here: Vec<bool>,
    typed: Vec<bool>,
    inter: Vec<bool>,
    top: Option<usize>,
}

/// The switches of interval `i` within its sitting.
fn switches_of(
    intervals: &[WorkInterval],
    idx: &Vec<usize>,
    i: usize,
    gi: &Vec<usize>,
    est: &Vec<bool>,
    Ghost(gs): Ghost<Seq<Seq<char>>>,
    Ghost(d): Ghost<Seq<(Seq<char>, Seq<char>)>>,
    Ghost(s): Ghost<SittingModel>,
) -> (r: usize)
    requires
        group_of_intervals(interval_views(intervals@), d, gs, gi@),
        est@.len() == gs.len(),
        forall|g: int| 0 <= g < gs.len() ==> (#[trigger] est@[g]) == established(interval_views(intervals@), d, gs[g]),
        index_views(idx@) == s.interval_indices,
        forall|t: int| 0 <= t < idx@.len() ==> (#[trigger] idx@[t]) < intervals@.len(),
        i < intervals@.len(),
    ensures
        r == switch_count(interval_views(intervals@), d, s, i as int),
{
    let ghost ivs = interval_views(intervals@);
    let ghost rs = interval_roots(ivs, d);
    let ghost pred = |u: int|
        established(ivs, d, rs[u]) && rs[u] != rs[i as int] && -(ATTACH_SWITCH_WINDOW_MS as int) <= ivs[u].start_ms
            - ivs[i as int].start_ms <= ATTACH_SWITCH_WINDOW_MS;
    let ghost iv = s.interval_indices;
    let start = intervals[i].start_ms;
    let mut n: usize = 0;
    let mut t: usize = 0;
    assert(iv.take(0).filter(pred) =~= Seq::<int>::empty());
    while t < idx.len()
        invariant
            t <= idx@.len(),
            ivs == interval_views(intervals@),
            rs == interval_roots(ivs, d),
            iv == s.interval_indices,
            index_views(idx@) == iv,
            forall|u: int| 0 <= u < idx@.len() ==> (#[trigger] idx@[u]) < intervals@.len(),
            i < intervals@.len(),
            start == ivs[i as int].start_ms,
            group_of_intervals(ivs, d, gs, gi@),
            est@.len() == gs.len(),
            forall|g: int| 0 <= g < gs.len() ==> (#[trigger] est@[g]) == established(ivs, d, gs[g]),
            pred == (|u: int|
                established(ivs, d, rs[u]) && rs[u] != rs[i as int] && -(ATTACH_SWITCH_WINDOW_MS as int) <= ivs[u].start_ms
                    - ivs[i as int].start_ms <= ATTACH_SWITCH_WINDOW_MS),
            n == iv.take(t as int).filter(pred).len(),
            n <= t,
        decreases idx@.len() - t,
    {
        let u = idx[t];
        proof {
            assert(iv[t as int] == u as int);
            assert(iv.take(t + 1) =~= iv.take(t as int).push(u as int));
            iv.take(t as int).lemma_filter_push(u as int, pred);
            assert(ivs[u as int] == intervals@[u as int]@);
            assert(gs[gi@[u as int] as int] == rs[u as int]);
            assert(gs[gi@[i as int] as int] == rs[i as int]);
            if gi@[u as int] != gi@[i as int] {
                assert(gs[gi@[u as int] as int] != gs[gi@[i as int] as int]);
            }
        }
        let su = intervals[u].start_ms;
        let near = if su >= start {
            su - start <= ATTACH_SWITCH_WINDOW_MS
        } else {
            start - su <= ATTACH_SWITCH_WINDOW_MS
        };
        if est[gi[u]] && gi[u] != gi[i] && near {
            n = n + 1;
        }
        t = t + 1;
    }
    assert(iv.take(idx@.len() as int) =~= iv);
    n
}

/// What a sitting shows of each group.
fn view_sitting(
    intervals: &[WorkInterval],
    sit: &Sitting,
    gi: &Vec<usize>,
    est: &Vec<bool>,
    ng: usize,
    Ghost(gs): Ghost<Seq<Seq<char>>>,
    Ghost(d): Ghost<Seq<(Seq<char>, Seq<char>)>>,
) -> (r: SittingView)
    requires
        group_of_intervals(interval_views(intervals@), d, gs, gi@),
        ng == gs.len(),
        est@.len() == ng,
        forall|g: int| 0 <= g < ng ==> (#[trigger] est@[g]) == established(interval_views(intervals@), d, gs[g]),
        forall|t: int| 0 <= t < sit@.interval_indices.len() ==> 0 <= #[trigger] sit@.interval_indices[t] < intervals@.len(),
        sit@.total_dwell_ms == dwell_sum(interval_views(intervals@), sit@.interval_indices),
    ensures
        r.dwell@.len() == ng,
        r.here@.len() == ng,
        r.typed@.len() == ng,
        r.inter@.len() == ng,
        forall|g: int| 0 <= g < ng ==> (#[trigger] r.dwell@[g]) == group_dwell(
            interval_views(intervals@),
            interval_roots(interval_views(intervals@), d),
            sit@.interval_indices,
            gs[g],
        ),
        forall|g: int| 0 <= g < ng ==> (#[trigger] r.here@[g]) == present(interval_roots(interval_views(intervals@), d), sit@, gs[g]),
        forall|g: int| 0 <= g < ng ==> (#[trigger] r.typed@[g]) == group_typed(interval_views(intervals@), d, sit@, gs[g]),
        forall|g: int| 0 <= g < ng ==> (#[trigger] r.inter@[g]) == interleaves(interval_views(intervals@), d, sit@, gs[g]),
        match r.top {
            Some(h) => h < ng && dominant(interval_views(intervals@), d, sit@) == Some(gs[h as int]),
            None => dominant(interval_views(intervals@), d, sit@) is None,
        },
{
    let ghost ivs = interval_views(intervals@);
    let ghost rs = interval_roots(ivs, d);
    let ghost s = sit@;
    let ghost iv = s.interval_indices;
    let idx = &sit.interval_indices;
    assert(index_views(idx@) == iv);
    assert forall|t: int| 0 <= t < idx@.len() implies (#[trigger] idx@[t]) < intervals@.len() by {
        assert(iv[t] == idx@[t] as int);
    }
    let dwell = group_sums(intervals, idx, gi, ng, Ghost(gs), Ghost(rs));
    let mut here: Vec<bool> = Vec::new();
    let mut typed: Vec<bool> = Vec::new();
    let mut inter: Vec<bool> = Vec::new();
    let mut h: usize = 0;
    while h < ng
        invariant
            h <= ng,
            here@.len() == h,
            typed@.len() == h,
            inter@.len() == h,
            forall|g: int| 0 <= g < h ==> !(#[trigger] here@[g]),
            forall|g: int| 0 <= g < h ==> !(#[trigger] typed@[g]),
            forall|g: int| 0 <= g < h ==> !(#[trigger] inter@[g]),
        decreases ng - h,
    {
        here.push(false);
        typed.push(false);
        inter.push(false);
        h = h + 1;
    }
    let mut t: usize = 0;
    while t < idx.len()
        invariant
            t <= idx@.len(),
            ivs == interval_views(intervals@),
            rs == interval_roots(ivs, d),
            index_views(idx@) == iv,
            iv == s.interval_indices,
            forall|u: int| 0 <= u < idx@.len() ==> (#[trigger] idx@[u]) < intervals@.len(),
            group_of_intervals(ivs, d, gs, gi@),
            ng == gs.len(),
            est@.len() == ng,
            forall|g: int| 0 <= g < ng ==> (#[trigger] est@[g]) == established(ivs, d, gs[g]),
            here@.len() == ng,
            typed@.len() == ng,
            inter@.len() == ng,
            forall|g: int| 0 <= g < ng ==> (#[trigger] here@[g]) == exists|u: int| 0 <= u < t && rs[#[trigger] iv[u]] == gs[g],
            forall|g: int| 0 <= g < ng ==> (#[trigger] typed@[g]) == exists|u: int| 0 <= u < t && rs[#[trigger] iv[u]] == gs[g] && ivs[iv[u]].keys > 0,
            forall|g: int| 0 <= g < ng ==> (#[trigger] inter@[g]) == exists|u: int|
                0 <= u < t && rs[#[trigger] iv[u]] == gs[g] && switch_count(ivs, d, s, iv[u]) >= ATTACH_SWITCHES,
        decreases idx@.len() - t,
    {
        let i = idx[t];
        let g = gi[i];
        proof {
            assert(iv[t as int] == i as int);
            assert(gs[g as int] == rs[i as int]);
            assert(ivs[i as int] == intervals@[i as int]@);
        }
        let sw = switches_of(intervals, idx, i, gi, est, Ghost(gs), Ghost(d), Ghost(s));
        here.set(g, true);
        if intervals[i].keys > 0 {
            typed.set(g, true);
        }
        if sw >= ATTACH_SWITCHES {
            inter.set(g, true);
        }
        proof {
            assert forall|g2: int| 0 <= g2 < ng && g2 != g implies gs[g2] != rs[i as int] by {}
            assert forall|g2: int| 0 <= g2 < ng implies (#[trigger] here@[g2]) == exists|u: int| 0 <= u < t + 1 && rs[#[trigger] iv[u]] == gs[g2] by {
                if exists|u: int| 0 <= u < t + 1 && rs[#[trigger] iv[u]] == gs[g2] {
                    let u = choose|u: int| 0 <= u < t + 1 && rs[#[trigger] iv[u]] == gs[g2];
                }
            }
            assert forall|g2: int| 0 <= g2 < ng implies (#[trigger] typed@[g2]) == exists|u: int| 0 <= u < t + 1 && rs[#[trigger] iv[u]] == gs[g2] && ivs[iv[u]].keys > 0 by {
                if exists|u: int| 0 <= u < t + 1 && rs[#[trigger] iv[u]] == gs[g2] && ivs[iv[u]].keys > 0 {
                    let u = choose|u: int| 0 <= u < t + 1 && rs[#[trigger] iv[u]] == gs[g2] && ivs[iv[u]].keys > 0;
                }
            }
            assert forall|g2: int| 0 <= g2 < ng implies (#[trigger] inter@[g2]) == exists|u: int|
                0 <= u < t + 1 && rs[#[trigger] iv[u]] == gs[g2] && switch_count(ivs, d, s, iv[u]) >= ATTACH_SWITCHES by {
                if exists|u: int| 0 <= u < t + 1 && rs[#[trigger] iv[u]] == gs[g2] && switch_count(ivs, d, s, iv[u]) >= ATTACH_SWITCHES {
                    let u = choose|u: int| 0 <= u < t + 1 && rs[#[trigger] iv[u]] == gs[g2] && switch_count(ivs, d, s, iv[u]) >= ATTACH_SWITCHES;
                }
            }
        }
        t = t + 1;
    }
    // The dominant established group: most dwell, ties to the least root.
    let mut top: Option<usize> = None;
    let mut h: usize = 0;
    while h < ng
        invariant
            h <= ng,
            ng == gs.len(),
            here@.len() == ng,
            est@.len() == ng,
            dwell@.len() == ng,
            match top {
                Some(b) => b < h && here@[b as int] && est@[b as int] && forall|g: int|
                    0 <= g < h && #[trigger] here@[g] && est@[g] ==> dwell@[g] < dwell@[b as int] || (dwell@[g] == dwell@[b as int] && b <= g),
                None => forall|g: int| 0 <= g < h ==> !(#[trigger] here@[g] && est@[g]),
            },
        decreases ng - h,
    {
        if here[h] && est[h] {
            match top {
                Some(b) => {
                    if dwell[h] > dwell[b] {
                        top = Some(h);
                    }
                },
                None => {
                    top = Some(h);
                },
            }
        }
        h = h + 1;
    }
    proof {
        lemma_groups_sorted(ivs, d);
        assert forall|g2: Seq<char>| present(rs, s, g2) implies exists|h2: int| 0 <= h2 < ng && gs[h2] == g2 && #[trigger] here@[h2] by {
            let u = choose|u: int| 0 <= u < iv.len() && rs[#[trigger] iv[u]] == g2;
            let h2 = gi@[iv[u]] as int;
            assert(gs[h2] == g2);
            assert(here@[h2]);
        }
        match top {
            Some(b) => {
                let g = gs[b as int];
                assert(present(rs, s, g));
                assert forall|g2: Seq<char>| present(rs, s, g2) && established(ivs, d, g2) implies group_dwell(ivs, rs, iv, g2)
                    < group_dwell(ivs, rs, iv, g) || (group_dwell(ivs, rs, iv, g2) == group_dwell(ivs, rs, iv, g) && lex_le(g, g2)) by {
                    let h2 = choose|h2: int| 0 <= h2 < ng && gs[h2] == g2 && #[trigger] here@[h2];
                    assert(est@[h2]);
                    if dwell@[h2] == dwell@[b as int] {
                        assert(b <= h2);
                    }
                }
                assert(is_dominant(ivs, d, s, g));
                let c = choose|g: Seq<char>| is_dominant(ivs, d, s, g);
                assert(is_dominant(ivs, d, s, c));
                if c != g {
                    assert(lex_le(g, c));
                    assert(lex_le(c, g));
                    lemma_lex_antisymmetric(g, c);
                }
            },
            None => {
                if exists|g: Seq<char>| is_dominant(ivs, d, s, g) {
                    let g = choose|g: Seq<char>| is_dominant(ivs, d, s, g);
                    let h2 = choose|h2: int| 0 <= h2 < ng && gs[h2] == g && #[trigger] here@[h2];
                    assert(est@[h2]);
                }
            },
        }
    }
    SittingView { dwell, here, typed, inter, top }
}

/// Whether page `p` attaches to work `w`: the page is not ambient, its
/// group makes no work of its own, and in some sitting its group
/// attaches to that sitting's dominant work `w`.
#[verifier::opaque]
pub open spec fn attached(ivs: Seq<IntervalModel>, d: Seq<(Seq<char>, Seq<char>)>, p: Seq<char>, w: Seq<char>) -> bool {
    &&& !quarantined(ivs, d, p)
    &&& !work_group(ivs, d, page_root(ivs, d, p))
    &&& exists|k: int|
        0 <= k < sittings(ivs).len() && attaches(ivs, d, #[trigger] sittings(ivs)[k], page_root(ivs, d, p)) && dominant(
            ivs,
            d,
            sittings(ivs)[k],
        ) == Some(w)
}

/// `100·d/t` rounded to the nearest integer, halves to even.
pub open spec fn percent(dwell: int, total: int) -> int {
    let q = (100 * dwell) / total;
    let r = (100 * dwell) % total;
    if 2 * r > total || (2 * r == total && q % 2 == 1) {
        q + 1
    } else {
        q
    }
}

/// Why a group attached: `share N%` when it holds 8% of the sitting, else
/// `input interleave`.
pub open spec fn attach_reason(ivs: Seq<IntervalModel>, d: Seq<(Seq<char>, Seq<char>)>, s: SittingModel, g: Seq<char>) -> Seq<char> {
    let gd = group_dwell(ivs, interval_roots(ivs, d), s.interval_indices, g);
    if 25 * gd >= 2 * s.total_dwell_ms {
        seq!['s', 'h', 'a', 'r', 'e', ' '] + decimal(percent(gd, s.total_dwell_ms) as nat) + seq!['%']
    } else {
        seq!['i', 'n', 'p', 'u', 't', ' ', 'i', 'n', 't', 'e', 'r', 'l', 'e', 'a', 'v', 'e']
    }
}

/// `[attach reason] page -> work`
pub open spec fn attach_line(p: Seq<char>, w: Seq<char>, reason: Seq<char>) -> Seq<char> {
    seq!['[', 'a', 't', 't', 'a', 'c', 'h', ' '] + reason + seq![']', ' '] + p + seq![' ', '-', '>', ' '] + w
}

/// The pages of group `g` that attach in a sitting, as trace lines.
pub open spec fn group_lines(ivs: Seq<IntervalModel>, d: Seq<(Seq<char>, Seq<char>)>, s: SittingModel, g: Seq<char>) -> Seq<Seq<char>> {
    if attaches(ivs, d, s, g) && !work_group(ivs, d, g) {
        page_list(ivs).filter(|p: Seq<char>| page_root(ivs, d, p) == g && !quarantined(ivs, d, p)).map_values(
            |p: Seq<char>| attach_line(p, dominant(ivs, d, s)->0, attach_reason(ivs, d, s, g)),
        )
    } else {
        Seq::empty()
    }
}

/// The attachment lines of a sitting, groups in code-point order.
pub open spec fn sitting_lines(ivs: Seq<IntervalModel>, d: Seq<(Seq<char>, Seq<char>)>, s: SittingModel) -> Seq<Seq<char>> {
    groups(ivs, d).map_values(|g: Seq<char>| group_lines(ivs, d, s, g)).flatten()
}

/// The attachment trace: every sitting's lines, sittings in order.
pub open spec fn attach_trace(ivs: Seq<IntervalModel>, d: Seq<(Seq<char>, Seq<char>)>) -> Seq<Seq<char>> {
    sittings(ivs).map_values(|s: SittingModel| sitting_lines(ivs, d, s)).flatten()
}

fn attach_line_of(p: &str, w: &str, reason: &str) -> (r: String)
    ensures
        r@ == attach_line(p@, w@, reason@),
{
    proof {
        reveal_strlit("[attach ");
        reveal_strlit("] ");
        reveal_strlit(" -> ");
    }
    let a = crate::text::concat3("[attach ", reason, "] ");
    let b = crate::text::concat3(a.as_str(), p, " -> ");
    let r = concat2(b.as_str(), w);
    assert(r@ =~= attach_line(p@, w@, reason@));
    r
}

fn attach_reason_of(dwell: u64, total: u64) -> (r: String)
    requires
        0 < total,
        dwell <= total,
    ensures
        r@ == (if 25 * dwell >= 2 * total {
            seq!['s', 'h', 'a', 'r', 'e', ' '] + decimal(percent(dwell as int, total as int) as nat) + seq!['%']
        } else {
            seq!['i', 'n', 'p', 'u', 't', ' ', 'i', 'n', 't', 'e', 'r', 'l', 'e', 'a', 'v', 'e']
        }),
{
    proof {
        reveal_strlit("share ");
        reveal_strlit("%");
        reveal_strlit("input interleave");
    }
    if 25 * (dwell as u128) >= 2 * (total as u128) {
        let num: u128 = 100 * (dwell as u128);
        let tot: u128 = total as u128;
        let q = num / tot;
        let rem = num % tot;
        assert(q <= 100) by (nonlinear_arith)
            requires
                q == num / tot,
                num == 100 * dwell,
                tot == total,
                dwell <= total,
                0 < total,
        ;
        let pct = if 2 * rem > tot || (2 * rem == tot && q % 2 == 1) {
            q + 1
        } else {
            q
        };
        let n = fmt_u64(pct as u64);
        let r = crate::text::concat3("share ", n.as_str(), "%");
        assert(r@ =~= seq!['s', 'h', 'a', 'r', 'e', ' '] + decimal(percent(dwell as int, total as int) as nat) + seq!['%']);
        r
    } else {
        let r = crate::text::to_owned_string("input interleave");
        assert(r@ =~= seq!['i', 'n', 'p', 'u', 't', ' ', 'i', 'n', 't', 'e', 'r', 'l', 'e', 'a', 'v', 'e']);
        r
    }
}

/// Page `q` attaches to group `w` through one of the first `k` sittings.
pub open spec fn attached_by(ivs: Seq<IntervalModel>, d: Seq<(Seq<char>, Seq<char>)>, p: Seq<char>, w: Seq<char>, k: int) -> bool {
    &&& !quarantined(ivs, d, p)
    &&& !work_group(ivs, d, page_root(ivs, d, p))
    &&& exists|k2: int|
        0 <= k2 < k && attaches(ivs, d, #[trigger] sittings(ivs)[k2], page_root(ivs, d, p)) && dominant(ivs, d, sittings(ivs)[k2])
            == Some(w)
}

/// The pair list holds `(q, w)`.
pub open spec fn has_pair(v: Seq<(usize, usize)>, q: usize, w: usize) -> bool {
    exists|e: int| 0 <= e < v.len() && #[trigger] v[e] == (q, w)
}

/// The shared facts of the grouping stages.
pub open spec fn grouping_frame(
    ivs: Seq<IntervalModel>,
    d: Seq<(Seq<char>, Seq<char>)>,
    pages: Seq<Seq<char>>,
    gs: Seq<Seq<char>>,
    gp: Seq<usize>,
    gi: Seq<usize>,
    est: Seq<bool>,
    wg: Seq<bool>,
    quar: Seq<bool>,
) -> bool {
    &&& pages == page_list(ivs)
    &&& pages.no_duplicates()
    &&& group_of_intervals(ivs, d, gs, gi)
    &&& group_of_pages(ivs, d, gs, gp)
    &&& est.len() == gs.len()
    &&& wg.len() == gs.len()
    &&& quar.len() == pages.len()
    &&& forall|g: int| 0 <= g < gs.len() ==> (#[trigger] est[g]) == established(ivs, d, gs[g])
    &&& forall|g: int| 0 <= g < gs.len() ==> (#[trigger] wg[g]) == work_group(ivs, d, gs[g])
    &&& forall|q: int| 0 <= q < pages.len() ==> (#[trigger] quar[q]) == quarantined(ivs, d, pages[q])
}

/// Attaches the pages of group `h` to work `b`: one pair and one trace
/// line for each page of the group that is not ambient.
fn attach_pages(
    pages: &Vec<String>,
    group_texts: &Vec<String>,
    gp: &Vec<usize>,
    quar: &Vec<bool>,
    h: usize,
    b: usize,
    reason: &String,
    lines: &mut Vec<String>,
    pairs: &mut Vec<(usize, usize)>,
    Ghost(pred): Ghost<spec_fn(Seq<char>) -> bool>,
    Ghost(mk): Ghost<spec_fn(Seq<char>) -> Seq<char>>,
)
    requires
        gp@.len() == pages@.len(),
        quar@.len() == pages@.len(),
        b < group_texts@.len(),
        forall|q: int| 0 <= q < pages@.len() ==> ((gp@[q] == h && !quar@[q]) == #[trigger] pred(views(pages@)[q])),
        forall|p: Seq<char>| #[trigger] mk(p) == attach_line(p, group_texts@[b as int]@, reason@),
    ensures
        views(final(lines)@) == views(old(lines)@) + views(pages@).filter(pred).map_values(mk),
        forall|q: usize, w: usize| #[trigger] has_pair(final(pairs)@, q, w) == (has_pair(old(pairs)@, q, w) || (q < pages@.len() && gp@[q as int] == h
            && !quar@[q as int] && w == b)),
        forall|e: int| 0 <= e < old(pairs)@.len() ==> #[trigger] final(pairs)@[e] == old(pairs)@[e],
        forall|e: int| old(pairs)@.len() <= e < final(pairs)@.len() ==> (#[trigger] final(pairs)@[e]).0 < pages@.len()
            && final(pairs)@[e].1 == b,
        old(pairs)@.len() <= final(pairs)@.len(),
{
    let ghost kl = views(pages@);
    let ghost l0 = views(lines@);
    let ghost p0 = pairs@;
    assert(kl.take(0).filter(pred).map_values(mk) =~= Seq::<Seq<char>>::empty());
    let mut q: usize = 0;
    while q < pages.len()
        invariant
            q <= pages@.len(),
            kl == views(pages@),
            gp@.len() == pages@.len(),
            quar@.len() == pages@.len(),
            b < group_texts@.len(),
            forall|q2: int| 0 <= q2 < pages@.len() ==> ((gp@[q2] == h && !quar@[q2]) == #[trigger] pred(kl[q2])),
            forall|p: Seq<char>| #[trigger] mk(p) == attach_line(p, group_texts@[b as int]@, reason@),
            views(lines@) == l0 + kl.take(q as int).filter(pred).map_values(mk),
            forall|q2: usize, w: usize| #[trigger] has_pair(pairs@, q2, w) == (has_pair(p0, q2, w) || (q2 < q && gp@[q2 as int] == h && !quar@[q2 as int] && w == b)),
            forall|e: int| 0 <= e < p0.len() ==> #[trigger] pairs@[e] == p0[e],
            forall|e: int| p0.len() <= e < pairs@.len() ==> (#[trigger] pairs@[e]).0 < pages@.len() && pairs@[e].1 == b,
            p0.len() <= pairs@.len(),
        decreases pages@.len() - q,
    {
        proof {
            assert(kl.take(q + 1) =~= kl.take(q as int).push(kl[q as int]));
            kl.take(q as int).lemma_filter_push(kl[q as int], pred);
            assert((gp@[q as int] == h && !quar@[q as int]) == pred(kl[q as int]));
        }
        let ghost pl = pairs@;
        if gp[q] == h && !quar[q] {
            let line = attach_line_of(pages[q].as_str(), group_texts[b].as_str(), reason.as_str());
            let ghost lb = views(lines@);
            lines.push(line);
            pairs.push((q, b));
            proof {
                assert(views(lines@) =~= lb.push(mk(kl[q as int])));
                let f = kl.take(q as int).filter(pred);
                assert(f.push(kl[q as int]).map_values(mk) =~= f.map_values(mk).push(mk(kl[q as int])));
                assert forall|q2: usize, w: usize| #[trigger] has_pair(pairs@, q2, w) == (has_pair(pl, q2, w) || (q2 == q && w == b)) by {
                    if has_pair(pairs@, q2, w) {
                        let e = choose|e: int| 0 <= e < pairs@.len() && #[trigger] pairs@[e] == (q2, w);
                        if e < pl.len() {
                            assert(pl[e] == pairs@[e]);
                        }
                    }
                    if has_pair(pl, q2, w) {
                        let e = choose|e: int| 0 <= e < pl.len() && #[trigger] pl[e] == (q2, w);
                        assert(pairs@[e] == pl[e]);
                    }
                    if q2 == q && w == b {
                        assert(pairs@[pl.len() as int] == (q2, w));
                    }
                }
                assert forall|e: int| 0 <= e < p0.len() implies #[trigger] pairs@[e] == p0[e] by {
                    assert(pairs@[e] == pl[e]);
                }
            }
        } else {
            proof {
                assert(!(gp@[q as int] == h && !quar@[q as int]));
            }
        }
        q = q + 1;
    }
    assert(kl.take(pages@.len() as int) =~= kl);
}

/// The attachments made in one sitting, appended to the pairs and the
/// trace.
#[verifier::rlimit(40)]
fn attach_sitting(
    intervals: &[WorkInterval],
    sit: &Sitting,
    pages: &Vec<String>,
    group_texts: &Vec<String>,
    gp: &Vec<usize>,
    gi: &Vec<usize>,
    est: &Vec<bool>,
    wg: &Vec<bool>,
    quar: &Vec<bool>,
    lines: &mut Vec<String>,
    pairs: &mut Vec<(usize, usize)>,
    Ghost(d): Ghost<Seq<(Seq<char>, Seq<char>)>>,
)
    requires
        grouping_frame(interval_views(intervals@), d, views(pages@), views(group_texts@), gp@, gi@, est@, wg@, quar@),
        sit@.total_dwell_ms == dwell_sum(interval_views(intervals@), sit@.interval_indices),
        forall|t: int| 0 <= t < sit@.interval_indices.len() ==> 0 <= #[trigger] sit@.interval_indices[t] < intervals@.len(),
        forall|e: int| 0 <= e < old(pairs)@.len() ==> (#[trigger] old(pairs)@[e]).0 < pages@.len() && old(pairs)@[e].1 < group_texts@.len(),
    ensures
        views(final(lines)@) == views(old(lines)@) + sitting_lines(interval_views(intervals@), d, sit@),
        forall|e: int| 0 <= e < final(pairs)@.len() ==> (#[trigger] final(pairs)@[e]).0 < pages@.len() && final(pairs)@[e].1 < group_texts@.len(),
        forall|q: usize, w: usize| q < pages@.len() && w < group_texts@.len() ==> #[trigger] has_pair(final(pairs)@, q, w) == (has_pair(old(pairs)@, q, w) || (
            !quarantined(interval_views(intervals@), d, pages@[q as int]@)
            && !work_group(interval_views(intervals@), d, page_root(interval_views(intervals@), d, pages@[q as int]@))
            && attaches(interval_views(intervals@), d, sit@, page_root(interval_views(intervals@), d, pages@[q as int]@))
            && dominant(interval_views(intervals@), d, sit@) == Some(group_texts@[w as int]@))),
{
    let ghost ivs = interval_views(intervals@);
    let ghost rs = interval_roots(ivs, d);
    let ghost kl = views(pages@);
    let ghost gs = views(group_texts@);
    let ghost s = sit@;
    let ng = group_texts.len();
    let v = view_sitting(intervals, sit, gi, est, ng, Ghost(gs), Ghost(d));
    let total = sit.total_dwell_ms;
    let (active, b) = match v.top {
        Some(b) => (total > 0 && 25 * (v.dwell[b] as u128) >= 2 * (total as u128), b),
        None => (false, 0),
    };
    let ghost gl = gs.map_values(|g: Seq<char>| group_lines(ivs, d, s, g));
    let ghost base = views(lines@);
    let ghost pairs0 = pairs@;
    assert(gl.take(0).flatten() =~= Seq::<Seq<char>>::empty());
    let mut h: usize = 0;
    while h < ng
        invariant
            h <= ng,
            s == sit@,
            ivs == interval_views(intervals@),
            rs == interval_roots(ivs, d),
            kl == views(pages@),
            gs == views(group_texts@),
            ng == gs.len(),
            grouping_frame(ivs, d, kl, gs, gp@, gi@, est@, wg@, quar@),
            s.total_dwell_ms == dwell_sum(ivs, s.interval_indices),
            forall|t: int| 0 <= t < s.interval_indices.len() ==> 0 <= #[trigger] s.interval_indices[t] < ivs.len(),
            total == s.total_dwell_ms,
            v.dwell@.len() == ng,
            v.here@.len() == ng,
            v.typed@.len() == ng,
            v.inter@.len() == ng,
            forall|g: int| 0 <= g < ng ==> (#[trigger] v.dwell@[g]) == group_dwell(ivs, rs, s.interval_indices, gs[g]),
            forall|g: int| 0 <= g < ng ==> (#[trigger] v.here@[g]) == present(rs, s, gs[g]),
            forall|g: int| 0 <= g < ng ==> (#[trigger] v.typed@[g]) == group_typed(ivs, d, s, gs[g]),
            forall|g: int| 0 <= g < ng ==> (#[trigger] v.inter@[g]) == interleaves(ivs, d, s, gs[g]),
            match v.top {
                Some(t) => t < ng && dominant(ivs, d, s) == Some(gs[t as int]),
                None => dominant(ivs, d, s) is None,
            },
            active ==> v.top == Some(b) && total > 0 && 25 * group_dwell(ivs, rs, s.interval_indices, gs[b as int]) >= 2 * total,
            !active ==> !(total > 0 && dominant(ivs, d, s) is Some && 25 * group_dwell(ivs, rs, s.interval_indices, dominant(ivs, d, s)->0) >= 2 * total),
            gl == gs.map_values(|g: Seq<char>| group_lines(ivs, d, s, g)),
            views(lines@) == base + gl.take(h as int).flatten(),
            forall|e: int| 0 <= e < pairs@.len() ==> (#[trigger] pairs@[e]).0 < kl.len() && pairs@[e].1 < ng,
            forall|q: usize, w: usize| q < kl.len() && w < ng ==> #[trigger] has_pair(pairs@, q, w) == (has_pair(pairs0, q, w) || (
                gp@[q as int] < h && !quarantined(ivs, d, kl[q as int]) && !work_group(ivs, d, gs[gp@[q as int] as int])
                    && attaches(ivs, d, s, gs[gp@[q as int] as int]) && dominant(ivs, d, s) == Some(gs[w as int]))),
        decreases ng - h,
    {
        let here_h = active && v.here[h] && !est[h] && h != b && (25 * (v.dwell[h] as u128) >= 2 * (total as u128) || (v.typed[h] && v.inter[h]));
        proof {
            reveal(attaches);
            let g = gs[h as int];
            if active {
                assert(dominant(ivs, d, s) == Some(gs[b as int]));
                if h != b {
                    assert(gs[h as int] != gs[b as int]);
                }
            }
            assert(here_h == attaches(ivs, d, s, g));
        }
        let ghost before_pairs = pairs@;
        if here_h && !wg[h] {
            proof {
                assert forall|i: int| 0 <= i < ivs.len() implies (#[trigger] ivs[i]).total_dwell_ms >= 0 by {
                    assert(ivs[i] == intervals@[i]@);
                }
                lemma_group_dwell_bound(ivs, rs, s.interval_indices, gs[h as int]);
            }
            let reason = attach_reason_of(v.dwell[h], total);
            proof {
                assert(reason@ == attach_reason(ivs, d, s, gs[h as int]));
            }
            let ghost pred = |p: Seq<char>| page_root(ivs, d, p) == gs[h as int] && !quarantined(ivs, d, p);
            let ghost mk = |p: Seq<char>| attach_line(p, gs[b as int], reason@);
            proof {
                assert forall|q: int| 0 <= q < kl.len() implies ((gp@[q] == h && !quar@[q]) == #[trigger] pred(kl[q])) by {
                    assert(gs[gp@[q] as int] == page_root(ivs, d, kl[q]));
                    if gp@[q] != h {
                        assert(gs[gp@[q] as int] != gs[h as int]);
                    }
                    assert(quar@[q] == quarantined(ivs, d, kl[q]));
                }
            }
            attach_pages(pages, group_texts, gp, quar, h, b, &reason, lines, pairs, Ghost(pred), Ghost(mk));
            proof {
                assert(gl[h as int] == kl.filter(pred).map_values(mk));
                assert(attaches(ivs, d, s, gs[h as int]));
                assert(!work_group(ivs, d, gs[h as int]));
                assert(dominant(ivs, d, s) == Some(gs[b as int]));
                assert forall|q: usize, w: usize| q < kl.len() && w < ng implies #[trigger] has_pair(pairs@, q, w) == (has_pair(pairs0, q, w) || (
                    gp@[q as int] < h + 1 && !quarantined(ivs, d, kl[q as int]) && !work_group(ivs, d, gs[gp@[q as int] as int])
                        && attaches(ivs, d, s, gs[gp@[q as int] as int]) && dominant(ivs, d, s) == Some(gs[w as int]))) by {
                    assert(quar@[q as int] == quarantined(ivs, d, kl[q as int]));
                    if gp@[q as int] == h && dominant(ivs, d, s) == Some(gs[w as int]) {
                        assert(gs[w as int] == gs[b as int]);
                        assert(w == b);
                    }
                }
            }
        } else {
            proof {
                assert(gl[h as int] =~= Seq::<Seq<char>>::empty()) by {
                    if here_h {
                        assert(wg@[h as int]);
                    }
                }
                assert forall|q: usize, w: usize| q < kl.len() && w < ng implies #[trigger] has_pair(pairs@, q, w) == (has_pair(pairs0, q, w) || (
                    gp@[q as int] < h + 1 && !quarantined(ivs, d, kl[q as int]) && !work_group(ivs, d, gs[gp@[q as int] as int])
                        && attaches(ivs, d, s, gs[gp@[q as int] as int]) && dominant(ivs, d, s) == Some(gs[w as int]))) by {
                    if gp@[q as int] == h {
                        assert(wg@[h as int] == work_group(ivs, d, gs[h as int]));
                    }
                }
            }
        }
        proof {
            assert(gl.take(h + 1) =~= gl.take(h as int).push(gl[h as int]));
            gl.take(h as int).lemma_flatten_push(gl[h as int]);
        }
        h = h + 1;
    }
    proof {
        assert(gl.take(ng as int) =~= gl);
        assert forall|q: usize, w: usize| q < kl.len() && w < ng implies #[trigger] has_pair(pairs@, q, w) == (has_pair(pairs0, q, w) || (
            !quarantined(ivs, d, kl[q as int]) && !work_group(ivs, d, page_root(ivs, d, kl[q as int]))
            && attaches(ivs, d, s, page_root(ivs, d, kl[q as int])) && dominant(ivs, d, s) == Some(gs[w as int]))) by {
            assert(gs[gp@[q as int] as int] == page_root(ivs, d, kl[q as int]));
        }
    }
}

/// The attachments of the pages to works, as `(page, work group)` pairs,
/// and the attachment trace.
#[verifier::rlimit(40)]
fn attach_phase(
    intervals: &[WorkInterval],
    sits: &Vec<Sitting>,
    pages: &Vec<String>,
    group_texts: &Vec<String>,
    gp: &Vec<usize>,
    gi: &Vec<usize>,
    est: &Vec<bool>,
    wg: &Vec<bool>,
    quar: &Vec<bool>,
    Ghost(d): Ghost<Seq<(Seq<char>, Seq<char>)>>,
) -> (r: (Vec<(usize, usize)>, Vec<String>))
    requires
        sitting_views(sits@) == sittings(interval_views(intervals@)),
        grouping_frame(interval_views(intervals@), d, views(pages@), views(group_texts@), gp@, gi@, est@, wg@, quar@),
    ensures
        forall|q: usize, w: usize| q < pages@.len() && w < group_texts@.len() ==> #[trigger] has_pair(r.0@, q, w) == attached(
            interval_views(intervals@),
            d,
            pages@[q as int]@,
            group_texts@[w as int]@,
        ),
        forall|e: int| 0 <= e < r.0@.len() ==> (#[trigger] r.0@[e]).0 < pages@.len() && r.0@[e].1 < group_texts@.len(),
        views(r.1@) == attach_trace(interval_views(intervals@), d),
{
    let ghost ivs = interval_views(intervals@);
    let ghost ss = sittings(ivs);
    let ghost kl = views(pages@);
    let ghost gs = views(group_texts@);
    proof {
        lemma_sittings_facts(ivs);
    }
    let mut pairs: Vec<(usize, usize)> = Vec::new();
    let mut lines: Vec<String> = Vec::new();
    let ghost sl = ss.map_values(|s: SittingModel| sitting_lines(ivs, d, s));
    assert(sl.take(0).flatten() =~= Seq::<Seq<char>>::empty());
    let mut k: usize = 0;
    while k < sits.len()
        invariant
            k <= sits@.len(),
            ivs == interval_views(intervals@),
            ss == sittings(ivs),
            sitting_views(sits@) == ss,
            kl == views(pages@),
            gs == views(group_texts@),
            grouping_frame(ivs, d, kl, gs, gp@, gi@, est@, wg@, quar@),
            forall|q: int| 0 <= q < ss.len() ==> (#[trigger] ss[q]).total_dwell_ms == dwell_sum(ivs, ss[q].interval_indices),
            forall|q: int, t: int|
                0 <= q < ss.len() && 0 <= t < ss[q].interval_indices.len() ==> 0 <= #[trigger] ss[q].interval_indices[t] < ivs.len(),
            sl == ss.map_values(|s: SittingModel| sitting_lines(ivs, d, s)),
            views(lines@) == sl.take(k as int).flatten(),
            forall|e: int| 0 <= e < pairs@.len() ==> (#[trigger] pairs@[e]).0 < kl.len() && pairs@[e].1 < gs.len(),
            forall|q: usize, w: usize| q < kl.len() && w < gs.len() ==> #[trigger] has_pair(pairs@, q, w) == attached_by(ivs, d, kl[q as int], gs[w as int], k as int),
        decreases sits@.len() - k,
    {
        let ghost p0 = pairs@;
        proof {
            assert(ss[k as int] == sits@[k as int]@);
        }
        attach_sitting(intervals, &sits[k], pages, group_texts, gp, gi, est, wg, quar, &mut lines, &mut pairs, Ghost(d));
        proof {
            assert(sl.take(k + 1) =~= sl.take(k as int).push(sl[k as int]));
            sl.take(k as int).lemma_flatten_push(sl[k as int]);
            assert forall|q: usize, w: usize| q < kl.len() && w < gs.len() implies #[trigger] has_pair(pairs@, q, w) == attached_by(ivs, d, kl[q as int], gs[w as int], k + 1) by {
                let r = page_root(ivs, d, kl[q as int]);
                if exists|k2: int| 0 <= k2 < k + 1 && attaches(ivs, d, #[trigger] ss[k2], r) && dominant(ivs, d, ss[k2]) == Some(gs[w as int]) {
                    let k2 = choose|k2: int| 0 <= k2 < k + 1 && attaches(ivs, d, #[trigger] ss[k2], r) && dominant(ivs, d, ss[k2]) == Some(gs[w as int]);
                }
            }
        }
        k = k + 1;
    }
    proof {
        assert(sl.take(sits@.len() as int) =~= sl);
        reveal(attached);
    }
    (pairs, lines)
}

// ── Merge proposals ────────────────────────────────────────────────────────

/// The groups that make works, in code-point order of their roots.
pub open spec fn work_roots(ivs: Seq<IntervalModel>, d: Seq<(Seq<char>, Seq<char>)>) -> Seq<Seq<char>> {
    groups(ivs, d).filter(|g: Seq<char>| work_group(ivs, d, g))
}

/// An established work holds at least 8% of a sitting.
pub open spec fn co_present(ivs: Seq<IntervalModel>, d: Seq<(Seq<char>, Seq<char>)>, s: SittingModel, g: Seq<char>) -> bool {
    let rs = interval_roots(ivs, d);
    &&& s.total_dwell_ms > 0
    &&& present(rs, s, g)
    &&& established(ivs, d, g)
    &&& 25 * group_dwell(ivs, rs, s.interval_indices, g) >= 2 * s.total_dwell_ms
}

/// The sittings in which both works hold at least 8%.
pub open spec fn shared_sittings(ivs: Seq<IntervalModel>, d: Seq<(Seq<char>, Seq<char>)>, a: Seq<char>, b: Seq<char>) -> nat {
    sittings(ivs).filter(|s: SittingModel| co_present(ivs, d, s, a) && co_present(ivs, d, s, b)).len()
}

/// The proposals pairing work `i` with the works after it, up to `m`.
pub open spec fn proposal_row(ivs: Seq<IntervalModel>, d: Seq<(Seq<char>, Seq<char>)>, ws: Seq<Seq<char>>, i: int, m: int) -> Seq<MergeProposal>
    decreases m - i,
{
    if m <= i + 1 {
        Seq::empty()
    } else {
        let prev = proposal_row(ivs, d, ws, i, m - 1);
        let c = shared_sittings(ivs, d, ws[i], ws[m - 1]);
        if c >= PROPOSAL_SITTINGS {
            prev.push(MergeProposal { work_a: i as usize, work_b: (m - 1) as usize, shared_sittings: c as usize })
        } else {
            prev
        }
    }
}

/// The proposals of the first `k` works with the works after each.
pub open spec fn proposals_upto(ivs: Seq<IntervalModel>, d: Seq<(Seq<char>, Seq<char>)>, ws: Seq<Seq<char>>, k: int) -> Seq<MergeProposal>
    decreases k,
{
    if k <= 0 {
        Seq::empty()
    } else {
        proposals_upto(ivs, d, ws, k - 1) + proposal_row(ivs, d, ws, k - 1, ws.len() as int)
    }
}

/// The merge proposals: every pair of works, in order, co-present in two
/// or more sittings, as positions among the work roots.
pub open spec fn merge_proposals(ivs: Seq<IntervalModel>, d: Seq<(Seq<char>, Seq<char>)>) -> Seq<MergeProposal> {
    proposals_upto(ivs, d, work_roots(ivs, d), work_roots(ivs, d).len() as int)
}

/// For each sitting, which groups are co-present in it.
fn co_presence(
    intervals: &[WorkInterval],
    sits: &Vec<Sitting>,
    gi: &Vec<usize>,
    est: &Vec<bool>,
    ng: usize,
    Ghost(gs): Ghost<Seq<Seq<char>>>,
    Ghost(d): Ghost<Seq<(Seq<char>, Seq<char>)>>,
) -> (r: Vec<Vec<bool>>)
    requires
        sitting_views(sits@) == sittings(interval_views(intervals@)),
        group_of_intervals(interval_views(intervals@), d, gs, gi@),
        ng == gs.len(),
        est@.len() == ng,
        forall|g: int| 0 <= g < ng ==> (#[trigger] est@[g]) == established(interval_views(intervals@), d, gs[g]),
    ensures
        r@.len() == sits@.len(),
        forall|k: int| 0 <= k < sits@.len() ==> (#[trigger] r@[k])@.len() == ng,
        forall|k: int, g: int| 0 <= k < sits@.len() && 0 <= g < ng ==> (#[trigger] r@[k]@[g]) == co_present(
            interval_views(intervals@),
            d,
            sittings(interval_views(intervals@))[k],
            gs[g],
        ),
{
    let ghost ivs = interval_views(intervals@);
    let ghost rs = interval_roots(ivs, d);
    let ghost ss = sittings(ivs);
    proof {
        lemma_sittings_facts(ivs);
    }
    let mut out: Vec<Vec<bool>> = Vec::new();
    let mut k: usize = 0;
    while k < sits.len()
        invariant
            k <= sits@.len(),
            ivs == interval_views(intervals@),
            rs == interval_roots(ivs, d),
            ss == sittings(ivs),
            sitting_views(sits@) == ss,
            group_of_intervals(ivs, d, gs, gi@),
            ng == gs.len(),
            est@.len() == ng,
            forall|g: int| 0 <= g < ng ==> (#[trigger] est@[g]) == established(ivs, d, gs[g]),
            forall|q: int| 0 <= q < ss.len() ==> (#[trigger] ss[q]).total_dwell_ms == dwell_sum(ivs, ss[q].interval_indices),
            forall|q: int, t: int|
                0 <= q < ss.len() && 0 <= t < ss[q].interval_indices.len() ==> 0 <= #[trigger] ss[q].interval_indices[t] < ivs.len(),
            out@.len() == k,
            forall|k2: int| 0 <= k2 < k ==> (#[trigger] out@[k2])@.len() == ng,
            forall|k2: int, g: int| 0 <= k2 < k && 0 <= g < ng ==> (#[trigger] out@[k2]@[g]) == co_present(ivs, d, ss[k2], gs[g]),
        decreases sits@.len() - k,
    {
        let sit = &sits[k];
        assert(ss[k as int] == sit@);
        let v = view_sitting(intervals, sit, gi, est, ng, Ghost(gs), Ghost(d));
        let total = sit.total_dwell_ms;
        let mut row: Vec<bool> = Vec::new();
        let mut h: usize = 0;
        while h < ng
            invariant
                h <= ng,
                ng == gs.len(),
                ivs == interval_views(intervals@),
                rs == interval_roots(ivs, d),
                total == sit@.total_dwell_ms,
                est@.len() == ng,
                v.dwell@.len() == ng,
                v.here@.len() == ng,
                forall|g: int| 0 <= g < ng ==> (#[trigger] est@[g]) == established(ivs, d, gs[g]),
                forall|g: int| 0 <= g < ng ==> (#[trigger] v.dwell@[g]) == group_dwell(ivs, rs, sit@.interval_indices, gs[g]),
                forall|g: int| 0 <= g < ng ==> (#[trigger] v.here@[g]) == present(rs, sit@, gs[g]),
                row@.len() == h,
                forall|g: int| 0 <= g < h ==> (#[trigger] row@[g]) == co_present(ivs, d, sit@, gs[g]),
            decreases ng - h,
        {
            let c = total > 0 && v.here[h] && est[h] && 25 * (v.dwell[h] as u128) >= 2 * (total as u128);
            proof {
                assert(c == co_present(ivs, d, sit@, gs[h as int]));
            }
            let ghost before = row@;
            row.push(c);
            proof {
                assert forall|g: int| 0 <= g < h + 1 implies (#[trigger] row@[g]) == co_present(ivs, d, sit@, gs[g]) by {
                    if g < h {
                        assert(row@[g] == before[g]);
                    }
                }
            }
            h = h + 1;
        }
        let ghost before = out@;
        out.push(row);
        proof {
            assert forall|k2: int, g: int| 0 <= k2 < k + 1 && 0 <= g < ng implies (#[trigger] out@[k2]@[g]) == co_present(ivs, d, ss[k2], gs[g]) by {
                if k2 < k {
                    assert(out@[k2] == before[k2]);
                }
            }
            assert forall|k2: int| 0 <= k2 < k + 1 implies (#[trigger] out@[k2])@.len() == ng by {
                if k2 < k {
                    assert(out@[k2] == before[k2]);
                }
            }
        }
        k = k + 1;
    }
    out
}

/// The positions of the groups that make works, in order.
fn work_list(wg: &Vec<bool>, Ghost(gs): Ghost<Seq<Seq<char>>>, Ghost(ivs): Ghost<Seq<IntervalModel>>, Ghost(d): Ghost<Seq<(Seq<char>, Seq<char>)>>) -> (r: Vec<usize>)
    requires
        wg@.len() == gs.len(),
        forall|g: int| 0 <= g < gs.len() ==> (#[trigger] wg@[g]) == work_group(ivs, d, gs[g]),
    ensures
        r@.map_values(|h: usize| gs[h as int]) == gs.filter(|g: Seq<char>| work_group(ivs, d, g)),
        forall|x: int| 0 <= x < r@.len() ==> (#[trigger] r@[x]) < gs.len(),
        forall|x: int, y: int| 0 <= x < y < r@.len() ==> (#[trigger] r@[x]) < (#[trigger] r@[y]),
{
    let ghost pred = |g: Seq<char>| work_group(ivs, d, g);
    let mut out: Vec<usize> = Vec::new();
    let mut h: usize = 0;
    assert(gs.take(0).filter(pred) =~= Seq::<Seq<char>>::empty());
    while h < wg.len()
        invariant
            h <= wg@.len(),
            wg@.len() == gs.len(),
            pred == (|g: Seq<char>| work_group(ivs, d, g)),
            forall|g: int| 0 <= g < gs.len() ==> (#[trigger] wg@[g]) == work_group(ivs, d, gs[g]),
            out@.map_values(|h: usize| gs[h as int]) == gs.take(h as int).filter(pred),
            forall|x: int| 0 <= x < out@.len() ==> (#[trigger] out@[x]) < h,
            forall|x: int, y: int| 0 <= x < y < out@.len() ==> (#[trigger] out@[x]) < (#[trigger] out@[y]),
        decreases wg@.len() - h,
    {
        proof {
            assert(gs.take(h + 1) =~= gs.take(h as int).push(gs[h as int]));
            gs.take(h as int).lemma_filter_push(gs[h as int], pred);
        }
        if wg[h] {
            let ghost before = out@;
            out.push(h);
            assert(out@.map_values(|h: usize| gs[h as int]) =~= before.map_values(|h: usize| gs[h as int]).push(gs[h as int]));
        }
        h = h + 1;
    }
    assert(gs.take(wg@.len() as int) =~= gs);
    out
}

/// The merge proposals over the works in `wl` order.
fn proposals_of(
    cps: &Vec<Vec<bool>>,
    wl: &Vec<usize>,
    ng: usize,
    Ghost(ivs): Ghost<Seq<IntervalModel>>,
    Ghost(d): Ghost<Seq<(Seq<char>, Seq<char>)>>,
    Ghost(gs): Ghost<Seq<Seq<char>>>,
    Ghost(ws): Ghost<Seq<Seq<char>>>,
) -> (r: Vec<MergeProposal>)
    requires
        cps@.len() == sittings(ivs).len(),
        forall|k: int| 0 <= k < cps@.len() ==> (#[trigger] cps@[k])@.len() == ng,
        forall|k: int, g: int| 0 <= k < cps@.len() && 0 <= g < ng ==> (#[trigger] cps@[k]@[g]) == co_present(ivs, d, sittings(ivs)[k], gs[g]),
        ng == gs.len(),
        forall|x: int| 0 <= x < wl@.len() ==> (#[trigger] wl@[x]) < ng,
        ws == wl@.map_values(|h: usize| gs[h as int]),
    ensures
        r@ == proposals_upto(ivs, d, ws, ws.len() as int),
{
    let ghost ss = sittings(ivs);
    let mut out: Vec<MergeProposal> = Vec::new();
    let mut i: usize = 0;
    while i < wl.len()
        invariant
            i <= wl@.len(),
            ss == sittings(ivs),
            cps@.len() == ss.len(),
            forall|k: int| 0 <= k < cps@.len() ==> (#[trigger] cps@[k])@.len() == ng,
            forall|k: int, g: int| 0 <= k < cps@.len() && 0 <= g < ng ==> (#[trigger] cps@[k]@[g]) == co_present(ivs, d, ss[k], gs[g]),
            ng == gs.len(),
            forall|x: int| 0 <= x < wl@.len() ==> (#[trigger] wl@[x]) < ng,
            ws == wl@.map_values(|h: usize| gs[h as int]),
            out@ == proposals_upto(ivs, d, ws, i as int),
        decreases wl@.len() - i,
    {
        let ghost base = out@;
        let mut m: usize = i + 1;
        while m < wl.len()
            invariant
                i < wl@.len(),
                i + 1 <= m <= wl@.len(),
                ss == sittings(ivs),
                cps@.len() == ss.len(),
                forall|k: int| 0 <= k < cps@.len() ==> (#[trigger] cps@[k])@.len() == ng,
                forall|k: int, g: int| 0 <= k < cps@.len() && 0 <= g < ng ==> (#[trigger] cps@[k]@[g]) == co_present(ivs, d, ss[k], gs[g]),
                ng == gs.len(),
                forall|x: int| 0 <= x < wl@.len() ==> (#[trigger] wl@[x]) < ng,
                ws == wl@.map_values(|h: usize| gs[h as int]),
                out@ == base + proposal_row(ivs, d, ws, i as int, m as int),
            decreases wl@.len() - m,
        {
            let a = wl[i];
            let b = wl[m];
            let ghost pred = |s: SittingModel| co_present(ivs, d, s, ws[i as int]) && co_present(ivs, d, s, ws[m as int]);
            let mut c: usize = 0;
            let mut k: usize = 0;
            assert(ss.take(0).filter(pred) =~= Seq::<SittingModel>::empty());
            while k < cps.len()
                invariant
                    k <= cps@.len(),
                    cps@.len() == ss.len(),
                    forall|k2: int| 0 <= k2 < cps@.len() ==> (#[trigger] cps@[k2])@.len() == ng,
                    forall|k2: int, g: int| 0 <= k2 < cps@.len() && 0 <= g < ng ==> (#[trigger] cps@[k2]@[g]) == co_present(ivs, d, ss[k2], gs[g]),
                    a < ng,
                    b < ng,
                    gs[a as int] == ws[i as int],
                    gs[b as int] == ws[m as int],
                    pred == (|s: SittingModel| co_present(ivs, d, s, ws[i as int]) && co_present(ivs, d, s, ws[m as int])),
                    c == ss.take(k as int).filter(pred).len(),
                    c <= k,
                decreases cps@.len() - k,
            {
                proof {
                    assert(ss.take(k + 1) =~= ss.take(k as int).push(ss[k as int]));
                    ss.take(k as int).lemma_filter_push(ss[k as int], pred);
                    assert(cps@[k as int]@[a as int] == co_present(ivs, d, ss[k as int], gs[a as int]));
                    assert(cps@[k as int]@[b as int] == co_present(ivs, d, ss[k as int], gs[b as int]));
                }
                if cps[k][a] && cps[k][b] {
                    c = c + 1;
                }
                k = k + 1;
            }
            assert(ss.take(cps@.len() as int) =~= ss);
            proof {
                assert(c == shared_sittings(ivs, d, ws[i as int], ws[m as int]));
            }
            if c >= PROPOSAL_SITTINGS {
                out.push(MergeProposal { work_a: i, work_b: m, shared_sittings: c });
            }
            m = m + 1;
        }
        proof {
            assert(proposals_upto(ivs, d, ws, i + 1) == proposals_upto(ivs, d, ws, i as int) + proposal_row(ivs, d, ws, i as int, ws.len() as int));
        }
        i = i + 1;
    }
    out
}

// ── Works ──────────────────────────────────────────────────────────────────

/// A page belongs to work `g`: it is one of the group's own pages (not
/// ambient), or it attached to the work.
pub open spec fn is_member(ivs: Seq<IntervalModel>, d: Seq<(Seq<char>, Seq<char>)>, g: Seq<char>, p: Seq<char>) -> bool {
    (page_root(ivs, d, p) == g && !quarantined(ivs, d, p)) || attached(ivs, d, p, g)
}

/// The member pages of work `g`, in code-point order.
pub open spec fn work_members(ivs: Seq<IntervalModel>, d: Seq<(Seq<char>, Seq<char>)>, g: Seq<char>) -> Seq<Seq<char>> {
    page_list(ivs).filter(|p: Seq<char>| is_member(ivs, d, g, p))
}

/// The positions of the intervals attending `p`, in order.
pub open spec fn page_positions(ivs: Seq<IntervalModel>, p: Seq<char>) -> Seq<int> {
    positions(ivs.len() as int).filter(|i: int| interval_keys(ivs)[i] == p)
}

/// The positions of the member pages' intervals, page by page.
pub open spec fn member_positions(ivs: Seq<IntervalModel>, ms: Seq<Seq<char>>) -> Seq<int> {
    ms.map_values(|p: Seq<char>| page_positions(ivs, p)).flatten()
}

/// The start of each member interval, in member order.
pub open spec fn member_starts(ivs: Seq<IntervalModel>, ms: Seq<Seq<char>>) -> Seq<u64> {
    member_positions(ivs, ms).map_values(|i: int| ivs[i].start_ms as u64)
}

/// The work's intervals: the member intervals in order of start, equal
/// starts in member order.
pub open spec fn work_intervals(ivs: Seq<IntervalModel>, ms: Seq<Seq<char>>) -> Seq<IntervalModel> {
    let l = member_positions(ivs, ms);
    key_order(member_starts(ivs, ms), l.len() as int).map_values(|o: int| ivs[l[o]])
}

/// Interval `i` attends a member page.
pub open spec fn in_members(ivs: Seq<IntervalModel>, ms: Seq<Seq<char>>, i: int) -> bool {
    ms.contains(interval_keys(ivs)[i])
}

/// A measure summed over the first `n` intervals that attend member pages.
pub open spec fn member_total(ivs: Seq<IntervalModel>, ms: Seq<Seq<char>>, f: spec_fn(IntervalModel) -> int, n: int) -> int
    decreases n,
{
    if n <= 0 {
        0
    } else {
        member_total(ivs, ms, f, n - 1) + if in_members(ivs, ms, n - 1) {
            f(ivs[n - 1])
        } else {
            0
        }
    }
}

/// The latest end among the first `n` member intervals (0 when none).
pub open spec fn member_last(ivs: Seq<IntervalModel>, ms: Seq<Seq<char>>, n: int) -> int
    decreases n,
{
    if n <= 0 {
        0
    } else {
        let prev = member_last(ivs, ms, n - 1);
        if in_members(ivs, ms, n - 1) && ivs[n - 1].end_ms > prev {
            ivs[n - 1].end_ms
        } else {
            prev
        }
    }
}

/// Some member interval carried keystrokes or typing.
pub open spec fn member_produced(ivs: Seq<IntervalModel>, ms: Seq<Seq<char>>) -> bool {
    exists|i: int| 0 <= i < ivs.len() && #[trigger] in_members(ivs, ms, i) && (ivs[i].keys > 0 || ivs[i].typed_count > 0)
}

/// The member pages' texts in one field, each once, page by page.
pub open spec fn member_texts(ivs: Seq<IntervalModel>, ms: Seq<Seq<char>>, f: TextField) -> Seq<Seq<char>> {
    distinct(ms.map_values(|p: Seq<char>| page_texts(ivs, f, p)).flatten())
}

/// The sittings in which some member page was attended.
pub open spec fn member_sittings(ivs: Seq<IntervalModel>, ms: Seq<Seq<char>>) -> nat {
    sittings(ivs).filter(
        |s: SittingModel| exists|t: int| 0 <= t < s.interval_indices.len() && #[trigger] ms.contains(interval_keys(ivs)[s.interval_indices[t]]),
    ).len()
}

/// The name the person declared for a work: the first declared name whose
/// subject is a member page.
pub open spec fn declared_name(named: Seq<(Seq<char>, Seq<char>)>, ms: Seq<Seq<char>>) -> Option<Seq<char>>
    decreases named.len(),
{
    if named.len() == 0 {
        None
    } else if ms.contains(canonical_subject(named[0].0)) {
        Some(named[0].1)
    } else {
        declared_name(named.drop_first(), ms)
    }
}

/// The richest title: the last of the longest non-blank titles.
pub open spec fn richest_title(ts: Seq<Seq<char>>) -> Option<Seq<char>>
    decreases ts.len(),
{
    if ts.len() == 0 {
        None
    } else {
        let prev = richest_title(ts.drop_last());
        let t = ts.last();
        if blank(t) {
            prev
        } else {
            match prev {
                Some(b) => if t.len() >= b.len() {
                    Some(t)
                } else {
                    Some(b)
                },
                None => Some(t),
            }
        }
    }
}

/// A work's name: the declared name, else its richest title, else its
/// first page.
pub open spec fn work_identity(named: Seq<(Seq<char>, Seq<char>)>, ms: Seq<Seq<char>>, titles: Seq<Seq<char>>) -> Seq<char> {
    match declared_name(named, ms) {
        Some(n) => n,
        None => match richest_title(titles) {
            Some(t) => t,
            None => ms[0],
        },
    }
}

/// The work of group `g`.
pub open spec fn work_model(
    ivs: Seq<IntervalModel>,
    d: Seq<(Seq<char>, Seq<char>)>,
    named: Seq<(Seq<char>, Seq<char>)>,
    g: Seq<char>,
) -> WorkModel {
    let ms = work_members(ivs, d, g);
    let n = ivs.len() as int;
    let titles = member_texts(ivs, ms, TextField::Titles);
    WorkModel {
        identity: work_identity(named, ms, titles),
        identity_kind: IdentityKind::Purpose,
        intervals: work_intervals(ivs, ms),
        total_time_ms: member_total(ivs, ms, iv_dwell(), n),
        urls: member_texts(ivs, ms, TextField::Urls),
        documents: member_texts(ivs, ms, TextField::Documents),
        titles,
        apps: member_texts(ivs, ms, TextField::App),
        has_production: member_produced(ivs, ms),
        keys: member_total(ivs, ms, iv_keys(), n),
        clicks: member_total(ivs, ms, iv_clicks(), n),
        scrolls: member_total(ivs, ms, iv_scrolls(), n),
        attached_saves: member_total(ivs, ms, iv_saves(), n),
        last_active_ms: member_last(ivs, ms, n),
        session_count_override: Some(member_sittings(ivs, ms) as usize),
    }
}

/// `[work] identity from root: N pages`
pub open spec fn work_line(identity: Seq<char>, root: Seq<char>, n: nat) -> Seq<char> {
    seq!['[', 'w', 'o', 'r', 'k', ']', ' '] + identity + seq![' ', 'f', 'r', 'o', 'm', ' '] + root + seq![':', ' '] + decimal(n)
        + seq![' ', 'p', 'a', 'g', 'e', 's']
}

fn copy_opt_text(o: &Option<String>) -> (r: Option<String>)
    ensures
        opt_text(r) == opt_text(*o),
{
    match o {
        Some(x) => Some(x.clone()),
        None => None,
    }
}

/// A copy of an interval.
fn copy_interval(iv: &WorkInterval) -> (r: WorkInterval)
    ensures
        r@ == iv@,
{
    let k = &iv.task_key;
    let task_key = TaskKey {
        document_path: copy_opt_text(&k.document_path),
        page: copy_opt_text(&k.page),
        window_title: copy_opt_text(&k.window_title),
        url_host: copy_opt_text(&k.url_host),
        app_name: k.app_name.clone(),
        confidence: k.confidence,
    };
    let r = WorkInterval {
        id: iv.id,
        task_key,
        start_ms: iv.start_ms,
        end_ms: iv.end_ms,
        event_count: iv.event_count,
        total_dwell_ms: iv.total_dwell_ms,
        typed_count: iv.typed_count,
        keys: iv.keys,
        clicks: iv.clicks,
        scrolls: iv.scrolls,
        attached_saves: iv.attached_saves,
        status: iv.status,
        urls: iv.urls.clone(),
        titles: iv.titles.clone(),
        document_paths: iv.document_paths.clone(),
        app_names: iv.app_names.clone(),
    };
    assert(views(r.urls@) =~= views(iv.urls@));
    assert(views(r.titles@) =~= views(iv.titles@));
    assert(views(r.document_paths@) =~= views(iv.document_paths@));
    assert(views(r.app_names@) =~= views(iv.app_names@));
    r
}

fn pair_in(pairs: &Vec<(usize, usize)>, q: usize, w: usize) -> (r: bool)
    ensures
        r == has_pair(pairs@, q, w),
{
    let mut e: usize = 0;
    while e < pairs.len()
        invariant
            e <= pairs@.len(),
            forall|e2: int| 0 <= e2 < e ==> #[trigger] pairs@[e2] != (q, w),
        decreases pairs@.len() - e,
    {
        if pairs[e].0 == q && pairs[e].1 == w {
            assert(pairs@[e as int] == (q, w));
            return true;
        }
        e = e + 1;
    }
    false
}

/// The pages selected by `flags`, in order.
fn selected(pages: &Vec<String>, flags: &Vec<bool>, Ghost(pred): Ghost<spec_fn(Seq<char>) -> bool>) -> (r: Vec<String>)
    requires
        flags@.len() == pages@.len(),
        forall|q: int| 0 <= q < pages@.len() ==> (#[trigger] flags@[q]) == pred(pages@[q]@),
    ensures
        views(r@) == views(pages@).filter(pred),
{
    let ghost kl = views(pages@);
    let mut out: Vec<String> = Vec::new();
    let mut q: usize = 0;
    assert(kl.take(0).filter(pred) =~= Seq::<Seq<char>>::empty());
    while q < pages.len()
        invariant
            q <= pages@.len(),
            kl == views(pages@),
            flags@.len() == pages@.len(),
            forall|q2: int| 0 <= q2 < pages@.len() ==> (#[trigger] flags@[q2]) == pred(pages@[q2]@),
            views(out@) == kl.take(q as int).filter(pred),
        decreases pages@.len() - q,
    {
        proof {
            assert(kl.take(q + 1) =~= kl.take(q as int).push(kl[q as int]));
            kl.take(q as int).lemma_filter_push(kl[q as int], pred);
            assert(flags@[q as int] == pred(kl[q as int]));
        }
        if flags[q] {
            let ghost before = views(out@);
            out.push(pages[q].clone());
            assert(views(out@) =~= before.push(kl[q as int]));
        }
        q = q + 1;
    }
    assert(kl.take(pages@.len() as int) =~= kl);
    out
}

/// The positions of the intervals attending page `q`.
fn page_positions_of(pk: &Vec<usize>, q: usize, Ghost(ivs): Ghost<Seq<IntervalModel>>) -> (r: Vec<usize>)
    requires
        page_of_intervals(ivs, pk@),
        q < page_list(ivs).len(),
    ensures
        index_views(r@) == page_positions(ivs, page_list(ivs)[q as int]),
        forall|t: int| 0 <= t < r@.len() ==> (#[trigger] r@[t]) < ivs.len(),
{
    let ghost kl = page_list(ivs);
    let ghost pred = |i: int| interval_keys(ivs)[i] == kl[q as int];
    let ghost all = positions(ivs.len() as int);
    let mut out: Vec<usize> = Vec::new();
    let mut i: usize = 0;
    assert(all.take(0).filter(pred) =~= Seq::<int>::empty());
    while i < pk.len()
        invariant
            i <= pk@.len(),
            page_of_intervals(ivs, pk@),
            kl == page_list(ivs),
            q < kl.len(),
            pred == (|i: int| interval_keys(ivs)[i] == kl[q as int]),
            all == positions(ivs.len() as int),
            index_views(out@) == all.take(i as int).filter(pred),
            forall|t: int| 0 <= t < out@.len() ==> (#[trigger] out@[t]) < ivs.len(),
        decreases pk@.len() - i,
    {
        proof {
            assert(all.take(i + 1) =~= all.take(i as int).push(i as int));
            all.take(i as int).lemma_filter_push(i as int, pred);
            if pk@[i as int] != q && interval_keys(ivs)[i as int] == kl[q as int] {
                assert(kl[pk@[i as int] as int] == kl[q as int]);
            }
        }
        if pk[i] == q {
            let ghost before = index_views(out@);
            out.push(i);
            assert(index_views(out@) =~= before.push(i as int));
        }
        i = i + 1;
    }
    assert(all.take(pk@.len() as int) =~= all);
    out
}

/// The positions of the member intervals, page by page.
fn member_positions_of(pk: &Vec<usize>, flags: &Vec<bool>, Ghost(ivs): Ghost<Seq<IntervalModel>>, Ghost(pred): Ghost<spec_fn(Seq<char>) -> bool>) -> (r: Vec<usize>)
    requires
        page_of_intervals(ivs, pk@),
        flags@.len() == page_list(ivs).len(),
        forall|q: int| 0 <= q < flags@.len() ==> (#[trigger] flags@[q]) == pred(page_list(ivs)[q]),
    ensures
        index_views(r@) == member_positions(ivs, page_list(ivs).filter(pred)),
        forall|t: int| 0 <= t < r@.len() ==> (#[trigger] r@[t]) < ivs.len(),
{
    let ghost kl = page_list(ivs);
    let ghost pp = |p: Seq<char>| page_positions(ivs, p);
    let mut out: Vec<usize> = Vec::new();
    let mut q: usize = 0;
    assert(kl.take(0).filter(pred).map_values(pp).flatten() =~= Seq::<int>::empty());
    while q < flags.len()
        invariant
            q <= flags@.len(),
            page_of_intervals(ivs, pk@),
            kl == page_list(ivs),
            flags@.len() == kl.len(),
            forall|q2: int| 0 <= q2 < flags@.len() ==> (#[trigger] flags@[q2]) == pred(kl[q2]),
            pp == (|p: Seq<char>| page_positions(ivs, p)),
            index_views(out@) == kl.take(q as int).filter(pred).map_values(pp).flatten(),
            forall|t: int| 0 <= t < out@.len() ==> (#[trigger] out@[t]) < ivs.len(),
        decreases flags@.len() - q,
    {
        proof {
            assert(kl.take(q + 1) =~= kl.take(q as int).push(kl[q as int]));
            kl.take(q as int).lemma_filter_push(kl[q as int], pred);
            assert(flags@[q as int] == pred(kl[q as int]));
        }
        if flags[q] {
            let mine = page_positions_of(pk, q, Ghost(ivs));
            let ghost before = index_views(out@);
            let mut t: usize = 0;
            while t < mine.len()
                invariant
                    t <= mine@.len(),
                    index_views(out@) == before + index_views(mine@).take(t as int),
                    forall|u: int| 0 <= u < mine@.len() ==> (#[trigger] mine@[u]) < ivs.len(),
                    forall|u: int| 0 <= u < out@.len() ==> (#[trigger] out@[u]) < ivs.len(),
                decreases mine@.len() - t,
            {
                let ghost o = index_views(out@);
                out.push(mine[t]);
                assert(index_views(out@) =~= o.push(mine@[t as int] as int));
                assert(index_views(mine@).take(t + 1) =~= index_views(mine@).take(t as int).push(mine@[t as int] as int));
                t = t + 1;
            }
            proof {
                assert(index_views(mine@).take(mine@.len() as int) =~= index_views(mine@));
                let f = kl.take(q as int).filter(pred);
                assert(f.push(kl[q as int]).map_values(pp) =~= f.map_values(pp).push(pp(kl[q as int])));
                f.map_values(pp).lemma_flatten_push(pp(kl[q as int]));
            }
        }
        q = q + 1;
    }
    assert(kl.take(flags@.len() as int) =~= kl);
    out
}

/// The member intervals in order of start.
fn work_intervals_of(intervals: &[WorkInterval], l: &Vec<usize>, Ghost(ms): Ghost<Seq<Seq<char>>>) -> (r: Vec<WorkInterval>)
    requires
        index_views(l@) == member_positions(interval_views(intervals@), ms),
        forall|t: int| 0 <= t < l@.len() ==> (#[trigger] l@[t]) < intervals@.len(),
    ensures
        interval_views(r@) == work_intervals(interval_views(intervals@), ms),
{
    let ghost ivs = interval_views(intervals@);
    let mut starts: Vec<u64> = Vec::new();
    let mut t: usize = 0;
    while t < l.len()
        invariant
            t <= l@.len(),
            ivs == interval_views(intervals@),
            index_views(l@) == member_positions(ivs, ms),
            forall|u: int| 0 <= u < l@.len() ==> (#[trigger] l@[u]) < intervals@.len(),
            starts@ == member_starts(ivs, ms).take(t as int),
        decreases l@.len() - t,
    {
        let ghost before = starts@;
        starts.push(intervals[l[t]].start_ms);
        proof {
            assert(ivs[l@[t as int] as int] == intervals@[l@[t as int] as int]@);
            assert(member_positions(ivs, ms)[t as int] == l@[t as int] as int);
            assert(starts@ =~= member_starts(ivs, ms).take(t + 1));
        }
        t = t + 1;
    }
    assert(starts@ =~= member_starts(ivs, ms));
    let order = stable_key_order(&starts);
    let ghost ord = order@.map_values(|i: usize| i as int);
    proof {
        lemma_key_order(starts@, starts@.len() as int);
    }
    let mut out: Vec<WorkInterval> = Vec::new();
    let mut k: usize = 0;
    while k < order.len()
        invariant
            k <= order@.len(),
            ivs == interval_views(intervals@),
            index_views(l@) == member_positions(ivs, ms),
            forall|u: int| 0 <= u < l@.len() ==> (#[trigger] l@[u]) < intervals@.len(),
            starts@ == member_starts(ivs, ms),
            ord == order@.map_values(|i: usize| i as int),
            ord == key_order(starts@, starts@.len() as int),
            order@.len() == l@.len(),
            forall|u: int| 0 <= u < order@.len() ==> order@[u] < starts@.len(),
            interval_views(out@) == work_intervals(ivs, ms).take(k as int),
        decreases order@.len() - k,
    {
        let o = order[k];
        let i = l[o];
        let iv = copy_interval(&intervals[i]);
        let ghost before = interval_views(out@);
        out.push(iv);
        proof {
            assert(ord[k as int] == o as int);
            assert(member_positions(ivs, ms)[o as int] == i as int);
            assert(ivs[i as int] == intervals@[i as int]@);
            let w = work_intervals(ivs, ms);
            assert(member_starts(ivs, ms).len() == member_positions(ivs, ms).len());
            assert(w.len() == order@.len());
            assert(w[k as int] == ivs[i as int]);
            assert(interval_views(out@) =~= before.push(iv@));
            assert(w.take(k + 1) =~= w.take(k as int).push(w[k as int]));
            assert(interval_views(out@) =~= work_intervals(ivs, ms).take(k + 1));
        }
        k = k + 1;
    }
    assert(interval_views(out@) =~= work_intervals(ivs, ms));
    out
}

/// A member sum is part of the sum over all intervals.
proof fn lemma_member_total_bound(ivs: Seq<IntervalModel>, ms: Seq<Seq<char>>, f: spec_fn(IntervalModel) -> int, k: int)
    requires
        0 <= k <= ivs.len(),
        nonneg_terms(ivs, f),
    ensures
        0 <= member_total(ivs, ms, f, k) <= seq_sum(ivs.take(k), f),
    decreases k,
{
    if k > 0 {
        lemma_member_total_bound(ivs, ms, f, k - 1);
        assert(ivs.take(k).drop_last() =~= ivs.take(k - 1));
        assert(ivs.take(k).last() == ivs[k - 1]);
        assert(f(ivs[k - 1]) >= 0);
    } else {
        assert(ivs.take(0) =~= Seq::<IntervalModel>::empty());
    }
}

/// Interval `i` attends a member page exactly when its page is selected.
proof fn lemma_in_members(ivs: Seq<IntervalModel>, pk: Seq<usize>, pred: spec_fn(Seq<char>) -> bool, i: int)
    requires
        page_of_intervals(ivs, pk),
        0 <= i < ivs.len(),
    ensures
        in_members(ivs, page_list(ivs).filter(pred), i) == pred(page_list(ivs)[pk[i] as int]),
{
    let kl = page_list(ivs);
    let x = interval_keys(ivs)[i];
    assert(kl[pk[i] as int] == x);
    kl.filter_lemma(pred);
    if pred(x) {
        assert(kl.contains(x));
        kl.lemma_filter_contains_rev(pred, x);
    }
}

/// What the member intervals add up to.
struct MemberTotals {
    dwell: u64,
    keys: u64,
    clicks: u64,
    scrolls: u64,
    saves: usize,
    last: u64,
    produced: bool,
}

/// Every interval's measure is at most the sum of all.
pub open spec fn totals_fit(ivs: Seq<IntervalModel>) -> bool {
    &&& seq_sum(ivs, iv_dwell()) <= u64::MAX
    &&& seq_sum(ivs, iv_keys()) <= u64::MAX
    &&& seq_sum(ivs, iv_clicks()) <= u64::MAX
    &&& seq_sum(ivs, iv_scrolls()) <= u64::MAX
    &&& seq_sum(ivs, iv_saves()) <= usize::MAX
}

#[verifier::rlimit(30)]
fn member_totals(intervals: &[WorkInterval], pk: &Vec<usize>, flags: &Vec<bool>, Ghost(pred): Ghost<spec_fn(Seq<char>) -> bool>) -> (r: MemberTotals)
    requires
        page_of_intervals(interval_views(intervals@), pk@),
        flags@.len() == page_list(interval_views(intervals@)).len(),
        forall|q: int| 0 <= q < flags@.len() ==> (#[trigger] flags@[q]) == pred(page_list(interval_views(intervals@))[q]),
        totals_fit(interval_views(intervals@)),
    ensures
        ({
            let ivs = interval_views(intervals@);
            let ms = page_list(ivs).filter(pred);
            let n = ivs.len() as int;
            &&& r.dwell == member_total(ivs, ms, iv_dwell(), n)
            &&& r.keys == member_total(ivs, ms, iv_keys(), n)
            &&& r.clicks == member_total(ivs, ms, iv_clicks(), n)
            &&& r.scrolls == member_total(ivs, ms, iv_scrolls(), n)
            &&& r.saves == member_total(ivs, ms, iv_saves(), n)
            &&& r.last == member_last(ivs, ms, n)
            &&& r.produced == member_produced(ivs, ms)
        }),
{
    let ghost ivs = interval_views(intervals@);
    let ghost ms = page_list(ivs).filter(pred);
    proof {
        assert forall|f: spec_fn(IntervalModel) -> int| f == iv_dwell() || f == iv_keys() || f == iv_clicks() || f == iv_scrolls()
            || f == iv_saves() implies nonneg_terms(ivs, f) by {
            assert forall|i: int| 0 <= i < ivs.len() implies f(#[trigger] ivs[i]) >= 0 by {
                assert(ivs[i] == intervals@[i]@);
            }
        }
        assert(ivs.take(ivs.len() as int) =~= ivs);
    }
    let mut t = MemberTotals { dwell: 0, keys: 0, clicks: 0, scrolls: 0, saves: 0, last: 0, produced: false };
    let mut i: usize = 0;
    while i < intervals.len()
        invariant
            i <= intervals@.len(),
            ivs == interval_views(intervals@),
            ms == page_list(ivs).filter(pred),
            page_of_intervals(ivs, pk@),
            flags@.len() == page_list(ivs).len(),
            forall|q: int| 0 <= q < flags@.len() ==> (#[trigger] flags@[q]) == pred(page_list(ivs)[q]),
            totals_fit(ivs),
            nonneg_terms(ivs, iv_dwell()),
            nonneg_terms(ivs, iv_keys()),
            nonneg_terms(ivs, iv_clicks()),
            nonneg_terms(ivs, iv_scrolls()),
            nonneg_terms(ivs, iv_saves()),
            t.dwell == member_total(ivs, ms, iv_dwell(), i as int),
            t.keys == member_total(ivs, ms, iv_keys(), i as int),
            t.clicks == member_total(ivs, ms, iv_clicks(), i as int),
            t.scrolls == member_total(ivs, ms, iv_scrolls(), i as int),
            t.saves == member_total(ivs, ms, iv_saves(), i as int),
            t.last == member_last(ivs, ms, i as int),
            t.produced == exists|j: int| 0 <= j < i && #[trigger] in_members(ivs, ms, j) && (ivs[j].keys > 0 || ivs[j].typed_count > 0),
        decreases intervals@.len() - i,
    {
        proof {
            lemma_in_members(ivs, pk@, pred, i as int);
            assert(flags@[pk@[i as int] as int] == pred(page_list(ivs)[pk@[i as int] as int]));
            assert(ivs[i as int] == intervals@[i as int]@);
            lemma_member_total_bound(ivs, ms, iv_dwell(), i + 1);
            lemma_member_total_bound(ivs, ms, iv_keys(), i + 1);
            lemma_member_total_bound(ivs, ms, iv_clicks(), i + 1);
            lemma_member_total_bound(ivs, ms, iv_scrolls(), i + 1);
            lemma_member_total_bound(ivs, ms, iv_saves(), i + 1);
            lemma_sum_take(ivs, i + 1, iv_dwell());
            lemma_sum_take(ivs, i + 1, iv_keys());
            lemma_sum_take(ivs, i + 1, iv_clicks());
            lemma_sum_take(ivs, i + 1, iv_scrolls());
            lemma_sum_take(ivs, i + 1, iv_saves());
        }
        if flags[pk[i]] {
            let iv = &intervals[i];
            t.dwell = t.dwell + iv.total_dwell_ms;
            t.keys = t.keys + iv.keys;
            t.clicks = t.clicks + iv.clicks;
            t.scrolls = t.scrolls + iv.scrolls;
            t.saves = t.saves + iv.attached_saves;
            if iv.end_ms > t.last {
                t.last = iv.end_ms;
            }
            if iv.keys > 0 || iv.typed_count > 0 {
                t.produced = true;
            }
        }
        proof {
            assert forall|j: int| 0 <= j < i + 1 && #[trigger] in_members(ivs, ms, j) && (ivs[j].keys > 0 || ivs[j].typed_count > 0)
                implies t.produced by {}
        }
        i = i + 1;
    }
    t
}

/// The member pages' texts in one field, each once.
fn member_texts_of(texts: &Vec<Vec<String>>, flags: &Vec<bool>, Ghost(ivs): Ghost<Seq<IntervalModel>>, Ghost(f): Ghost<TextField>, Ghost(pred): Ghost<spec_fn(Seq<char>) -> bool>) -> (r: Vec<String>)
    requires
        texts@.len() == page_list(ivs).len(),
        flags@.len() == page_list(ivs).len(),
        forall|q: int| 0 <= q < texts@.len() ==> views(#[trigger] texts@[q]@) == page_texts(ivs, f, page_list(ivs)[q]),
        forall|q: int| 0 <= q < flags@.len() ==> (#[trigger] flags@[q]) == pred(page_list(ivs)[q]),
    ensures
        views(r@) == member_texts(ivs, page_list(ivs).filter(pred), f),
{
    let ghost kl = page_list(ivs);
    let ghost pt = |p: Seq<char>| page_texts(ivs, f, p);
    let mut out: Vec<String> = Vec::new();
    let mut q: usize = 0;
    assert(kl.take(0).filter(pred).map_values(pt).flatten() =~= Seq::<Seq<char>>::empty());
    while q < texts.len()
        invariant
            q <= texts@.len(),
            kl == page_list(ivs),
            texts@.len() == kl.len(),
            flags@.len() == kl.len(),
            forall|q2: int| 0 <= q2 < texts@.len() ==> views(#[trigger] texts@[q2]@) == page_texts(ivs, f, kl[q2]),
            forall|q2: int| 0 <= q2 < flags@.len() ==> (#[trigger] flags@[q2]) == pred(kl[q2]),
            pt == (|p: Seq<char>| page_texts(ivs, f, p)),
            views(out@) == distinct(kl.take(q as int).filter(pred).map_values(pt).flatten()),
        decreases texts@.len() - q,
    {
        proof {
            assert(kl.take(q + 1) =~= kl.take(q as int).push(kl[q as int]));
            kl.take(q as int).lemma_filter_push(kl[q as int], pred);
            assert(flags@[q as int] == pred(kl[q as int]));
        }
        if flags[q] {
            proof {
                let fl = kl.take(q as int).filter(pred);
                assert(fl.push(kl[q as int]).map_values(pt) =~= fl.map_values(pt).push(pt(kl[q as int])));
                fl.map_values(pt).lemma_flatten_push(pt(kl[q as int]));
                lemma_push_all_concat(Seq::empty(), fl.map_values(pt).flatten(), views(texts@[q as int]@));
            }
            push_each(&mut out, &texts[q]);
        }
        q = q + 1;
    }
    assert(kl.take(texts@.len() as int) =~= kl);
    out
}

/// How many sittings attended some member page.
fn member_sittings_of(sits: &Vec<Sitting>, pk: &Vec<usize>, flags: &Vec<bool>, Ghost(ivs): Ghost<Seq<IntervalModel>>, Ghost(pred): Ghost<spec_fn(Seq<char>) -> bool>) -> (r: usize)
    requires
        sitting_views(sits@) == sittings(ivs),
        page_of_intervals(ivs, pk@),
        flags@.len() == page_list(ivs).len(),
        forall|q: int| 0 <= q < flags@.len() ==> (#[trigger] flags@[q]) == pred(page_list(ivs)[q]),
    ensures
        r == member_sittings(ivs, page_list(ivs).filter(pred)),
{
    let ghost ss = sittings(ivs);
    let ghost ms = page_list(ivs).filter(pred);
    let ghost sp = |s: SittingModel| exists|t: int| 0 <= t < s.interval_indices.len() && #[trigger] ms.contains(interval_keys(ivs)[s.interval_indices[t]]);
    proof {
        lemma_sittings_facts(ivs);
    }
    let mut c: usize = 0;
    let mut k: usize = 0;
    assert(ss.take(0).filter(sp) =~= Seq::<SittingModel>::empty());
    while k < sits.len()
        invariant
            k <= sits@.len(),
            ss == sittings(ivs),
            sitting_views(sits@) == ss,
            ms == page_list(ivs).filter(pred),
            page_of_intervals(ivs, pk@),
            flags@.len() == page_list(ivs).len(),
            forall|q: int| 0 <= q < flags@.len() ==> (#[trigger] flags@[q]) == pred(page_list(ivs)[q]),
            forall|k2: int, t: int|
                0 <= k2 < ss.len() && 0 <= t < ss[k2].interval_indices.len() ==> 0 <= #[trigger] ss[k2].interval_indices[t] < ivs.len(),
            sp == (|s: SittingModel| exists|t: int| 0 <= t < s.interval_indices.len() && #[trigger] ms.contains(interval_keys(ivs)[s.interval_indices[t]])),
            c == ss.take(k as int).filter(sp).len(),
            c <= k,
        decreases sits@.len() - k,
    {
        let idx = &sits[k].interval_indices;
        let ghost s = ss[k as int];
        assert(s == sits@[k as int]@);
        let mut found = false;
        let mut t: usize = 0;
        while t < idx.len()
            invariant
                t <= idx@.len(),
                index_views(idx@) == s.interval_indices,
                s == ss[k as int],
                k < ss.len(),
                ms == page_list(ivs).filter(pred),
                page_of_intervals(ivs, pk@),
                flags@.len() == page_list(ivs).len(),
                forall|q: int| 0 <= q < flags@.len() ==> (#[trigger] flags@[q]) == pred(page_list(ivs)[q]),
                forall|k2: int, u: int|
                    0 <= k2 < ss.len() && 0 <= u < ss[k2].interval_indices.len() ==> 0 <= #[trigger] ss[k2].interval_indices[u] < ivs.len(),
                found == exists|u: int| 0 <= u < t && #[trigger] ms.contains(interval_keys(ivs)[s.interval_indices[u]]),
            decreases idx@.len() - t,
        {
            let i = idx[t];
            proof {
                assert(s.interval_indices[t as int] == i as int);
                assert(0 <= i < ivs.len());
                lemma_in_members(ivs, pk@, pred, i as int);
                assert(flags@[pk@[i as int] as int] == pred(page_list(ivs)[pk@[i as int] as int]));
            }
            if flags[pk[i]] {
                found = true;
            }
            t = t + 1;
        }
        proof {
            assert(ss.take(k + 1) =~= ss.take(k as int).push(s));
            ss.take(k as int).lemma_filter_push(s, sp);
        }
        if found {
            c = c + 1;
        }
        k = k + 1;
    }
    assert(ss.take(sits@.len() as int) =~= ss);
    c
}

/// The declared name of a work, if any.
fn declared_name_of(named: &Vec<(String, String)>, ms: &Vec<String>) -> (r: Option<String>)
    ensures
        opt_text(r) == declared_name(pair_texts(named@), views(ms@)),
{
    let ghost nv = pair_texts(named@);
    let mut k: usize = 0;
    while k < named.len()
        invariant
            k <= named@.len(),
            nv == pair_texts(named@),
            declared_name(nv, views(ms@)) == declared_name(nv.skip(k as int), views(ms@)),
        decreases named@.len() - k,
    {
        assert(nv[k as int] == (named@[k as int].0@, named@[k as int].1@));
        proof {
        }
        let c = canonical_subject_of(named[k].0.as_str());
        proof {
            let rest = nv.skip(k as int);
            assert(rest[0] == nv[k as int]);
            assert(rest.drop_first() =~= nv.skip(k + 1));
        }
        if crate::text::holds_text(ms, c.as_str()) {
            return Some(named[k].1.clone());
        }
        k = k + 1;
    }
    assert(nv.skip(named@.len() as int) =~= Seq::<(Seq<char>, Seq<char>)>::empty());
    None
}

/// The richest title, if any title is not blank.
fn richest_title_of(titles: &Vec<String>) -> (r: Option<String>)
    ensures
        opt_text(r) == richest_title(views(titles@)),
{
    let ghost tv = views(titles@);
    let mut best: Option<usize> = None;
    let mut i: usize = 0;
    while i < titles.len()
        invariant
            i <= titles@.len(),
            tv == views(titles@),
            match best {
                Some(b) => b < i && richest_title(tv.take(i as int)) == Some(tv[b as int]),
                None => richest_title(tv.take(i as int)) is None,
            },
        decreases titles@.len() - i,
    {
        proof {
            assert(tv.take(i + 1).drop_last() =~= tv.take(i as int));
            assert(tv.take(i + 1).last() == tv[i as int]);
        }
        if !is_blank(titles[i].as_str()) {
            match best {
                Some(b) => {
                    let n = chars_of(titles[i].as_str()).len();
                    let m = chars_of(titles[b].as_str()).len();
                    if n >= m {
                        best = Some(i);
                    }
                },
                None => {
                    best = Some(i);
                },
            }
        }
        i = i + 1;
    }
    assert(tv.take(titles@.len() as int) =~= tv);
    match best {
        Some(b) => Some(titles[b].clone()),
        None => None,
    }
}

/// A work's name.
fn identity_of(named: &Vec<(String, String)>, ms: &Vec<String>, titles: &Vec<String>) -> (r: String)
    requires
        ms@.len() > 0,
    ensures
        r@ == work_identity(pair_texts(named@), views(ms@), views(titles@)),
{
    match declared_name_of(named, ms) {
        Some(n) => n,
        None => match richest_title_of(titles) {
            Some(t) => t,
            None => ms[0].clone(),
        },
    }
}

fn work_line_of(identity: &str, root: &str, n: usize) -> (r: String)
    ensures
        r@ == work_line(identity@, root@, n as nat),
{
    proof {
        reveal_strlit("[work] ");
        reveal_strlit(" from ");
        reveal_strlit(": ");
        reveal_strlit(" pages");
    }
    let a = crate::text::concat3("[work] ", identity, " from ");
    let b = crate::text::concat3(a.as_str(), root, ": ");
    let c = fmt_u64(n as u64);
    let r = crate::text::concat3(b.as_str(), c.as_str(), " pages");
    assert(r@ =~= work_line(identity@, root@, n as nat));
    r
}

/// The texts of the pages in each field.
struct PageTexts {
    urls: Vec<Vec<String>>,
    documents: Vec<Vec<String>>,
    titles: Vec<Vec<String>>,
    apps: Vec<Vec<String>>,
}

/// The page texts of each field, pages in code-point order.
pub open spec fn page_texts_hold(ivs: Seq<IntervalModel>, t: Seq<Vec<String>>, f: TextField) -> bool {
    &&& t.len() == page_list(ivs).len()
    &&& forall|q: int| 0 <= q < t.len() ==> views(#[trigger] t[q]@) == page_texts(ivs, f, page_list(ivs)[q])
}

/// A group that makes a work has a member: any page of its own.
proof fn lemma_work_has_member(ivs: Seq<IntervalModel>, d: Seq<(Seq<char>, Seq<char>)>, g: Seq<char>)
    requires
        groups(ivs, d).contains(g),
        work_group(ivs, d, g),
    ensures
        work_members(ivs, d, g).len() > 0,
{
    let kl = page_list(ivs);
    let roots = kl.map_values(|p: Seq<char>| page_root(ivs, d, p));
    lemma_distinct(roots);
    lemma_sorted_texts(distinct(roots));
    assert(roots.contains(g));
    let q = choose|q: int| 0 <= q < roots.len() && roots[q] == g;
    assert(page_root(ivs, d, kl[q]) == g);
    reveal(quarantined);
    assert(is_member(ivs, d, g, kl[q]));
    let f = |p: Seq<char>| is_member(ivs, d, g, p);
    assert(work_members(ivs, d, g) == kl.filter(f));
    kl.lemma_filter_contains(f, q);
    assert(kl.filter(f).contains(kl[q]));
}

/// The work of one group, and its trace line.
#[verifier::rlimit(30)]
fn build_work(
    intervals: &[WorkInterval],
    pages: &Vec<String>,
    pk: &Vec<usize>,
    texts: &PageTexts,
    sits: &Vec<Sitting>,
    flags: &Vec<bool>,
    named: &Vec<(String, String)>,
    root: &String,
    Ghost(d): Ghost<Seq<(Seq<char>, Seq<char>)>>,
) -> (r: (Work, String))
    requires
        views(pages@) == page_list(interval_views(intervals@)),
        page_of_intervals(interval_views(intervals@), pk@),
        sitting_views(sits@) == sittings(interval_views(intervals@)),
        page_texts_hold(interval_views(intervals@), texts.urls@, TextField::Urls),
        page_texts_hold(interval_views(intervals@), texts.documents@, TextField::Documents),
        page_texts_hold(interval_views(intervals@), texts.titles@, TextField::Titles),
        page_texts_hold(interval_views(intervals@), texts.apps@, TextField::App),
        flags@.len() == pages@.len(),
        forall|q: int| 0 <= q < flags@.len() ==> (#[trigger] flags@[q]) == is_member(interval_views(intervals@), d, root@, pages@[q]@),
        work_members(interval_views(intervals@), d, root@).len() > 0,
        totals_fit(interval_views(intervals@)),
    ensures
        r.0@ == work_model(interval_views(intervals@), d, pair_texts(named@), root@),
        r.1@ == work_line(
            r.0@.identity,
            root@,
            work_members(interval_views(intervals@), d, root@).len(),
        ),
{
    let ghost ivs = interval_views(intervals@);
    let ghost g = root@;
    let ghost pred = |p: Seq<char>| is_member(ivs, d, g, p);
    let ghost ms = work_members(ivs, d, g);
    proof {
        assert(ms == page_list(ivs).filter(pred));
        assert forall|q: int| 0 <= q < flags@.len() implies (#[trigger] flags@[q]) == pred(page_list(ivs)[q]) by {
            assert(pages@[q]@ == views(pages@)[q]);
        }
        assert forall|q: int| 0 <= q < pages@.len() implies (#[trigger] flags@[q]) == pred(pages@[q]@) by {}
    }
    let members = selected(pages, flags, Ghost(pred));
    let l = member_positions_of(pk, flags, Ghost(ivs), Ghost(pred));
    let work_ivs = work_intervals_of(intervals, &l, Ghost(ms));
    let totals = member_totals(intervals, pk, flags, Ghost(pred));
    let urls = member_texts_of(&texts.urls, flags, Ghost(ivs), Ghost(TextField::Urls), Ghost(pred));
    let documents = member_texts_of(&texts.documents, flags, Ghost(ivs), Ghost(TextField::Documents), Ghost(pred));
    let titles = member_texts_of(&texts.titles, flags, Ghost(ivs), Ghost(TextField::Titles), Ghost(pred));
    let apps = member_texts_of(&texts.apps, flags, Ghost(ivs), Ghost(TextField::App), Ghost(pred));
    let sessions = member_sittings_of(sits, pk, flags, Ghost(ivs), Ghost(pred));
    let identity = identity_of(named, &members, &titles);
    let line = work_line_of(identity.as_str(), root.as_str(), members.len());
    let w = Work {
        identity,
        identity_kind: IdentityKind::Purpose,
        intervals: work_ivs,
        total_time_ms: totals.dwell,
        urls,
        documents,
        titles,
        apps,
        has_production: totals.produced,
        keys: totals.keys,
        clicks: totals.clicks,
        scrolls: totals.scrolls,
        attached_saves: totals.saves,
        last_active_ms: totals.last,
        session_count_override: Some(sessions),
    };
    (w, line)
}

// ── Order of the works ─────────────────────────────────────────────────────

/// Work `a` at position `i` is shown before work `b` at position `j`:
/// more recent first, then more time, then by name, then in root order.
pub open spec fn work_before(a: WorkModel, i: int, b: WorkModel, j: int) -> bool {
    ||| a.last_active_ms > b.last_active_ms
    ||| a.last_active_ms == b.last_active_ms && a.total_time_ms > b.total_time_ms
    ||| a.last_active_ms == b.last_active_ms && a.total_time_ms == b.total_time_ms && lex_lt(a.identity, b.identity)
    ||| a.last_active_ms == b.last_active_ms && a.total_time_ms == b.total_time_ms && a.identity == b.identity && i < j
}

/// `perm` arranges every work once, in the order the works are shown.
pub open spec fn stable_order(ws: Seq<WorkModel>, perm: Seq<int>) -> bool {
    &&& perm.len() == ws.len()
    &&& forall|k: int| 0 <= k < perm.len() ==> 0 <= #[trigger] perm[k] < ws.len()
    &&& perm.no_duplicates()
    &&& forall|x: int, y: int| 0 <= x < y < perm.len() ==> work_before(ws[#[trigger] perm[x]], perm[x], ws[#[trigger] perm[y]], perm[y])
}

/// The works in the order of `perm`.
pub open spec fn arranged(ws: Seq<WorkModel>, perm: Seq<int>) -> Seq<WorkModel> {
    perm.map_values(|k: int| ws[k])
}

proof fn lemma_before_transitive(a: WorkModel, i: int, b: WorkModel, j: int, c: WorkModel, k: int)
    requires
        work_before(a, i, b, j),
        work_before(b, j, c, k),
    ensures
        work_before(a, i, c, k),
{
    if a.last_active_ms == b.last_active_ms && b.last_active_ms == c.last_active_ms && a.total_time_ms == b.total_time_ms
        && b.total_time_ms == c.total_time_ms {
        if lex_lt(a.identity, b.identity) && lex_lt(b.identity, c.identity) {
            lemma_lex_transitive(a.identity, b.identity, c.identity);
        }
    }
}

proof fn lemma_before_total(a: WorkModel, i: int, b: WorkModel, j: int)
    requires
        i != j,
    ensures
        work_before(a, i, b, j) || work_before(b, j, a, i),
        !(work_before(a, i, b, j) && work_before(b, j, a, i)),
{
    lemma_lex_total(a.identity, b.identity);
    lemma_lex_asymmetric(a.identity, b.identity);
    lemma_lex_irreflexive(a.identity);
}

fn work_before_exec(a: &Work, i: usize, b: &Work, j: usize) -> (r: bool)
    ensures
        r == work_before(a@, i as int, b@, j as int),
{
    if a.last_active_ms != b.last_active_ms {
        return a.last_active_ms > b.last_active_ms;
    }
    if a.total_time_ms != b.total_time_ms {
        return a.total_time_ms > b.total_time_ms;
    }
    if str_less(a.identity.as_str(), b.identity.as_str()) {
        return true;
    }
    if !str_eq(a.identity.as_str(), b.identity.as_str()) {
        return false;
    }
    i < j
}

/// A copy of a work.
fn copy_work(w: &Work) -> (r: Work)
    ensures
        r@ == w@,
{
    let mut ivs: Vec<WorkInterval> = Vec::new();
    let mut i: usize = 0;
    while i < w.intervals.len()
        invariant
            i <= w.intervals@.len(),
            interval_views(ivs@) == interval_views(w.intervals@).take(i as int),
        decreases w.intervals@.len() - i,
    {
        let ghost before = interval_views(ivs@);
        ivs.push(copy_interval(&w.intervals[i]));
        assert(interval_views(ivs@) =~= before.push(w.intervals@[i as int]@));
        i = i + 1;
        assert(interval_views(ivs@) =~= interval_views(w.intervals@).take(i as int));
    }
    assert(interval_views(w.intervals@).take(w.intervals@.len() as int) =~= interval_views(w.intervals@));
    let r = Work {
        identity: w.identity.clone(),
        identity_kind: w.identity_kind,
        intervals: ivs,
        total_time_ms: w.total_time_ms,
        urls: w.urls.clone(),
        documents: w.documents.clone(),
        titles: w.titles.clone(),
        apps: w.apps.clone(),
        has_production: w.has_production,
        keys: w.keys,
        clicks: w.clicks,
        scrolls: w.scrolls,
        attached_saves: w.attached_saves,
        last_active_ms: w.last_active_ms,
        session_count_override: w.session_count_override,
    };
    assert(views(r.urls@) =~= views(w.urls@));
    assert(views(r.documents@) =~= views(w.documents@));
    assert(views(r.titles@) =~= views(w.titles@));
    assert(views(r.apps@) =~= views(w.apps@));
    r
}

/// The works in the order they are shown: most recent first, then most
/// time, then by name, ties in their given order.
fn work_order(ws: &Vec<Work>) -> (order: Vec<usize>)
    ensures
        stable_order(work_views(ws@), index_ints(order@)),
{
    let ghost wv = work_views(ws@);
    let n = ws.len();
    let mut used: Vec<bool> = Vec::new();
    let mut i: usize = 0;
    while i < n
        invariant
            i <= n,
            used@.len() == i,
            forall|k: int| 0 <= k < i ==> !(#[trigger] used@[k]),
        decreases n - i,
    {
        used.push(false);
        i = i + 1;
    }
    let mut out: Vec<usize> = Vec::new();
    let ghost mut perm: Seq<int> = Seq::empty();
    let mut step: usize = 0;
    while step < n
        invariant
            step <= n,
            n == ws@.len(),
            wv == work_views(ws@),
            used@.len() == n,
            perm.len() == step,
            index_ints(out@) == perm,
            forall|k: int| 0 <= k < perm.len() ==> 0 <= #[trigger] perm[k] < n,
            perm.no_duplicates(),
            forall|k: int| 0 <= k < n ==> (#[trigger] used@[k] <==> perm.contains(k)),
            forall|x: int, y: int| 0 <= x < y < perm.len() ==> work_before(wv[#[trigger] perm[x]], perm[x], wv[#[trigger] perm[y]], perm[y]),
            forall|x: int, k: int| 0 <= x < perm.len() && 0 <= k < n && !used@[k] ==> work_before(wv[#[trigger] perm[x]], perm[x], #[trigger] wv[k], k),
        decreases n - step,
    {
        // The first of the works not yet placed.
        let mut best: usize = n;
        let mut j: usize = 0;
        while j < n
            invariant
                j <= n,
                n == ws@.len(),
                wv == work_views(ws@),
                used@.len() == n,
                best == n || (best < j && !used@[best as int]),
                best == n ==> forall|k: int| 0 <= k < j ==> #[trigger] used@[k],
                best < n ==> forall|k: int| 0 <= k < j && !used@[k] && k != best ==> work_before(wv[best as int], best as int, #[trigger] wv[k], k),
            decreases n - j,
        {
            if !used[j] {
                if best == n {
                    best = j;
                } else if work_before_exec(&ws[j], j, &ws[best], best) {
                    proof {
                        assert forall|k: int| 0 <= k < j + 1 && !used@[k] && k != j implies work_before(wv[j as int], j as int, #[trigger] wv[k], k) by {
                            if k != best {
                                lemma_before_transitive(wv[j as int], j as int, wv[best as int], best as int, wv[k], k);
                            }
                        }
                    }
                    best = j;
                } else {
                    proof {
                        lemma_before_total(wv[j as int], j as int, wv[best as int], best as int);
                    }
                }
            }
            j = j + 1;
        }
        proof {
            if best == n {
                assert(perm.len() < n);
                assert forall|k: int| 0 <= k < n implies perm.contains(k) by {
                    assert(used@[k]);
                }
                // Every position is placed: more places than the permutation holds.
                let m = Seq::new(n as nat, |k: int| k);
                assert forall|k: int| 0 <= k < m.len() implies perm.contains(#[trigger] m[k]) by {}
                assert(m.no_duplicates());
                m.unique_seq_to_set();
                perm.unique_seq_to_set();
                assert(m.to_set().subset_of(perm.to_set()));
                vstd::set_lib::lemma_len_subset(m.to_set(), perm.to_set());
                assert(false);
            }
        }
        let ghost before = out@;
        out.push(best);
        used.set(best, true);
        proof {
            let p2 = perm.push(best as int);
            assert(!perm.contains(best as int));
            assert(index_ints(out@) =~= index_ints(before).push(best as int));
            assert forall|x: int, y: int| 0 <= x < y < p2.len() implies work_before(wv[#[trigger] p2[x]], p2[x], wv[#[trigger] p2[y]], p2[y]) by {
                if y == perm.len() {
                    assert(p2[y] == best as int);
                }
            }
            assert forall|x: int, k: int| 0 <= x < p2.len() && 0 <= k < n && !used@[k] implies work_before(wv[#[trigger] p2[x]], p2[x], #[trigger] wv[k], k) by {
                if x == perm.len() {
                    assert(k != best);
                }
            }
            assert forall|k: int| 0 <= k < n implies (#[trigger] used@[k] <==> p2.contains(k)) by {
                if k == best {
                    assert(p2[perm.len() as int] == k);
                } else if p2.contains(k) {
                    let x = choose|x: int| 0 <= x < p2.len() && p2[x] == k;
                    assert(perm[x] == k);
                }
            }
            perm = p2;
        }
        step = step + 1;
    }
    proof {
        assert(stable_order(wv, perm));
    }
    out
}

/// Positions as integers.
pub open spec fn index_ints(v: Seq<usize>) -> Seq<int> {
    v.map_values(|k: usize| k as int)
}

/// The works shown most recent first, then by time, then by name, ties
/// kept in their order.
pub fn order_works(ws: &Vec<Work>) -> (r: Vec<Work>)
    ensures
        exists|perm: Seq<int>| stable_order(work_views(ws@), perm) && work_views(r@) == arranged(work_views(ws@), perm),
{
    let (r, order) = order_works_with(ws);
    r
}

fn order_works_with(ws: &Vec<Work>) -> (r: (Vec<Work>, Vec<usize>))
    ensures
        stable_order(work_views(ws@), index_ints(r.1@)),
        work_views(r.0@) == arranged(work_views(ws@), index_ints(r.1@)),
{
    let ghost wv = work_views(ws@);
    let order = work_order(ws);
    let ghost perm = index_ints(order@);
    let mut out: Vec<Work> = Vec::new();
    let mut k: usize = 0;
    while k < order.len()
        invariant
            k <= order@.len(),
            wv == work_views(ws@),
            perm == index_ints(order@),
            stable_order(wv, perm),
            work_views(out@) == arranged(wv, perm.take(k as int)),
        decreases order@.len() - k,
    {
        assert(perm[k as int] == order@[k as int] as int);
        let w = copy_work(&ws[order[k]]);
        let ghost before = work_views(out@);
        out.push(w);
        assert(work_views(out@) =~= before.push(wv[perm[k as int]]));
        assert(perm.take(k + 1) =~= perm.take(k as int).push(perm[k as int]));
        assert(arranged(wv, perm.take(k + 1)) =~= arranged(wv, perm.take(k as int)).push(wv[perm[k as int]]));
        k = k + 1;
    }
    assert(perm.take(order@.len() as int) =~= perm);
    (out, order)
}

/// The position at which work `i` of the root order is shown.
pub open spec fn shown_position(perm: Seq<int>, i: int) -> int {
    choose|k: int| 0 <= k < perm.len() && perm[k] == i
}

/// The proposals with each work named by its shown position.
pub open spec fn relabeled(ps: Seq<MergeProposal>, perm: Seq<int>) -> Seq<MergeProposal> {
    ps.map_values(|p: MergeProposal| MergeProposal {
        work_a: shown_position(perm, p.work_a as int) as usize,
        work_b: shown_position(perm, p.work_b as int) as usize,
        shared_sittings: p.shared_sittings,
    })
}

/// Renames each proposal's works by the positions the works are shown at.
fn relabel_proposals(ps: &Vec<MergeProposal>, order: &Vec<usize>, Ghost(n): Ghost<nat>) -> (r: Vec<MergeProposal>)
    requires
        order@.len() == n,
        index_ints(order@).no_duplicates(),
        forall|k: int| 0 <= k < n ==> (#[trigger] order@[k]) < n,
        forall|k: int| 0 <= k < ps@.len() ==> (#[trigger] ps@[k]).work_a < n && ps@[k].work_b < n,
    ensures
        r@ == relabeled(ps@, index_ints(order@)),
        forall|k: int| 0 <= k < r@.len() ==> (#[trigger] r@[k]).work_a < n && r@[k].work_b < n,
{
    let ghost perm = index_ints(order@);
    let n_exec = order.len();
    let mut pos: Vec<usize> = Vec::new();
    let mut i: usize = 0;
    while i < n_exec
        invariant
            i <= n_exec,
            n_exec == order@.len(),
            pos@.len() == i,
        decreases n_exec - i,
    {
        pos.push(0);
        i = i + 1;
    }
    let mut k: usize = 0;
    while k < n_exec
        invariant
            k <= n_exec,
            n_exec == order@.len(),
            n_exec == n,
            perm == index_ints(order@),
            pos@.len() == n_exec,
            forall|j: int| 0 <= j < n ==> (#[trigger] order@[j]) < n,
            perm.no_duplicates(),
            forall|j: int| 0 <= j < k ==> pos@[#[trigger] order@[j] as int] == j,
        decreases n_exec - k,
    {
        let ghost before = pos@;
        pos.set(order[k], k);
        proof {
            assert forall|j: int| 0 <= j < k + 1 implies pos@[#[trigger] order@[j] as int] == j by {
                if j < k {
                    assert(perm[j] != perm[k as int]);
                }
            }
        }
        k = k + 1;
    }
    proof {
        assert forall|x: int| 0 <= x < perm.len() implies 0 <= #[trigger] perm[x] < n by {}
        lemma_perm_covers(perm, n as int);
    }
    let mut out: Vec<MergeProposal> = Vec::new();
    let mut j: usize = 0;
    while j < ps.len()
        invariant
            j <= ps@.len(),
            n_exec == n,
            perm == index_ints(order@),
            pos@.len() == n,
            perm.len() == n,
            perm.no_duplicates(),
            forall|q: int| 0 <= q < n ==> (#[trigger] order@[q]) < n,
            forall|q: int| 0 <= q < n ==> pos@[#[trigger] order@[q] as int] == q,
            forall|i2: int| 0 <= i2 < n ==> #[trigger] perm.contains(i2),
            forall|q: int| 0 <= q < ps@.len() ==> (#[trigger] ps@[q]).work_a < n && ps@[q].work_b < n,
            out@ == relabeled(ps@.take(j as int), perm),
            forall|q: int| 0 <= q < out@.len() ==> (#[trigger] out@[q]).work_a < n && out@[q].work_b < n,
        decreases ps@.len() - j,
    {
        let p = &ps[j];
        let a = pos[p.work_a];
        let b = pos[p.work_b];
        proof {
            assert(perm.contains(p.work_a as int));
            let ka = choose|x: int| 0 <= x < perm.len() && perm[x] == p.work_a as int;
            assert(pos@[order@[ka] as int] == ka);
            let sa = shown_position(perm, p.work_a as int);
            assert(0 <= sa < perm.len() && perm[sa] == p.work_a as int);
            assert(sa == ka);
            assert(perm.contains(p.work_b as int));
            let kb = choose|x: int| 0 <= x < perm.len() && perm[x] == p.work_b as int;
            assert(pos@[order@[kb] as int] == kb);
            let sb = shown_position(perm, p.work_b as int);
            assert(0 <= sb < perm.len() && perm[sb] == p.work_b as int);
            assert(sb == kb);
        }
        let ghost before = out@;
        out.push(MergeProposal { work_a: a, work_b: b, shared_sittings: p.shared_sittings });
        assert(ps@.take(j + 1) =~= ps@.take(j as int).push(ps@[j as int]));
        assert(out@ =~= relabeled(ps@.take(j + 1), perm));
        j = j + 1;
    }
    assert(ps@.take(ps@.len() as int) =~= ps@);
    out
}

// ── Grouping ───────────────────────────────────────────────────────────────

/// The inputs the grouping rules can count: the intervals' counters sum
/// within their types.
pub open spec fn grouping_readable(
    ivs: Seq<IntervalModel>,
    same: Seq<(Seq<char>, Seq<char>)>,
    named: Seq<(Seq<char>, Seq<char>)>,
) -> bool {
    &&& totals_fit(ivs)
}

/// The works, one for each group that makes a work, in root order.
pub open spec fn grouped_works(
    ivs: Seq<IntervalModel>,
    d: Seq<(Seq<char>, Seq<char>)>,
    named: Seq<(Seq<char>, Seq<char>)>,
) -> Seq<WorkModel> {
    work_roots(ivs, d).map_values(|g: Seq<char>| work_model(ivs, d, named, g))
}

/// One trace line for each work, in root order.
pub open spec fn work_trace(
    ivs: Seq<IntervalModel>,
    d: Seq<(Seq<char>, Seq<char>)>,
    named: Seq<(Seq<char>, Seq<char>)>,
) -> Seq<Seq<char>> {
    work_roots(ivs, d).map_values(
        |g: Seq<char>| work_line(work_model(ivs, d, named, g).identity, g, work_members(ivs, d, g).len()),
    )
}

/// The grouping trace: the links that joined groups, the attachments,
/// and the works formed; nothing when there was no attention.
pub open spec fn grouping_trace(
    ivs: Seq<IntervalModel>,
    d: Seq<(Seq<char>, Seq<char>)>,
    named: Seq<(Seq<char>, Seq<char>)>,
) -> Seq<Seq<char>> {
    if ivs.len() == 0 {
        Seq::empty()
    } else {
        link_trace(structural_links(ivs, d)) + attach_trace(ivs, d) + work_trace(ivs, d, named)
    }
}

/// Groups intervals into purpose-level works and merge proposals, with
/// the trace of every structural link, attachment and work. The works are
/// shown most recent first, then by time, then by name; the proposals
/// pair works by the positions they are shown at.
#[verifier::rlimit(60)]
pub fn group_works_traced(intervals: &[WorkInterval], declarations: &Declarations) -> (r: (Vec<Work>, Vec<MergeProposal>, Vec<String>))
    requires
        grouping_readable(
            interval_views(intervals@),
            pair_texts(declarations.same_work@),
            pair_texts(declarations.named@),
        ),
    ensures
        exists|perm: Seq<int>|
            stable_order(
                grouped_works(interval_views(intervals@), pair_texts(declarations.same_work@), pair_texts(declarations.named@)),
                perm,
            ) && work_views(r.0@) == arranged(
                grouped_works(interval_views(intervals@), pair_texts(declarations.same_work@), pair_texts(declarations.named@)),
                perm,
            ) && r.1@ == relabeled(merge_proposals(interval_views(intervals@), pair_texts(declarations.same_work@)), perm),
        views(r.2@) == grouping_trace(
            interval_views(intervals@),
            pair_texts(declarations.same_work@),
            pair_texts(declarations.named@),
        ),
{
    let ghost ivs = interval_views(intervals@);
    let ghost d = pair_texts(declarations.same_work@);
    let ghost nm = pair_texts(declarations.named@);
    let (pages, pk, order) = pages_of(intervals);
    let ghost kl = views(pages@);
    let urls = page_texts_of(intervals, &pages, &pk, TextField::Urls);
    let documents = page_texts_of(intervals, &pages, &pk, TextField::Documents);
    let titles = page_texts_of(intervals, &pages, &pk, TextField::Titles);
    let apps = page_texts_of(intervals, &pages, &pk, TextField::App);
    let (roots, link_lines) = structure_of(intervals, &declarations.same_work, &pages, &order, &titles);
    let (group_texts, gp) = index_texts(&roots);
    let ghost gs = views(group_texts@);
    proof {
        assert(views(roots@) =~= kl.map_values(|p: Seq<char>| page_root(ivs, d, p)));
        assert(gs == groups(ivs, d));
    }
    let mut gi: Vec<usize> = Vec::new();
    let mut i: usize = 0;
    while i < intervals.len()
        invariant
            i <= intervals@.len(),
            ivs == interval_views(intervals@),
            kl == views(pages@),
            kl == page_list(ivs),
            pk@.len() == intervals@.len(),
            forall|t: int| 0 <= t < intervals@.len() ==> (#[trigger] pk@[t]) < pages@.len() && pages@[pk@[t] as int]@ == interval_keys(ivs)[t],
            gp@.len() == roots@.len(),
            roots@.len() == pages@.len(),
            forall|q: int| 0 <= q < roots@.len() ==> (#[trigger] gp@[q]) < group_texts@.len() && group_texts@[gp@[q] as int]@ == roots@[q]@,
            forall|q: int| 0 <= q < pages@.len() ==> (#[trigger] roots@[q])@ == page_root(ivs, d, pages@[q]@),
            gi@.len() == i,
            forall|t: int| 0 <= t < i ==> (#[trigger] gi@[t]) < group_texts@.len() && gs[gi@[t] as int] == interval_roots(ivs, d)[t],
            gs == views(group_texts@),
        decreases intervals@.len() - i,
    {
        let g = gp[pk[i]];
        let ghost before = gi@;
        gi.push(g);
        proof {
            assert forall|t: int| 0 <= t < i + 1 implies (#[trigger] gi@[t]) < group_texts@.len() && gs[gi@[t] as int] == interval_roots(ivs, d)[t] by {
                if t < i {
                    assert(gi@[t] == before[t]);
                } else {
                    assert(gs[g as int] == roots@[pk@[i as int] as int]@);
                }
            }
        }
        i = i + 1;
    }
    let ng = group_texts.len();
    proof {
        assert(group_of_intervals(ivs, d, gs, gi@));
        assert(group_of_pages(ivs, d, gs, gp@)) by {
            assert forall|q: int| 0 <= q < gp@.len() implies (#[trigger] gp@[q]) < gs.len() && gs[gp@[q] as int] == page_root(ivs, d, page_list(ivs)[q]) by {
                assert(kl[q] == pages@[q]@);
            }
        }
        assert(page_of_intervals(ivs, pk@));
    }
    let sits = sittings_from_intervals(intervals);
    let est = establishment(intervals, &sits, &gi, ng, Ghost(gs), Ghost(d));
    let wg = work_groups_of(intervals, &gp, &gi, &est, ng, Ghost(gs), Ghost(d));
    let quar = quarantine_of(intervals, &sits, &pk, &gp, &gi, &est, &wg, ng, Ghost(gs), Ghost(d));
    proof {
        assert(grouping_frame(ivs, d, kl, gs, gp@, gi@, est@, wg@, quar@));
    }
    let (pairs, attach_lines) = attach_phase(intervals, &sits, &pages, &group_texts, &gp, &gi, &est, &wg, &quar, Ghost(d));
    let cps = co_presence(intervals, &sits, &gi, &est, ng, Ghost(gs), Ghost(d));
    let wl = work_list(&wg, Ghost(gs), Ghost(ivs), Ghost(d));
    let ghost ws = wl@.map_values(|h: usize| gs[h as int]);
    proof {
        assert(ws == work_roots(ivs, d));
    }
    let proposals = proposals_of(&cps, &wl, ng, Ghost(ivs), Ghost(d), Ghost(gs), Ghost(ws));
    let texts = PageTexts { urls, documents, titles, apps };
    let mut works: Vec<Work> = Vec::new();
    let mut work_lines: Vec<String> = Vec::new();
    let mut x: usize = 0;
    while x < wl.len()
        invariant
            x <= wl@.len(),
            ivs == interval_views(intervals@),
            d == pair_texts(declarations.same_work@),
            nm == pair_texts(declarations.named@),
            grouping_readable(ivs, d, nm),
            kl == views(pages@),
            gs == views(group_texts@),
            grouping_frame(ivs, d, kl, gs, gp@, gi@, est@, wg@, quar@),
            page_of_intervals(ivs, pk@),
            sitting_views(sits@) == sittings(ivs),
            page_texts_hold(ivs, texts.urls@, TextField::Urls),
            page_texts_hold(ivs, texts.documents@, TextField::Documents),
            page_texts_hold(ivs, texts.titles@, TextField::Titles),
            page_texts_hold(ivs, texts.apps@, TextField::App),
            forall|q: usize, w: usize| q < pages@.len() && w < group_texts@.len() ==> #[trigger] has_pair(pairs@, q, w) == attached(ivs, d, pages@[q as int]@, group_texts@[w as int]@),
            ws == wl@.map_values(|h: usize| gs[h as int]),
            ws == work_roots(ivs, d),
            forall|y: int| 0 <= y < wl@.len() ==> (#[trigger] wl@[y]) < gs.len(),
            work_views(works@) == grouped_works(ivs, d, nm).take(x as int),
            views(work_lines@) == work_trace(ivs, d, nm).take(x as int),
        decreases wl@.len() - x,
    {
        let h = wl[x];
        let ghost g = gs[h as int];
        let mut flags: Vec<bool> = Vec::new();
        let mut q: usize = 0;
        while q < pages.len()
            invariant
                q <= pages@.len(),
                h < gs.len(),
                g == gs[h as int],
                kl == views(pages@),
                gs == views(group_texts@),
                grouping_frame(ivs, d, kl, gs, gp@, gi@, est@, wg@, quar@),
                forall|q2: usize, w: usize| q2 < pages@.len() && w < group_texts@.len() ==> #[trigger] has_pair(pairs@, q2, w) == attached(ivs, d, pages@[q2 as int]@, group_texts@[w as int]@),
                flags@.len() == q,
                forall|q2: int| 0 <= q2 < q ==> (#[trigger] flags@[q2]) == is_member(ivs, d, g, pages@[q2]@),
            decreases pages@.len() - q,
        {
            let own = gp[q] == h && !quar[q];
            let att = pair_in(&pairs, q, h);
            proof {
                assert(kl[q as int] == pages@[q as int]@);
                assert(gs[gp@[q as int] as int] == page_root(ivs, d, kl[q as int]));
                if gp@[q as int] != h {
                    assert(gs[gp@[q as int] as int] != gs[h as int]);
                }
                assert(quar@[q as int] == quarantined(ivs, d, kl[q as int]));
                assert(has_pair(pairs@, q, h) == attached(ivs, d, pages@[q as int]@, group_texts@[h as int]@));
            }
            let ghost before = flags@;
            flags.push(own || att);
            proof {
                assert forall|q2: int| 0 <= q2 < q + 1 implies (#[trigger] flags@[q2]) == is_member(ivs, d, g, pages@[q2]@) by {
                    if q2 < q {
                        assert(flags@[q2] == before[q2]);
                    }
                }
            }
            q = q + 1;
        }
        proof {
            assert(ws[x as int] == g);
            assert(work_roots(ivs, d).contains(g));
            groups(ivs, d).filter_lemma(|g2: Seq<char>| work_group(ivs, d, g2));
            lemma_work_has_member(ivs, d, g);
        }
        let (w, line) = build_work(intervals, &pages, &pk, &texts, &sits, &flags, &declarations.named, &group_texts[h], Ghost(d));
        let ghost wb = work_views(works@);
        let ghost lb = views(work_lines@);
        works.push(w);
        work_lines.push(line);
        proof {
            assert(work_views(works@) =~= wb.push(grouped_works(ivs, d, nm)[x as int]));
            assert(grouped_works(ivs, d, nm).take(x + 1) =~= grouped_works(ivs, d, nm).take(x as int).push(grouped_works(ivs, d, nm)[x as int]));
            assert(views(work_lines@) =~= lb.push(work_trace(ivs, d, nm)[x as int]));
            assert(work_trace(ivs, d, nm).take(x + 1) =~= work_trace(ivs, d, nm).take(x as int).push(work_trace(ivs, d, nm)[x as int]));
        }
        x = x + 1;
    }
    proof {
        assert(grouped_works(ivs, d, nm).take(wl@.len() as int) =~= grouped_works(ivs, d, nm));
        assert(work_trace(ivs, d, nm).take(wl@.len() as int) =~= work_trace(ivs, d, nm));
    }
    let (shown, order) = order_works_with(&works);
    proof {
        assert(work_views(works@).len() == works@.len());
        assert forall|k: int| 0 <= k < proposals@.len() implies (#[trigger] proposals@[k]).work_a < works@.len()
            && proposals@[k].work_b < works@.len() by {
            lemma_proposals_pair_distinct_works(ivs, d, k);
        }
        assert forall|k: int| 0 <= k < order@.len() implies (#[trigger] order@[k]) < works@.len() by {
            assert(index_ints(order@)[k] == order@[k] as int);
        }
    }
    let proposals = relabel_proposals(&proposals, &order, Ghost(works@.len() as nat));
    proof {
        let perm = index_ints(order@);
        assert(work_views(works@) == grouped_works(ivs, d, nm));
        assert(stable_order(grouped_works(ivs, d, nm), perm));
        assert(work_views(shown@) == arranged(grouped_works(ivs, d, nm), perm));
        assert(proposals@ == relabeled(merge_proposals(ivs, d), perm));
    }
    if intervals.len() == 0 {
        return (shown, proposals, Vec::new());
    }
    let mut trace = link_lines;
    let mut more = attach_lines;
    let mut last = work_lines;
    trace.append(&mut more);
    trace.append(&mut last);
    (shown, proposals, trace)
}

/// Groups intervals into purpose-level works and merge proposals.
///
/// Deterministic: the same intervals and declarations always give the
/// same works, in the same order.
pub fn group_works(intervals: &[WorkInterval], declarations: &Declarations) -> (r: (Vec<Work>, Vec<MergeProposal>))
    requires
        grouping_readable(
            interval_views(intervals@),
            pair_texts(declarations.same_work@),
            pair_texts(declarations.named@),
        ),
    ensures
        exists|perm: Seq<int>|
            stable_order(
                grouped_works(interval_views(intervals@), pair_texts(declarations.same_work@), pair_texts(declarations.named@)),
                perm,
            ) && work_views(r.0@) == arranged(
                grouped_works(interval_views(intervals@), pair_texts(declarations.same_work@), pair_texts(declarations.named@)),
                perm,
            ) && r.1@ == relabeled(merge_proposals(interval_views(intervals@), pair_texts(declarations.same_work@)), perm),
{
    let (works, proposals, _trace) = group_works_traced(intervals, declarations);
    (works, proposals)
}

/// Whether the grouping rules can count these inputs: the intervals'
/// counters sum within their types.
pub fn grouping_inputs_readable(intervals: &[WorkInterval], declarations: &Declarations) -> (r: bool)
    ensures
        r == grouping_readable(
            interval_views(intervals@),
            pair_texts(declarations.same_work@),
            pair_texts(declarations.named@),
        ),
{
    let ghost ivs = interval_views(intervals@);
    // Counters.
    proof {
        assert forall|f: spec_fn(IntervalModel) -> int| f == iv_dwell() || f == iv_keys() || f == iv_clicks() || f == iv_scrolls()
            || f == iv_saves() implies nonneg_terms(ivs, f) by {
            assert forall|j: int| 0 <= j < ivs.len() implies f(#[trigger] ivs[j]) >= 0 by {
                assert(ivs[j] == intervals@[j]@);
            }
        }
        assert(ivs.take(ivs.len() as int) =~= ivs);
    }
    let max64: u128 = 18446744073709551615;
    let maxsz: u128 = usize::MAX as u128;
    let mut dwell: u128 = 0;
    let mut keys: u128 = 0;
    let mut clicks: u128 = 0;
    let mut scrolls: u128 = 0;
    let mut saves: u128 = 0;
    let mut j: usize = 0;
    assert(ivs.take(0) =~= Seq::<IntervalModel>::empty());
    while j < intervals.len()
        invariant
            j <= intervals@.len(),
            ivs == interval_views(intervals@),
            max64 == u64::MAX,
            maxsz == usize::MAX,
            nonneg_terms(ivs, iv_dwell()),
            nonneg_terms(ivs, iv_keys()),
            nonneg_terms(ivs, iv_clicks()),
            nonneg_terms(ivs, iv_scrolls()),
            nonneg_terms(ivs, iv_saves()),
            dwell == seq_sum(ivs.take(j as int), iv_dwell()),
            keys == seq_sum(ivs.take(j as int), iv_keys()),
            clicks == seq_sum(ivs.take(j as int), iv_clicks()),
            scrolls == seq_sum(ivs.take(j as int), iv_scrolls()),
            saves == seq_sum(ivs.take(j as int), iv_saves()),
            dwell <= max64,
            keys <= max64,
            clicks <= max64,
            scrolls <= max64,
            saves <= maxsz,
        decreases intervals@.len() - j,
    {
        let iv = &intervals[j];
        proof {
            assert(ivs[j as int] == iv@);
            assert(ivs.take(j + 1).drop_last() =~= ivs.take(j as int));
            assert(ivs.take(j + 1).last() == iv@);
            lemma_sum_take(ivs, j + 1, iv_dwell());
            lemma_sum_take(ivs, j + 1, iv_keys());
            lemma_sum_take(ivs, j + 1, iv_clicks());
            lemma_sum_take(ivs, j + 1, iv_scrolls());
            lemma_sum_take(ivs, j + 1, iv_saves());
        }
        dwell = dwell + iv.total_dwell_ms as u128;
        keys = keys + iv.keys as u128;
        clicks = clicks + iv.clicks as u128;
        scrolls = scrolls + iv.scrolls as u128;
        saves = saves + iv.attached_saves as u128;
        if dwell > max64 || keys > max64 || clicks > max64 || scrolls > max64 || saves > maxsz {
            return false;
        }
        j = j + 1;
    }
    true
}

// ── Laws ───────────────────────────────────────────────────────────────────

/// Ambient pages join nothing: a quarantined page is a member of no work.
pub proof fn lemma_ambient_joins_no_work(ivs: Seq<IntervalModel>, d: Seq<(Seq<char>, Seq<char>)>, g: Seq<char>, p: Seq<char>)
    requires
        quarantined(ivs, d, p),
    ensures
        !is_member(ivs, d, g, p),
        !work_members(ivs, d, g).contains(p),
{
    reveal(attached);
    let f = |q: Seq<char>| is_member(ivs, d, g, q);
    let m = page_list(ivs).filter(f);
    assert(work_members(ivs, d, g) == m);
    if m.contains(p) {
        let i = choose|i: int| 0 <= i < m.len() && m[i] == p;
        page_list(ivs).lemma_filter_pred(f, i);
    }
}

/// The links are transitive.
pub proof fn lemma_linked_transitive(es: Seq<Link>, x: Seq<char>, y: Seq<char>, z: Seq<char>)
    requires
        linked(es, x, y),
        linked(es, y, z),
    ensures
        linked(es, x, z),
    decreases es.len(),
{
    if es.len() > 0 {
        let p = es.drop_last();
        let a = es.last().0;
        let b = es.last().1;
        if linked(p, x, y) {
            if linked(p, y, z) {
                lemma_linked_transitive(p, x, y, z);
            } else if linked(p, y, a) && linked(p, b, z) {
                lemma_linked_transitive(p, x, y, a);
            } else {
                lemma_linked_transitive(p, x, y, b);
            }
        } else if linked(p, x, a) && linked(p, b, y) {
            if linked(p, y, z) {
                lemma_linked_transitive(p, b, y, z);
            } else if linked(p, y, a) && linked(p, b, z) {
            } else {
                lemma_linked_transitive(p, x, a, z);
            }
        } else {
            if linked(p, y, z) {
                lemma_linked_transitive(p, a, y, z);
            } else if linked(p, y, a) && linked(p, b, z) {
                lemma_linked_transitive(p, x, b, z);
            } else {
            }
        }
    }
}

/// A link joins its ends.
pub proof fn lemma_link_joins_ends(es: Seq<Link>, k: int)
    requires
        0 <= k < es.len(),
    ensures
        linked(es, es[k].0, es[k].1),
    decreases es.len(),
{
    let p = es.drop_last();
    if k == es.len() - 1 {
        lemma_linked_reflexive(p, es[k].0);
        lemma_linked_reflexive(p, es[k].1);
    } else {
        assert(p[k] == es[k]);
        lemma_link_joins_ends(p, k);
    }
}

/// Every node of the links, pages first.
pub open spec fn node_list(pages: Seq<Seq<char>>, es: Seq<Link>) -> Seq<Seq<char>> {
    pages + es.map_values(|e: Link| seq![e.0, e.1]).flatten()
}

proof fn lemma_node_list(pages: Seq<Seq<char>>, es: Seq<Link>, z: Seq<char>)
    ensures
        node_list(pages, es).contains(z) <==> is_node(pages, es, z),
    decreases es.len(),
{
    let m = es.map_values(|e: Link| seq![e.0, e.1]);
    if es.len() > 0 {
        let p = es.drop_last();
        lemma_node_list(pages, p, z);
        assert(m =~= p.map_values(|e: Link| seq![e.0, e.1]).push(seq![es.last().0, es.last().1]));
        p.map_values(|e: Link| seq![e.0, e.1]).lemma_flatten_push(seq![es.last().0, es.last().1]);
        let fp = p.map_values(|e: Link| seq![e.0, e.1]).flatten();
        assert(node_list(pages, es) =~= node_list(pages, p) + seq![es.last().0, es.last().1]);
        if touches(p, z) {
            let k = choose|k: int| 0 <= k < p.len() && (p[k].0 == z || p[k].1 == z);
            assert(es[k] == p[k]);
        }
        if touches(es, z) && !touches(p, z) {
            let k = choose|k: int| 0 <= k < es.len() && (es[k].0 == z || es[k].1 == z);
            if k < p.len() {
                assert(es[k] == p[k]);
            }
            assert(k == es.len() - 1);
        }
        if node_list(pages, es).contains(z) && !node_list(pages, p).contains(z) {
            let i = choose|i: int| 0 <= i < node_list(pages, es).len() && node_list(pages, es)[i] == z;
            let n = es.len() - 1;
            assert(es[n].0 == z || es[n].1 == z);
        }
        if node_list(pages, p).contains(z) {
            let i = choose|i: int| 0 <= i < node_list(pages, p).len() && node_list(pages, p)[i] == z;
            assert(node_list(pages, es)[i] == z);
        }
        if is_node(pages, es, z) && !is_node(pages, p, z) {
            let n = es.len() - 1;
            let l = node_list(pages, p).len() as int;
            if es[n].0 == z {
                assert(node_list(pages, es)[l] == z);
            } else {
                assert(node_list(pages, es)[l + 1] == z);
            }
        }
    } else {
        assert(m.flatten() =~= Seq::<Seq<char>>::empty());
        assert(node_list(pages, es) =~= pages);
    }
}

/// Every node has a root.
pub proof fn lemma_root_exists(pages: Seq<Seq<char>>, es: Seq<Link>, x: Seq<char>)
    requires
        is_node(pages, es, x),
    ensures
        is_root(pages, es, x, group_root(pages, es, x)),
{
    let f = |z: Seq<char>| linked(es, x, z);
    let nl = node_list(pages, es);
    let c = nl.filter(f);
    lemma_node_list(pages, es, x);
    lemma_linked_reflexive(es, x);
    let ix = choose|ix: int| 0 <= ix < nl.len() && nl[ix] == x;
    nl.lemma_filter_contains(f, ix);
    assert(c.contains(x));
    assert(c.len() > 0);
    lemma_lex_order_total();
    c.lemma_sort_by_ensures(lex_order());
    let s = sorted_texts(c);
    lemma_sorted_texts(c);
    let m = s[0];
    assert(s[0] == m);
    assert(s.contains(m));
    assert(c.contains(m));
    let im = choose|im: int| 0 <= im < c.len() && c[im] == m;
    nl.lemma_filter_pred(f, im);
    nl.lemma_filter_contains_rev(f, m);
    assert(is_node(pages, es, m)) by {
        lemma_node_list(pages, es, m);
    }
    assert(linked(es, x, m));
    assert forall|z: Seq<char>| is_node(pages, es, z) && linked(es, x, z) implies lex_le(m, z) by {
        lemma_node_list(pages, es, z);
        let iz = choose|iz: int| 0 <= iz < nl.len() && nl[iz] == z;
        nl.lemma_filter_contains(f, iz);
        assert(s.contains(z));
        let j = choose|j: int| 0 <= j < s.len() && s[j] == z;
        if j > 0 {
            assert(lex_order()(s[0], s[j]));
        } else {
            lemma_lex_irreflexive(z);
        }
    }
    assert(is_root(pages, es, x, m));
    lemma_root_unique(pages, es, x, m);
}

/// Joined nodes share one root.
pub proof fn lemma_joined_share_root(pages: Seq<Seq<char>>, es: Seq<Link>, x: Seq<char>, y: Seq<char>)
    requires
        is_node(pages, es, x),
        linked(es, x, y),
    ensures
        group_root(pages, es, x) == group_root(pages, es, y),
{
    lemma_root_exists(pages, es, x);
    let r = group_root(pages, es, x);
    lemma_linked_symmetric(es, x, y);
    lemma_linked_transitive(es, y, x, r);
    assert forall|z: Seq<char>| is_node(pages, es, z) && linked(es, y, z) implies lex_le(r, z) by {
        lemma_linked_transitive(es, x, y, z);
    }
    assert(is_root(pages, es, y, r));
    lemma_root_unique(pages, es, y, r);
}

/// Declarations are ground truth: the two subjects of a declared same-work
/// pair always fall in one structural group.
pub proof fn lemma_declared_pair_one_group(ivs: Seq<IntervalModel>, d: Seq<(Seq<char>, Seq<char>)>, k: int)
    requires
        0 <= k < d.len(),
    ensures
        page_root(ivs, d, canonical_subject(d[k].0)) == page_root(ivs, d, canonical_subject(d[k].1)),
{
    let es = structural_links(ivs, d);
    let t = token_links(page_order(ivs)).len() + title_links(ivs).len();
    let dl = declared_links(page_list(ivs), d);
    assert(es[t + k] == dl[k]);
    lemma_link_joins_ends(es, t + k);
    assert(touches(es, canonical_subject(d[k].0))) by {
        assert(es[t + k].0 == canonical_subject(d[k].0));
    }
    lemma_joined_share_root(page_list(ivs), es, canonical_subject(d[k].0), canonical_subject(d[k].1));
}

proof fn lemma_sittings_len(ivs: Seq<IntervalModel>, order: Seq<int>)
    ensures
        sittings_of(ivs, order).len() <= order.len(),
    decreases order.len(),
{
    if order.len() > 0 {
        lemma_sittings_len(ivs, order.drop_last());
    }
}

/// There are no more works, and no more sittings, than intervals.
proof fn lemma_grouping_sizes(ivs: Seq<IntervalModel>, d: Seq<(Seq<char>, Seq<char>)>)
    ensures
        work_roots(ivs, d).len() <= ivs.len(),
        sittings(ivs).len() <= ivs.len(),
{
    let ks = interval_keys(ivs);
    lemma_distinct(ks);
    lemma_sorted_texts(distinct(ks));
    let kl = page_list(ivs);
    let roots = kl.map_values(|p: Seq<char>| page_root(ivs, d, p));
    lemma_distinct(roots);
    lemma_sorted_texts(distinct(roots));
    groups(ivs, d).lemma_filter_len(|g: Seq<char>| work_group(ivs, d, g));
    lemma_start_order(ivs, ivs.len() as int);
    lemma_sittings_len(ivs, start_order(ivs, ivs.len() as int));
}

proof fn lemma_proposal_row(ivs: Seq<IntervalModel>, d: Seq<(Seq<char>, Seq<char>)>, ws: Seq<Seq<char>>, i: int, m: int)
    requires
        0 <= i,
        m <= ws.len() <= usize::MAX,
        sittings(ivs).len() <= usize::MAX,
    ensures
        forall|k: int| 0 <= k < proposal_row(ivs, d, ws, i, m).len() ==> (#[trigger] proposal_row(ivs, d, ws, i, m)[k]).work_a == i
            && i < proposal_row(ivs, d, ws, i, m)[k].work_b < ws.len() && proposal_row(ivs, d, ws, i, m)[k].shared_sittings >= PROPOSAL_SITTINGS
            && proposal_row(ivs, d, ws, i, m)[k].shared_sittings == shared_sittings(ivs, d, ws[i], ws[proposal_row(ivs, d, ws, i, m)[k].work_b as int]),
    decreases m - i,
{
    if m > i + 1 {
        lemma_proposal_row(ivs, d, ws, i, m - 1);
        let prev = proposal_row(ivs, d, ws, i, m - 1);
        let row = proposal_row(ivs, d, ws, i, m);
        let c = shared_sittings(ivs, d, ws[i], ws[m - 1]);
        sittings(ivs).lemma_filter_len(|s: SittingModel| co_present(ivs, d, s, ws[i]) && co_present(ivs, d, s, ws[m - 1]));
        assert(c <= usize::MAX);
        if c >= PROPOSAL_SITTINGS {
            let e = MergeProposal { work_a: i as usize, work_b: (m - 1) as usize, shared_sittings: c as usize };
            assert(row == prev.push(e));
            assert forall|k: int| 0 <= k < row.len() implies (#[trigger] row[k]).work_a == i && i < row[k].work_b < ws.len()
                && row[k].shared_sittings >= PROPOSAL_SITTINGS && row[k].shared_sittings == shared_sittings(ivs, d, ws[i], ws[row[k].work_b as int]) by {
                if k < prev.len() {
                    assert(row[k] == prev[k]);
                }
            }
        } else {
            assert(row == prev);
        }
    }
}

proof fn lemma_proposals_upto(ivs: Seq<IntervalModel>, d: Seq<(Seq<char>, Seq<char>)>, ws: Seq<Seq<char>>, k: int)
    requires
        k <= ws.len() <= usize::MAX,
        sittings(ivs).len() <= usize::MAX,
    ensures
        forall|j: int| 0 <= j < proposals_upto(ivs, d, ws, k).len() ==> (#[trigger] proposals_upto(ivs, d, ws, k)[j]).work_a
            < proposals_upto(ivs, d, ws, k)[j].work_b < ws.len() && proposals_upto(ivs, d, ws, k)[j].shared_sittings >= PROPOSAL_SITTINGS
            && proposals_upto(ivs, d, ws, k)[j].shared_sittings == shared_sittings(
                ivs,
                d,
                ws[proposals_upto(ivs, d, ws, k)[j].work_a as int],
                ws[proposals_upto(ivs, d, ws, k)[j].work_b as int],
            ),
    decreases k,
{
    if k > 0 {
        lemma_proposals_upto(ivs, d, ws, k - 1);
        lemma_proposal_row(ivs, d, ws, k - 1, ws.len() as int);
        let a = proposals_upto(ivs, d, ws, k - 1);
        let b = proposal_row(ivs, d, ws, k - 1, ws.len() as int);
        assert forall|j: int| 0 <= j < (a + b).len() implies (#[trigger] (a + b)[j]).work_a < (a + b)[j].work_b < ws.len()
            && (a + b)[j].shared_sittings >= PROPOSAL_SITTINGS && (a + b)[j].shared_sittings == shared_sittings(
                ivs,
                d,
                ws[(a + b)[j].work_a as int],
                ws[(a + b)[j].work_b as int],
            ) by {
            if j >= a.len() {
                assert((a + b)[j] == b[j - a.len()]);
            } else {
                assert((a + b)[j] == a[j]);
            }
        }
    }
}

/// Merge proposals are offered between two different works, in order,
/// co-present in at least two sittings; the count is that of the sittings
/// in which both established works hold at least 8% of the dwell.
pub proof fn lemma_proposals_pair_distinct_works(ivs: Seq<IntervalModel>, d: Seq<(Seq<char>, Seq<char>)>, k: int)
    requires
        ivs.len() <= usize::MAX,
        0 <= k < merge_proposals(ivs, d).len(),
    ensures
        merge_proposals(ivs, d)[k].work_a < merge_proposals(ivs, d)[k].work_b < work_roots(ivs, d).len(),
        merge_proposals(ivs, d)[k].shared_sittings >= PROPOSAL_SITTINGS,
        merge_proposals(ivs, d)[k].shared_sittings == sittings(ivs).filter(
            |s: SittingModel|
                co_present(ivs, d, s, work_roots(ivs, d)[merge_proposals(ivs, d)[k].work_a as int]) && co_present(
                    ivs,
                    d,
                    s,
                    work_roots(ivs, d)[merge_proposals(ivs, d)[k].work_b as int],
                ),
        ).len(),
{
    let ws = work_roots(ivs, d);
    lemma_grouping_sizes(ivs, d);
    lemma_proposals_upto(ivs, d, ws, ws.len() as int);
}

/// A page of a group that makes a work of its own never attaches to
/// another work: work members are sticky.
pub proof fn lemma_work_pages_stay(ivs: Seq<IntervalModel>, d: Seq<(Seq<char>, Seq<char>)>, p: Seq<char>, w: Seq<char>)
    requires
        work_group(ivs, d, page_root(ivs, d, p)),
    ensures
        !attached(ivs, d, p, w),
{
    reveal(attached);
}

/// A permutation of the first `n` positions holds every one of them.
proof fn lemma_perm_covers(p: Seq<int>, n: int)
    requires
        p.len() == n,
        p.no_duplicates(),
        forall|k: int| 0 <= k < p.len() ==> 0 <= #[trigger] p[k] < n,
    ensures
        forall|i: int| 0 <= i < n ==> #[trigger] p.contains(i),
{
    assert forall|i: int| 0 <= i < n implies #[trigger] p.contains(i) by {
        if !p.contains(i) {
            let m = Seq::new(n as nat, |k: int| k);
            assert(m.no_duplicates());
            m.unique_seq_to_set();
            p.unique_seq_to_set();
            assert(p.to_set().subset_of(m.to_set().remove(i))) by {
                assert forall|x: int| p.to_set().contains(x) implies m.to_set().remove(i).contains(x) by {
                    let k = choose|k: int| 0 <= k < p.len() && p[k] == x;
                    assert(m[x] == x);
                }
            }
            assert(m.to_set().contains(i)) by {
                assert(m[i] == i);
            }
            vstd::set_lib::lemma_len_subset(p.to_set(), m.to_set().remove(i));
            assert(false);
        }
    }
}

/// Merge proposals as shown: each names two different shown works, by the
/// positions at which they are shown, co-present in at least two sittings,
/// and its count is that of the sittings in which both of those
/// established works hold at least 8% of the dwell.
#[verifier::spinoff_prover]
#[verifier::rlimit(60)]
pub proof fn lemma_shown_proposals(
    ivs: Seq<IntervalModel>,
    d: Seq<(Seq<char>, Seq<char>)>,
    nm: Seq<(Seq<char>, Seq<char>)>,
    perm: Seq<int>,
    k: int,
)
    requires
        ivs.len() <= usize::MAX,
        stable_order(grouped_works(ivs, d, nm), perm),
        0 <= k < relabeled(merge_proposals(ivs, d), perm).len(),
    ensures
        ({
            let p = relabeled(merge_proposals(ivs, d), perm)[k];
            let ws = work_roots(ivs, d);
            &&& p.work_a < perm.len()
            &&& p.work_b < perm.len()
            &&& p.work_a != p.work_b
            &&& arranged(grouped_works(ivs, d, nm), perm)[p.work_a as int] == work_model(ivs, d, nm, ws[perm[p.work_a as int]])
            &&& arranged(grouped_works(ivs, d, nm), perm)[p.work_b as int] == work_model(ivs, d, nm, ws[perm[p.work_b as int]])
            &&& p.shared_sittings >= PROPOSAL_SITTINGS
            &&& p.shared_sittings == shared_sittings(ivs, d, ws[perm[p.work_a as int]], ws[perm[p.work_b as int]])
        }),
{
    let mp = merge_proposals(ivs, d);
    let ws = work_roots(ivs, d);
    let n = perm.len() as int;
    lemma_proposals_pair_distinct_works(ivs, d, k);
    lemma_grouping_sizes(ivs, d);
    let q = mp[k];
    assert(grouped_works(ivs, d, nm).len() == ws.len());
    assert(n <= usize::MAX);
    lemma_perm_covers(perm, n);
    assert(perm.contains(q.work_a as int));
    assert(perm.contains(q.work_b as int));
    let sa = shown_position(perm, q.work_a as int);
    let sb = shown_position(perm, q.work_b as int);
    assert(0 <= sa < n && perm[sa] == q.work_a as int);
    assert(0 <= sb < n && perm[sb] == q.work_b as int);
    let p = relabeled(mp, perm)[k];
    assert(p.work_a == sa as usize && p.work_b == sb as usize);
    assert(sa != sb);
    assert(grouped_works(ivs, d, nm)[perm[sa]] == work_model(ivs, d, nm, ws[perm[sa]]));
    assert(grouped_works(ivs, d, nm)[perm[sb]] == work_model(ivs, d, nm, ws[perm[sb]]));
    let a = ws[q.work_a as int];
    let b = ws[q.work_b as int];
    assert(sittings(ivs).filter(|s: SittingModel| co_present(ivs, d, s, a) && co_present(ivs, d, s, b))
        =~= sittings(ivs).filter(
        |s: SittingModel|
            co_present(ivs, d, s, work_roots(ivs, d)[merge_proposals(ivs, d)[k].work_a as int]) && co_present(
                ivs,
                d,
                s,
                work_roots(ivs, d)[merge_proposals(ivs, d)[k].work_b as int],
            ),
    ));
    assert(p.shared_sittings == shared_sittings(ivs, d, a, b));
    assert(p.work_a as int == sa && p.work_b as int == sb);
    assert(arranged(grouped_works(ivs, d, nm), perm)[sa] == grouped_works(ivs, d, nm)[perm[sa]]);
    assert(arranged(grouped_works(ivs, d, nm), perm)[sb] == grouped_works(ivs, d, nm)[perm[sb]]);
}

proof fn lemma_richest(ts: Seq<Seq<char>>)
    ensures
        richest_title(ts) is None <==> forall|i: int| 0 <= i < ts.len() ==> blank(#[trigger] ts[i]),
        richest_title(ts) matches Some(r) ==> ts.contains(r) && !blank(r) && forall|i: int|
            0 <= i < ts.len() && !blank(#[trigger] ts[i]) ==> ts[i].len() <= r.len(),
    decreases ts.len(),
{
    if ts.len() > 0 {
        let p = ts.drop_last();
        lemma_richest(p);
        assert forall|i: int| 0 <= i < p.len() implies #[trigger] p[i] == ts[i] by {}
        let n = ts.len() - 1;
        let t = ts[n];
        assert(ts.last() == t);
        if let Some(b) = richest_title(p) {
            let j = choose|j: int| 0 <= j < p.len() && p[j] == b;
            assert(ts[j] == b);
        }
        if forall|i: int| 0 <= i < ts.len() ==> blank(#[trigger] ts[i]) {
            assert(blank(t));
            assert forall|i: int| 0 <= i < p.len() implies blank(#[trigger] p[i]) by {
                assert(blank(ts[i]));
            }
        }
        if richest_title(ts) is None {
            assert(blank(t));
            assert forall|i: int| 0 <= i < ts.len() implies blank(#[trigger] ts[i]) by {
                if i < n {
                    assert(blank(p[i]));
                }
            }
        }
        if let Some(r) = richest_title(ts) {
            assert(!blank(r));
            if r == t {
                assert(ts.contains(r));
            } else {
                assert(richest_title(p) == Some(r));
                let j = choose|j: int| 0 <= j < p.len() && p[j] == r;
                assert(ts[j] == r);
            }
            assert forall|i: int| 0 <= i < ts.len() && !blank(#[trigger] ts[i]) implies ts[i].len() <= r.len() by {
                if i < n {
                    assert(!blank(p[i]));
                    assert(p[i].len() <= richest_title(p)->0.len());
                }
            }
        }
    }
}

/// A work with no declared name is named by its richest title: one of its
/// member titles, not blank, and no member title is longer.
pub proof fn lemma_work_identity_richest(
    ivs: Seq<IntervalModel>,
    d: Seq<(Seq<char>, Seq<char>)>,
    nm: Seq<(Seq<char>, Seq<char>)>,
    k: int,
)
    requires
        0 <= k < grouped_works(ivs, d, nm).len(),
        declared_name(nm, work_members(ivs, d, work_roots(ivs, d)[k])) is None,
        exists|i: int|
            0 <= i < grouped_works(ivs, d, nm)[k].titles.len() && !blank(#[trigger] grouped_works(ivs, d, nm)[k].titles[i]),
    ensures
        ({
            let w = grouped_works(ivs, d, nm)[k];
            &&& w.titles.contains(w.identity)
            &&& !blank(w.identity)
            &&& forall|i: int| 0 <= i < w.titles.len() && !blank(#[trigger] w.titles[i]) ==> w.titles[i].len() <= w.identity.len()
        }),
{
    let w = grouped_works(ivs, d, nm)[k];
    assert(w == work_model(ivs, d, nm, work_roots(ivs, d)[k]));
    lemma_richest(w.titles);
}

/// The works' order is determined: two arrangements that both meet it
/// are the same arrangement.
pub proof fn lemma_work_order_unique(ws: Seq<WorkModel>, p1: Seq<int>, p2: Seq<int>)
    requires
        stable_order(ws, p1),
        stable_order(ws, p2),
    ensures
        p1 == p2,
        arranged(ws, p1) == arranged(ws, p2),
{
    let leq = |i: int, j: int| i == j || work_before(ws[i], i, ws[j], j);
    assert(total_ordering(leq)) by {
        assert forall|i: int, j: int| #[trigger] leq(i, j) && #[trigger] leq(j, i) implies i == j by {
            if i != j {
                lemma_before_total(ws[i], i, ws[j], j);
            }
        }
        assert forall|i: int, j: int, k: int| #[trigger] leq(i, j) && #[trigger] leq(j, k) implies leq(i, k) by {
            if i != j && j != k {
                lemma_before_transitive(ws[i], i, ws[j], j, ws[k], k);
            }
        }
        assert forall|i: int, j: int| #[trigger] leq(i, j) || #[trigger] leq(j, i) by {
            if i != j {
                lemma_before_total(ws[i], i, ws[j], j);
            }
        }
    }
    assert(sorted_by(p1, leq));
    assert(sorted_by(p2, leq));
    lemma_perm_covers(p1, ws.len() as int);
    lemma_perm_covers(p2, ws.len() as int);
    p1.lemma_multiset_has_no_duplicates();
    p2.lemma_multiset_has_no_duplicates();
    assert(p1.to_multiset() =~= p2.to_multiset()) by {
        broadcast use vstd::multiset::group_multiset_axioms;
        assert forall|x: int| p1.to_multiset().count(x) == p2.to_multiset().count(x) by {
            if p1.contains(x) {
                let k = choose|k: int| 0 <= k < p1.len() && p1[k] == x;
                assert(p2.contains(x));
            } else if p2.contains(x) {
                let k = choose|k: int| 0 <= k < p2.len() && p2[k] == x;
                assert(p1.contains(x));
            }
        }
    }
    lemma_sorted_unique(p1, p2, leq);
}

} // verus!
