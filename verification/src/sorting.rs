//! Sorting text by code-point order, and the uniqueness of sorted
//! permutations under a total order.

use vstd::prelude::*;
use vstd::relations::{sorted_by, total_ordering};
use crate::text::{lex_le, lex_lt, lex_less, chars_of, lemma_lex_irreflexive, lemma_lex_asymmetric,
    lemma_lex_total, lemma_lex_transitive};

verus! {

broadcast use vstd::seq_lib::group_to_multiset_ensures;

/// Code-point order on character sequences, as a relation.
pub open spec fn lex_order() -> spec_fn(Seq<char>, Seq<char>) -> bool {
    |a: Seq<char>, b: Seq<char>| lex_le(a, b)
}

/// Code-point order is a total order.
pub proof fn lemma_lex_order_total()
    ensures
        total_ordering(lex_order()),
{
    let r = lex_order();
    assert forall|a: Seq<char>| #[trigger] r(a, a) by {
        lemma_lex_irreflexive(a);
    }
    assert forall|a: Seq<char>, b: Seq<char>| #[trigger] r(a, b) && #[trigger] r(b, a) implies a == b by {
        lemma_lex_total(a, b);
    }
    assert forall|a: Seq<char>, b: Seq<char>, c: Seq<char>|
        #[trigger] r(a, b) && #[trigger] r(b, c) implies r(a, c) by {
        lemma_lex_total(a, b);
        lemma_lex_total(b, c);
        if lex_lt(c, a) {
            if a == b {
            } else if b == c {
            } else {
                lemma_lex_transitive(c, a, b);
            }
        }
    }
    assert forall|a: Seq<char>, b: Seq<char>| #[trigger] r(a, b) || #[trigger] r(b, a) by {
        lemma_lex_asymmetric(a, b);
    }
}

/// Two sequences sorted by the same total order and holding the same
/// elements are equal.
pub proof fn lemma_sorted_unique<A>(s: Seq<A>, t: Seq<A>, leq: spec_fn(A, A) -> bool)
    requires
        total_ordering(leq),
        sorted_by(s, leq),
        sorted_by(t, leq),
        s.to_multiset() == t.to_multiset(),
    ensures
        s == t,
    decreases s.len(),
{
    assert(s.len() == s.to_multiset().len());
    assert(t.len() == t.to_multiset().len());
    if s.len() == 0 {
        assert(s =~= t);
    } else {
        assert(s.contains(s[0]));
        assert(s.to_multiset().count(s[0]) > 0);
        assert(t.contains(s[0]));
        let j = choose|j: int| 0 <= j < t.len() && t[j] == s[0];
        assert(t.contains(t[0]));
        assert(s.to_multiset().count(t[0]) > 0);
        assert(s.contains(t[0]));
        let i = choose|i: int| 0 <= i < s.len() && s[i] == t[0];
        if j > 0 {
            assert(leq(t[0], t[j]));
        }
        if i > 0 {
            assert(leq(s[0], s[i]));
        }
        assert(leq(t[0], s[0]));
        assert(leq(s[0], t[0]));
        assert(s[0] == t[0]);
        assert(s.remove(0) =~= s.drop_first());
        assert(t.remove(0) =~= t.drop_first());
        assert(s.drop_first().to_multiset() == t.drop_first().to_multiset());
        assert(sorted_by(s.drop_first(), leq)) by {
            assert forall|a: int, b: int| 0 <= a < b < s.drop_first().len() implies #[trigger] leq(
                s.drop_first()[a],
                s.drop_first()[b],
            ) by {
                assert(leq(s[a + 1], s[b + 1]));
            }
        }
        assert(sorted_by(t.drop_first(), leq)) by {
            assert forall|a: int, b: int| 0 <= a < b < t.drop_first().len() implies #[trigger] leq(
                t.drop_first()[a],
                t.drop_first()[b],
            ) by {
                assert(leq(t[a + 1], t[b + 1]));
            }
        }
        lemma_sorted_unique(s.drop_first(), t.drop_first(), leq);
        assert(s =~= t) by {
            assert forall|k: int| 0 <= k < s.len() implies s[k] == t[k] by {
                if k > 0 {
                    assert(s[k] == s.drop_first()[k - 1]);
                    assert(t[k] == t.drop_first()[k - 1]);
                }
            }
        }
    }
}

/// The characters of each string, in order.
pub open spec fn views(v: Seq<String>) -> Seq<Seq<char>> {
    v.map_values(|s: String| s@)
}

/// The code-point-sorted arrangement of a sequence of texts.
pub open spec fn sorted_texts(t: Seq<Seq<char>>) -> Seq<Seq<char>> {
    t.sort_by(lex_order())
}

pub proof fn lemma_insert_multiset<A>(s: Seq<A>, p: int, x: A)
    requires
        0 <= p <= s.len(),
    ensures
        s.insert(p, x).to_multiset() == s.to_multiset().insert(x),
{
    let n = s.insert(p, x);
    s.insert_ensures(p, x);
    assert(n.remove(p) =~= s);
    assert(n.remove(p).to_multiset() =~= n.to_multiset().remove(n[p]));
    assert(n.contains(x));
    assert(n.to_multiset().count(x) > 0);
    assert(n.to_multiset() =~= s.to_multiset().insert(x));
}

/// The strings of `v`, sorted by code-point order.
pub fn sort_strings(v: &Vec<String>) -> (r: Vec<String>)
    ensures
        views(r@) == sorted_texts(views(v@)),
{
    let mut out: Vec<String> = Vec::new();
    let mut i: usize = 0;
    while i < v.len()
        invariant
            i <= v.len(),
            sorted_by(views(out@), lex_order()),
            views(out@).to_multiset() == views(v@.subrange(0, i as int)).to_multiset(),
        decreases v.len() - i,
    {
        let x = chars_of(v[i].as_str());
        let mut p: usize = 0;
        while p < out.len() && !lex_less(&x, &chars_of(out[p].as_str()))
            invariant
                p <= out.len(),
                forall|q: int| 0 <= q < p ==> lex_le(views(out@)[q], x@),
            decreases out.len() - p,
        {
            p = p + 1;
        }
        let ghost old_out = views(out@);
        out.insert(p, v[i].clone());
        proof {
            let t = views(out@);
            assert(t =~= old_out.insert(p as int, x@));
            lemma_lex_order_total();
            assert forall|a: int, b: int| 0 <= a < b < t.len() implies #[trigger] lex_order()(t[a], t[b]) by {
                if b < p {
                    assert(t[a] == old_out[a] && t[b] == old_out[b]);
                } else if b == p {
                    assert(t[a] == old_out[a]);
                } else if a == p {
                    assert(t[b] == old_out[b - 1]);
                    assert(lex_lt(x@, old_out[p as int]));
                    if b - 1 > p {
                        assert(lex_order()(old_out[p as int], old_out[b - 1]));
                        lemma_lex_asymmetric(x@, old_out[p as int]);
                        lemma_lex_total(old_out[p as int], old_out[b - 1]);
                        if lex_lt(old_out[b - 1], x@) {
                            if old_out[p as int] != old_out[b - 1] {
                                lemma_lex_transitive(old_out[p as int], old_out[b - 1], x@);
                            }
                        }
                    }
                    lemma_lex_asymmetric(x@, old_out[b - 1]);
                } else if a < p {
                    assert(t[a] == old_out[a] && t[b] == old_out[b - 1]);
                    assert(lex_order()(old_out[a], old_out[b - 1]));
                } else {
                    assert(t[a] == old_out[a - 1] && t[b] == old_out[b - 1]);
                }
            }
            lemma_insert_multiset(old_out, p as int, x@);
            assert(v@.subrange(0, i as int + 1) =~= v@.subrange(0, i as int).push(v@[i as int]));
            assert(views(v@.subrange(0, i as int + 1)) =~= views(v@.subrange(0, i as int)).push(
                x@,
            ));
        }
        i = i + 1;
    }
    proof {
        assert(v@.subrange(0, v@.len() as int) =~= v@);
        lemma_lex_order_total();
        views(v@).lemma_sort_by_ensures(lex_order());
        lemma_sorted_unique(views(out@), sorted_texts(views(v@)), lex_order());
    }
    out
}


/// The least text of a non-empty sequence, in code-point order.
pub open spec fn least_text(t: Seq<Seq<char>>) -> Seq<char> {
    sorted_texts(t)[0]
}

/// The least text of a non-empty sequence is one of its texts, at or below
/// every one of them.
pub proof fn lemma_least_is_minimum(t: Seq<Seq<char>>)
    requires
        t.len() > 0,
    ensures
        t.contains(least_text(t)),
        forall|j: int| 0 <= j < t.len() ==> lex_le(least_text(t), #[trigger] t[j]),
{
    let s = sorted_texts(t);
    lemma_lex_order_total();
    t.lemma_sort_by_ensures(lex_order());
    assert(s.len() == s.to_multiset().len());
    assert(t.len() == t.to_multiset().len());
    assert(s.contains(s[0]));
    assert(t.to_multiset().count(s[0]) > 0);
    assert(t.contains(s[0]));
    assert forall|j: int| 0 <= j < t.len() implies lex_le(least_text(t), #[trigger] t[j]) by {
        assert(t.to_multiset().count(t[j]) > 0);
        assert(s.contains(t[j]));
        let m = choose|m: int| 0 <= m < s.len() && s[m] == t[j];
        if m > 0 {
            assert((lex_order())(s[0], s[m]));
        } else {
            lemma_lex_irreflexive(s[0]);
        }
    }
}

/// An element at or below every element of `t` is the first of its
/// sorted arrangement.
pub proof fn lemma_least_is_first(t: Seq<Seq<char>>, k: int)
    requires
        0 <= k < t.len(),
        forall|j: int| 0 <= j < t.len() ==> lex_le(t[k], #[trigger] t[j]),
    ensures
        least_text(t) == t[k],
{
    let s = sorted_texts(t);
    lemma_lex_order_total();
    t.lemma_sort_by_ensures(lex_order());
    assert(s.len() == s.to_multiset().len());
    assert(t.len() == t.to_multiset().len());
    assert(s.contains(s[0]));
    assert(t.to_multiset().count(s[0]) > 0);
    assert(t.contains(s[0]));
    let j = choose|j: int| 0 <= j < t.len() && t[j] == s[0];
    assert(lex_le(t[k], t[j]));
    assert(t.contains(t[k]));
    assert(s.to_multiset().count(t[k]) > 0);
    assert(s.contains(t[k]));
    let i = choose|i: int| 0 <= i < s.len() && s[i] == t[k];
    if i > 0 {
        assert(lex_order()(s[0], s[i]));
    }
    assert(lex_order()(s[0], t[k]));
    assert(lex_order()(t[k], s[0]));
}

/// Sorting forgets the original order: two arrangements of the same texts
/// sort to the same sequence.
pub proof fn lemma_sorted_texts_permutation(a: Seq<Seq<char>>, b: Seq<Seq<char>>)
    requires
        a.to_multiset() == b.to_multiset(),
    ensures
        sorted_texts(a) == sorted_texts(b),
{
    lemma_lex_order_total();
    a.lemma_sort_by_ensures(lex_order());
    b.lemma_sort_by_ensures(lex_order());
    lemma_sorted_unique(sorted_texts(a), sorted_texts(b), lex_order());
}

/// The position of a least string of a non-empty vector.
pub fn least_index(v: &Vec<String>) -> (k: usize)
    requires
        v.len() > 0,
    ensures
        k < v.len(),
        views(v@)[k as int] == least_text(views(v@)),
{
    let ghost t = views(v@);
    proof {
        lemma_lex_order_total();
    }
    let mut k: usize = 0;
    let mut best = chars_of(v[0].as_str());
    proof {
        lemma_lex_irreflexive(best@);
        assert(t[0] == best@);
    }
    let mut i: usize = 1;
    while i < v.len()
        invariant
            1 <= i <= v.len(),
            k < i,
            t == views(v@),
            total_ordering(lex_order()),
            best@ == t[k as int],
            forall|j: int| 0 <= j < i ==> lex_le(best@, #[trigger] t[j]),
        decreases v.len() - i,
    {
        let c = chars_of(v[i].as_str());
        if lex_less(&c, &best) {
            proof {
                lemma_lex_asymmetric(c@, best@);
                assert forall|j: int| 0 <= j < i + 1 implies lex_le(c@, #[trigger] t[j]) by {
                    if j < i {
                        assert(lex_order()(c@, best@));
                        assert(lex_order()(best@, t[j]));
                    } else {
                        lemma_lex_irreflexive(c@);
                    }
                }
            }
            k = i;
            best = c;
        } else {
            proof {
                lemma_lex_total(c@, best@);
            }
        }
        i = i + 1;
    }
    proof {
        lemma_least_is_first(t, k as int);
    }
    k
}


/// Tuple order on pairs of texts: by the first text, then by the second.
pub open spec fn pair_order() -> spec_fn((Seq<char>, Seq<char>), (Seq<char>, Seq<char>)) -> bool {
    |a: (Seq<char>, Seq<char>), b: (Seq<char>, Seq<char>)|
        lex_lt(a.0, b.0) || (a.0 == b.0 && lex_le(a.1, b.1))
}

/// Tuple order on pairs of texts is a total order.
pub proof fn lemma_pair_order_total()
    ensures
        total_ordering(pair_order()),
{
    let r = pair_order();
    assert forall|a: (Seq<char>, Seq<char>)| #[trigger] r(a, a) by {
        lemma_lex_irreflexive(a.1);
    }
    assert forall|a: (Seq<char>, Seq<char>), b: (Seq<char>, Seq<char>)|
        #[trigger] r(a, b) && #[trigger] r(b, a) implies a == b by {
        lemma_lex_asymmetric(a.0, b.0);
        lemma_lex_total(a.1, b.1);
    }
    assert forall|a: (Seq<char>, Seq<char>), b: (Seq<char>, Seq<char>), c: (Seq<char>, Seq<char>)|
        #[trigger] r(a, b) && #[trigger] r(b, c) implies r(a, c) by {
        if lex_lt(a.0, b.0) && lex_lt(b.0, c.0) {
            lemma_lex_transitive(a.0, b.0, c.0);
        }
        lemma_lex_irreflexive(a.0);
        lemma_lex_irreflexive(b.0);
        if a.0 == b.0 && b.0 == c.0 {
            lemma_lex_total(a.1, b.1);
            lemma_lex_total(b.1, c.1);
            if lex_lt(c.1, a.1) {
                if a.1 == b.1 {
                } else if b.1 == c.1 {
                } else {
                    lemma_lex_transitive(c.1, a.1, b.1);
                }
            }
        }
    }
    assert forall|a: (Seq<char>, Seq<char>), b: (Seq<char>, Seq<char>)| #[trigger] r(a, b) || #[trigger] r(
        b,
        a,
    ) by {
        lemma_lex_total(a.0, b.0);
        lemma_lex_asymmetric(a.1, b.1);
    }
}

/// The characters of each pair of texts.
pub open spec fn pair_views(v: Seq<(Vec<char>, Vec<char>)>) -> Seq<(Seq<char>, Seq<char>)> {
    v.map_values(|p: (Vec<char>, Vec<char>)| (p.0@, p.1@))
}

fn pair_less(a: &(Vec<char>, Vec<char>), b: &(Vec<char>, Vec<char>)) -> (r: bool)
    ensures
        r == !pair_order()((b.0@, b.1@), (a.0@, a.1@)),
{
    if lex_less(&a.0, &b.0) {
        proof {
            lemma_lex_asymmetric(a.0@, b.0@);
            lemma_lex_irreflexive(a.0@);
        }
        true
    } else if crate::text::seq_eq(&a.0, &b.0) {
        lex_less(&a.1, &b.1)
    } else {
        proof {
            lemma_lex_total(a.0@, b.0@);
        }
        false
    }
}

/// Pairs of texts sorted by tuple order (`Vec::sort` on `(String, String)`).
pub fn sort_pairs(v: Vec<(Vec<char>, Vec<char>)>) -> (r: Vec<(Vec<char>, Vec<char>)>)
    ensures
        pair_views(r@) == pair_views(v@).sort_by(pair_order()),
{
    let mut out: Vec<(Vec<char>, Vec<char>)> = Vec::new();
    let mut i: usize = 0;
    while i < v.len()
        invariant
            i <= v.len(),
            sorted_by(pair_views(out@), pair_order()),
            pair_views(out@).to_multiset() == pair_views(v@.subrange(0, i as int)).to_multiset(),
        decreases v.len() - i,
    {
        let x = (v[i].0.clone(), v[i].1.clone());
        let ghost xv = (x.0@, x.1@);
        let mut p: usize = 0;
        while p < out.len() && !pair_less(&x, &out[p])
            invariant
                p <= out.len(),
                xv == (x.0@, x.1@),
                forall|q: int| 0 <= q < p ==> pair_order()(pair_views(out@)[q], xv),
            decreases out.len() - p,
        {
            assert(pair_views(out@)[p as int] == (out@[p as int].0@, out@[p as int].1@));
            p = p + 1;
        }
        let ghost old_out = pair_views(out@);
        out.insert(p, x);
        proof {
            let t = pair_views(out@);
            assert(t =~= old_out.insert(p as int, xv));
            lemma_pair_order_total();
            assert forall|a: int, b: int| 0 <= a < b < t.len() implies #[trigger] pair_order()(
                t[a],
                t[b],
            ) by {
                if b < p {
                    assert(t[a] == old_out[a] && t[b] == old_out[b]);
                } else if b == p {
                    assert(t[a] == old_out[a]);
                } else if a == p {
                    assert(t[b] == old_out[b - 1]);
                    assert(!pair_order()(old_out[p as int], xv));
                    assert(pair_order()(xv, old_out[p as int]));
                    if b - 1 > p {
                        assert(pair_order()(old_out[p as int], old_out[b - 1]));
                    }
                } else if a < p {
                    assert(t[a] == old_out[a] && t[b] == old_out[b - 1]);
                    assert(pair_order()(old_out[a], old_out[b - 1]));
                } else {
                    assert(t[a] == old_out[a - 1] && t[b] == old_out[b - 1]);
                }
            }
            lemma_insert_multiset(old_out, p as int, xv);
            assert(v@.subrange(0, i as int + 1) =~= v@.subrange(0, i as int).push(v@[i as int]));
            assert(pair_views(v@.subrange(0, i as int + 1)) =~= pair_views(
                v@.subrange(0, i as int),
            ).push(xv));
        }
        i = i + 1;
    }
    proof {
        assert(v@.subrange(0, v@.len() as int) =~= v@);
        lemma_pair_order_total();
        pair_views(v@).lemma_sort_by_ensures(pair_order());
        lemma_sorted_unique(pair_views(out@), pair_views(v@).sort_by(pair_order()), pair_order());
    }
    out
}

// ── Stable order by a numeric key ──────────────────────────────────────────

/// Where a position with key `t` goes into `order`: after the last
/// position whose key is not greater.
pub open spec fn key_slot(keys: Seq<u64>, order: Seq<int>, t: u64) -> nat
    decreases order.len(),
{
    if order.len() == 0 {
        0
    } else if keys[order.last()] > t {
        key_slot(keys, order.drop_last(), t)
    } else {
        order.len()
    }
}

/// The first `n` positions of `keys` in key order; equal keys keep their
/// position order.
pub open spec fn key_order(keys: Seq<u64>, n: int) -> Seq<int>
    decreases n,
{
    if n <= 0 {
        seq![]
    } else {
        let rest = key_order(keys, n - 1);
        rest.insert(key_slot(keys, rest, keys[n - 1]) as int, n - 1)
    }
}

proof fn lemma_key_slot_bound(keys: Seq<u64>, order: Seq<int>, t: u64)
    ensures
        key_slot(keys, order, t) <= order.len(),
    decreases order.len(),
{
    if order.len() > 0 && keys[order.last()] > t {
        lemma_key_slot_bound(keys, order.drop_last(), t);
    }
}

/// The key order holds each of the first `n` positions.
pub proof fn lemma_key_order(keys: Seq<u64>, n: int)
    requires
        0 <= n <= keys.len(),
    ensures
        key_order(keys, n).len() == n,
        forall|k: int| 0 <= k < n ==> 0 <= #[trigger] key_order(keys, n)[k] < n,
    decreases n,
{
    if n > 0 {
        let rest = key_order(keys, n - 1);
        lemma_key_order(keys, n - 1);
        lemma_key_slot_bound(keys, rest, keys[n - 1]);
        let p = key_slot(keys, rest, keys[n - 1]) as int;
        let s = key_order(keys, n);
        assert forall|k: int| 0 <= k < n implies 0 <= #[trigger] s[k] < n by {
            if k < p {
                assert(s[k] == rest[k]);
            } else if k > p {
                assert(s[k] == rest[k - 1]);
            }
        }
    }
}

/// The positions of `keys` in key order, equal keys in position order.
pub fn stable_key_order(keys: &Vec<u64>) -> (order: Vec<usize>)
    ensures
        order@.map_values(|i: usize| i as int) == key_order(keys@, keys@.len() as int),
        order@.len() == keys@.len(),
        forall|k: int| 0 <= k < order@.len() ==> order@[k] < keys@.len(),
{
    let n = keys.len();
    let mut order: Vec<usize> = Vec::new();
    let mut m: usize = 0;
    while m < n
        invariant
            n == keys@.len(),
            m <= n,
            order@.map_values(|i: usize| i as int) == key_order(keys@, m as int),
            order@.len() == m,
            forall|k: int| 0 <= k < order@.len() ==> order@[k] < m,
        decreases n - m,
    {
        let ghost ord = order@.map_values(|i: usize| i as int);
        let t = keys[m];
        let mut j: usize = order.len();
        assert(ord.take(j as int) =~= ord);
        while j > 0 && keys[order[j - 1]] > t
            invariant
                j <= order@.len(),
                n == keys@.len(),
                m < n,
                order@.len() == m,
                ord == order@.map_values(|i: usize| i as int),
                forall|k: int| 0 <= k < order@.len() ==> order@[k] < m,
                t == keys@[m as int],
                key_slot(keys@, ord, t) == key_slot(keys@, ord.take(j as int), t),
            decreases j,
        {
            assert(ord.take(j as int).last() == ord[j - 1]);
            assert(ord.take(j as int).drop_last() =~= ord.take(j - 1));
            j = j - 1;
        }
        proof {
            if j > 0 {
                assert(ord.take(j as int).last() == ord[j - 1]);
            }
        }
        order.insert(j, m);
        assert(order@.map_values(|i: usize| i as int) =~= ord.insert(j as int, m as int));
        m = m + 1;
    }
    order
}

} // verus!
