//! Sums of a measure over a sequence, and the facts aggregation needs:
//! a sum does not depend on the order of its terms, and with non-negative
//! terms a prefix never sums to more than the whole.

use vstd::prelude::*;

verus! {

/// The sum of `f` over the elements of `s`.
pub open spec fn seq_sum<A>(s: Seq<A>, f: spec_fn(A) -> int) -> int {
    s.fold_left(0int, |acc: int, x: A| acc + f(x))
}

/// Every term of the sum is non-negative.
pub open spec fn nonneg_terms<A>(s: Seq<A>, f: spec_fn(A) -> int) -> bool {
    forall|i: int| 0 <= i < s.len() ==> f(#[trigger] s[i]) >= 0
}

/// A sum does not depend on the order of its terms.
pub proof fn lemma_sum_permutes<A>(a: Seq<A>, b: Seq<A>, f: spec_fn(A) -> int)
    requires
        a.to_multiset() == b.to_multiset(),
    ensures
        seq_sum(a, f) == seq_sum(b, f),
{
    let g = |acc: int, x: A| acc + f(x);
    assert(vstd::seq_lib::commutative_foldl(g));
    vstd::seq_lib::lemma_fold_left_permutation(a, b, g, 0int);
}

/// With non-negative terms the sum is non-negative and dropping the last
/// term does not increase it.
pub proof fn lemma_sum_drop_last<A>(s: Seq<A>, f: spec_fn(A) -> int)
    requires
        nonneg_terms(s, f),
    ensures
        s.len() > 0 ==> 0 <= seq_sum(s.drop_last(), f) <= seq_sum(s, f),
        seq_sum(s, f) >= 0,
    decreases s.len(),
{
    if s.len() > 0 {
        assert(nonneg_terms(s.drop_last(), f)) by {
            assert forall|i: int| 0 <= i < s.drop_last().len() implies f(
                #[trigger] s.drop_last()[i],
            ) >= 0 by {
                assert(s.drop_last()[i] == s[i]);
            }
        }
        lemma_sum_drop_last(s.drop_last(), f);
    }
}

/// With non-negative terms a prefix sums to at most the whole.
pub proof fn lemma_sum_take<A>(s: Seq<A>, k: int, f: spec_fn(A) -> int)
    requires
        0 <= k <= s.len(),
        nonneg_terms(s, f),
    ensures
        seq_sum(s.take(k), f) <= seq_sum(s, f),
        seq_sum(s.take(k), f) >= 0,
    decreases s.len() - k,
{
    if k < s.len() {
        lemma_sum_take(s, k + 1, f);
        assert(s.take(k + 1).drop_last() =~= s.take(k));
        assert(nonneg_terms(s.take(k + 1), f)) by {
            assert forall|i: int| 0 <= i < s.take(k + 1).len() implies f(
                #[trigger] s.take(k + 1)[i],
            ) >= 0 by {
                assert(s.take(k + 1)[i] == s[i]);
            }
        }
        lemma_sum_drop_last(s.take(k + 1), f);
    } else {
        assert(s.take(k) =~= s);
        lemma_sum_drop_last(s, f);
    }
}

} // verus!
