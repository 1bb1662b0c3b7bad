//! Finite sums over sequences of integers, and the facts about them that the
//! balance and order-book invariants rely on.
use vstd::prelude::*;

verus! {

/// The sum of all elements of `s`.
pub open spec fn sum(s: Seq<int>) -> int
    decreases s.len(),
{
    if s.len() == 0 {
        0
    } else {
        sum(s.drop_last()) + s.last()
    }
}

/// Every element of `s` is non-negative.
pub open spec fn all_nonneg(s: Seq<int>) -> bool {
    forall|i: int| 0 <= i < s.len() ==> #[trigger] s[i] >= 0
}

pub proof fn lemma_sum_push(s: Seq<int>, v: int)
    ensures
        sum(s.push(v)) == sum(s) + v,
{
    assert(s.push(v).drop_last() =~= s);
}

pub proof fn lemma_sum_update(s: Seq<int>, i: int, v: int)
    requires
        0 <= i < s.len(),
    ensures
        sum(s.update(i, v)) == sum(s) - s[i] + v,
    decreases s.len(),
{
    if i == s.len() - 1 {
        assert(s.update(i, v).drop_last() =~= s.drop_last());
    } else {
        assert(s.update(i, v).drop_last() =~= s.drop_last().update(i, v));
        lemma_sum_update(s.drop_last(), i, v);
    }
}

pub proof fn lemma_sum_nonneg(s: Seq<int>)
    requires
        all_nonneg(s),
    ensures
        sum(s) >= 0,
    decreases s.len(),
{
    if s.len() > 0 {
        assert(all_nonneg(s.drop_last()));
        lemma_sum_nonneg(s.drop_last());
        assert(s[s.len() - 1] >= 0);
    }
}

pub proof fn lemma_elem_le_sum(s: Seq<int>, i: int)
    requires
        all_nonneg(s),
        0 <= i < s.len(),
    ensures
        s[i] <= sum(s),
    decreases s.len(),
{
    assert(all_nonneg(s.drop_last()));
    if i == s.len() - 1 {
        lemma_sum_nonneg(s.drop_last());
    } else {
        lemma_elem_le_sum(s.drop_last(), i);
        assert(s[s.len() - 1] >= 0);
    }
}

/// A sequence that is zero everywhere but at `i` sums to its element at `i`.
pub proof fn lemma_sum_single(s: Seq<int>, i: int)
    requires
        0 <= i < s.len(),
        forall|j: int| 0 <= j < s.len() && j != i ==> #[trigger] s[j] == 0,
    ensures
        sum(s) == s[i],
    decreases s.len(),
{
    if i == s.len() - 1 {
        lemma_sum_zero(s.drop_last());
    } else {
        lemma_sum_single(s.drop_last(), i);
    }
}

/// A sequence of zeros sums to zero.
pub proof fn lemma_sum_zero(s: Seq<int>)
    requires
        forall|j: int| 0 <= j < s.len() ==> #[trigger] s[j] == 0,
    ensures
        sum(s) == 0,
    decreases s.len(),
{
    if s.len() > 0 {
        lemma_sum_zero(s.drop_last());
    }
}

/// The sum of a prefix of a non-negative sequence is at most the whole sum.
pub proof fn lemma_sum_prefix_le(s: Seq<int>, k: int)
    requires
        all_nonneg(s),
        0 <= k <= s.len(),
    ensures
        sum(s.take(k)) <= sum(s),
    decreases s.len() - k,
{
    if k < s.len() {
        lemma_sum_prefix_le(s, k + 1);
        assert(s.take(k + 1).drop_last() =~= s.take(k));
    } else {
        assert(s.take(k) =~= s);
    }
}

/// A pointwise smaller sequence has a smaller sum.
pub proof fn lemma_sum_le(s: Seq<int>, t: Seq<int>)
    requires
        s.len() == t.len(),
        forall|i: int| 0 <= i < s.len() ==> #[trigger] s[i] <= t[i],
    ensures
        sum(s) <= sum(t),
    decreases s.len(),
{
    if s.len() > 0 {
        lemma_sum_le(s.drop_last(), t.drop_last());
    }
}

pub proof fn lemma_sum_remove(s: Seq<int>, i: int)
    requires
        0 <= i < s.len(),
    ensures
        sum(s.remove(i)) == sum(s) - s[i],
    decreases s.len(),
{
    if i == s.len() - 1 {
        assert(s.remove(i) =~= s.drop_last());
    } else {
        assert(s.remove(i).drop_last() =~= s.drop_last().remove(i));
        assert(s.remove(i).last() == s.last());
        lemma_sum_remove(s.drop_last(), i);
    }
}

/// A sum of `n` terms, each between zero and `b`, is at most `n * b`.
pub proof fn lemma_sum_bounded(s: Seq<int>, b: int)
    requires
        forall|i: int| 0 <= i < s.len() ==> 0 <= #[trigger] s[i] <= b,
    ensures
        sum(s) <= s.len() * b,
    decreases s.len(),
{
    if s.len() > 0 {
        lemma_sum_bounded(s.drop_last(), b);
        let n = s.len() as int;
        assert((n - 1) * b + b == n * b) by (nonlinear_arith);
    }
}

} // verus!
