//! Weighted sums over sequences, with the lemmas the tabulator's accounting
//! proofs rely on: sums under push, remove, and update, and prefix/suffix
//! splits.

use vstd::prelude::*;

verus! {

/// Sum of `w` over all elements of `s`.
pub open spec fn weight_sum<A>(s: Seq<A>, w: spec_fn(A) -> int) -> int
    decreases s.len(),
{
    if s.len() == 0 {
        0
    } else {
        w(s.first()) + weight_sum(s.drop_first(), w)
    }
}

pub proof fn lemma_weight_sum_push<A>(s: Seq<A>, w: spec_fn(A) -> int, x: A)
    ensures
        weight_sum(s.push(x), w) == weight_sum(s, w) + w(x),
    decreases s.len(),
{
    if s.len() == 0 {
        assert(s.push(x).first() == x);
        assert(s.push(x).drop_first() =~= Seq::<A>::empty());
        assert(weight_sum(Seq::<A>::empty(), w) == 0);
        assert(weight_sum(s.push(x), w) == w(x) + weight_sum(Seq::<A>::empty(), w));
        assert(weight_sum(s, w) == 0);
    } else {
        assert(s.push(x).first() == s.first());
        assert(s.push(x).drop_first() =~= s.drop_first().push(x));
        lemma_weight_sum_push(s.drop_first(), w, x);
        assert(weight_sum(s.push(x), w) == w(s.first()) + weight_sum(s.drop_first().push(x), w));
        assert(weight_sum(s, w) == w(s.first()) + weight_sum(s.drop_first(), w));
    }
}

pub proof fn lemma_weight_sum_remove<A>(s: Seq<A>, w: spec_fn(A) -> int, i: int)
    requires
        0 <= i < s.len(),
    ensures
        weight_sum(s.remove(i), w) == weight_sum(s, w) - w(s[i]),
    decreases s.len(),
{
    if i == 0 {
        assert(s.remove(0) =~= s.drop_first());
    } else {
        assert(s.remove(i).drop_first() =~= s.drop_first().remove(i - 1));
        lemma_weight_sum_remove(s.drop_first(), w, i - 1);
    }
}

/// Splitting a sum at position `i`.
pub proof fn lemma_weight_sum_split<A>(s: Seq<A>, w: spec_fn(A) -> int, i: int)
    requires
        0 <= i <= s.len(),
    ensures
        weight_sum(s, w) == weight_sum(s.take(i), w) + weight_sum(s.skip(i), w),
    decreases i,
{
    if i == 0 {
        assert(s.take(0) =~= Seq::<A>::empty());
        assert(s.skip(0) =~= s);
    } else {
        lemma_weight_sum_split(s, w, i - 1);
        assert(s.take(i) =~= s.take(i - 1).push(s[i - 1]));
        lemma_weight_sum_push(s.take(i - 1), w, s[i - 1]);
        assert(s.skip(i - 1) =~= seq![s[i - 1]] + s.skip(i));
        assert(s.skip(i - 1).drop_first() =~= s.skip(i));
        assert(weight_sum(s.skip(i - 1), w) == w(s[i - 1]) + weight_sum(s.skip(i), w));
    }
}

/// A sum of nonnegative weights is nonnegative.
pub proof fn lemma_weight_sum_nonneg<A>(s: Seq<A>, w: spec_fn(A) -> int)
    requires
        forall|i: int| 0 <= i < s.len() ==> w(#[trigger] s[i]) >= 0,
    ensures
        weight_sum(s, w) >= 0,
    decreases s.len(),
{
    if s.len() > 0 {
        assert(w(s[0]) >= 0);
        assert(forall|i: int| 0 <= i < s.drop_first().len() ==> w(#[trigger] s.drop_first()[i]) >= 0);
        lemma_weight_sum_nonneg(s.drop_first(), w);
    }
}

/// Updating one element changes the sum by the weight difference.
pub proof fn lemma_weight_sum_update<A>(s: Seq<A>, w: spec_fn(A) -> int, i: int, x: A)
    requires
        0 <= i < s.len(),
    ensures
        weight_sum(s.update(i, x), w) == weight_sum(s, w) - w(s[i]) + w(x),
    decreases s.len(),
{
    if i == 0 {
        assert(s.update(0, x).first() == x);
        assert(s.update(0, x).drop_first() =~= s.drop_first());
    } else {
        assert(s.update(i, x).first() == s.first());
        assert(s.update(i, x).drop_first() =~= s.drop_first().update(i - 1, x));
        lemma_weight_sum_update(s.drop_first(), w, i - 1, x);
    }
}

/// With nonnegative weights, each element's weight is bounded by the sum.
pub proof fn lemma_weight_sum_elem_bound<A>(s: Seq<A>, w: spec_fn(A) -> int, i: int)
    requires
        0 <= i < s.len(),
        forall|k: int| 0 <= k < s.len() ==> w(#[trigger] s[k]) >= 0,
    ensures
        w(s[i]) <= weight_sum(s, w),
        weight_sum(s, w) >= 0,
{
    lemma_weight_sum_split(s, w, i);
    assert(forall|k: int| 0 <= k < s.take(i).len() ==> w(#[trigger] s.take(i)[k]) >= 0);
    lemma_weight_sum_nonneg(s.take(i), w);
    lemma_weight_sum_suffix_step(s, w, i);
    assert(forall|k: int| 0 <= k < s.skip(i + 1).len() ==> w(#[trigger] s.skip(i + 1)[k]) >= 0);
    lemma_weight_sum_nonneg(s.skip(i + 1), w);
}

/// Peeling one element off the front of a suffix sum.
pub proof fn lemma_weight_sum_suffix_step<A>(s: Seq<A>, w: spec_fn(A) -> int, i: int)
    requires
        0 <= i < s.len(),
    ensures
        weight_sum(s.skip(i), w) == w(s[i]) + weight_sum(s.skip(i + 1), w),
{
    assert(s.skip(i).drop_first() =~= s.skip(i + 1));
    assert(s.skip(i).len() > 0);
    assert(s.skip(i).first() == s[i]);
}

} // verus!
