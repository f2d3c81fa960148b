//! Sums of a weight over the elements of a sequence, and the facts about
//! them that the quantity and stake arithmetic rests on.

use vstd::prelude::*;

verus! {

broadcast use vstd::seq_lib::group_seq_properties, vstd::multiset::group_multiset_axioms;

/// The sum of `w` over the elements of `s`.
pub open spec fn sum_of<A>(s: Seq<A>, w: spec_fn(A) -> nat) -> nat
    decreases s.len(),
{
    if s.len() == 0 {
        0
    } else {
        sum_of(s.drop_last(), w) + w(s.last())
    }
}

pub proof fn lemma_sum_push<A>(s: Seq<A>, x: A, w: spec_fn(A) -> nat)
    ensures
        sum_of(s.push(x), w) == sum_of(s, w) + w(x),
{
    assert(s.push(x).drop_last() =~= s);
}

/// The sum over a prefix grows by one element at a time.
pub proof fn lemma_sum_take<A>(s: Seq<A>, i: int, w: spec_fn(A) -> nat)
    requires
        0 <= i < s.len(),
    ensures
        sum_of(s.take(i + 1), w) == sum_of(s.take(i), w) + w(s[i]),
{
    assert(s.take(i + 1).drop_last() =~= s.take(i));
}

pub proof fn lemma_sum_concat<A>(s: Seq<A>, t: Seq<A>, w: spec_fn(A) -> nat)
    ensures
        sum_of(s + t, w) == sum_of(s, w) + sum_of(t, w),
    decreases t.len(),
{
    if t.len() == 0 {
        assert(s + t =~= s);
    } else {
        assert((s + t).drop_last() =~= s + t.drop_last());
        lemma_sum_concat(s, t.drop_last(), w);
    }
}

pub proof fn lemma_sum_single<A>(x: A, w: spec_fn(A) -> nat)
    ensures
        sum_of(seq![x], w) == w(x),
{
    assert(seq![x].drop_last() =~= Seq::<A>::empty());
    assert(sum_of(Seq::<A>::empty(), w) == 0);
    assert(seq![x].last() == x);
}

pub proof fn lemma_sum_drop_first<A>(s: Seq<A>, w: spec_fn(A) -> nat)
    requires
        s.len() > 0,
    ensures
        sum_of(s, w) == w(s[0]) + sum_of(s.drop_first(), w),
{
    assert(s =~= seq![s[0]] + s.drop_first());
    lemma_sum_concat(seq![s[0]], s.drop_first(), w);
    lemma_sum_single(s[0], w);
}

/// Removing one element takes its weight off the sum.
pub proof fn lemma_sum_remove<A>(s: Seq<A>, k: int, w: spec_fn(A) -> nat)
    requires
        0 <= k < s.len(),
    ensures
        sum_of(s, w) == w(s[k]) + sum_of(s.remove(k), w),
{
    assert(s =~= s.take(k) + (seq![s[k]] + s.skip(k + 1)));
    assert(s.remove(k) =~= s.take(k) + s.skip(k + 1));
    lemma_sum_concat(s.take(k), seq![s[k]] + s.skip(k + 1), w);
    lemma_sum_concat(seq![s[k]], s.skip(k + 1), w);
    lemma_sum_concat(s.take(k), s.skip(k + 1), w);
    lemma_sum_single(s[k], w);
}

/// Sums do not depend on the order of the elements.
pub proof fn lemma_sum_permutation<A>(s: Seq<A>, t: Seq<A>, w: spec_fn(A) -> nat)
    requires
        s.to_multiset() == t.to_multiset(),
    ensures
        sum_of(s, w) == sum_of(t, w),
    decreases s.len(),
{
    if s.len() == 0 {
        t.to_multiset_ensures();
        if t.len() > 0 {
            assert(t.to_multiset().count(t[0]) > 0);
        }
    } else {
        let x = s.last();
        s.to_multiset_ensures();
        t.to_multiset_ensures();
        assert(s.to_multiset().count(x) > 0);
        assert(t.contains(x));
        let k = choose|k: int| 0 <= k < t.len() && t[k] == x;
        let t2 = t.remove(k);
        let s2 = s.drop_last();
        assert(s =~= s2.push(x));
        assert(t =~= t2.insert(k, x));
        s2.to_multiset_ensures();
        t2.to_multiset_ensures();
        assert(s2.to_multiset() =~= t2.to_multiset());
        lemma_sum_permutation(s2, t2, w);
        lemma_sum_remove(t, k, w);
    }
}

/// Sums agree where the weights agree on every element.
pub proof fn lemma_sum_congruent<A>(s: Seq<A>, v: spec_fn(A) -> nat, w: spec_fn(A) -> nat)
    requires
        forall|i: int| 0 <= i < s.len() ==> v(#[trigger] s[i]) == w(s[i]),
    ensures
        sum_of(s, v) == sum_of(s, w),
    decreases s.len(),
{
    if s.len() > 0 {
        lemma_sum_congruent(s.drop_last(), v, w);
    }
}

/// Sums grow with the weights.
pub proof fn lemma_sum_monotone<A>(s: Seq<A>, v: spec_fn(A) -> nat, w: spec_fn(A) -> nat)
    requires
        forall|i: int| 0 <= i < s.len() ==> v(#[trigger] s[i]) <= w(s[i]),
    ensures
        sum_of(s, v) <= sum_of(s, w),
    decreases s.len(),
{
    if s.len() > 0 {
        lemma_sum_monotone(s.drop_last(), v, w);
    }
}

/// Elements of weight zero sum to zero.
pub proof fn lemma_sum_zeros<A>(s: Seq<A>, w: spec_fn(A) -> nat)
    requires
        forall|i: int| 0 <= i < s.len() ==> w(#[trigger] s[i]) == 0,
    ensures
        sum_of(s, w) == 0,
    decreases s.len(),
{
    if s.len() > 0 {
        lemma_sum_zeros(s.drop_last(), w);
    }
}

/// Elements of weight one sum to their number.
pub proof fn lemma_sum_units<A>(s: Seq<A>, w: spec_fn(A) -> nat)
    requires
        forall|i: int| 0 <= i < s.len() ==> w(#[trigger] s[i]) == 1,
    ensures
        sum_of(s, w) == s.len(),
    decreases s.len(),
{
    if s.len() > 0 {
        lemma_sum_units(s.drop_last(), w);
    }
}

/// A prefix sums to no more than the whole.
pub proof fn lemma_sum_take_bounded<A>(s: Seq<A>, i: int, w: spec_fn(A) -> nat)
    requires
        0 <= i <= s.len(),
    ensures
        sum_of(s.take(i), w) <= sum_of(s, w),
{
    assert(s =~= s.take(i) + s.skip(i));
    lemma_sum_concat(s.take(i), s.skip(i), w);
}

} // verus!
