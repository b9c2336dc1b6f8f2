//! Ordering a sequence by the weights of its elements.

use vstd::prelude::*;
use crate::filters::lemma_filter_nothing;

verus! {

/// The weights never fall along the sequence.
pub open spec fn ascending<T>(s: Seq<T>, weight: spec_fn(T) -> nat) -> bool {
    forall|i: int, j: int| 0 <= i <= j < s.len() ==> weight(#[trigger] s[i]) <= weight(#[trigger] s[j])
}

/// Where an element of weight `w` goes into `sorted`: behind the last element
/// that is no heavier.
pub open spec fn insert_place<T>(sorted: Seq<T>, weight: spec_fn(T) -> nat, w: nat) -> nat
    decreases sorted.len(),
{
    if sorted.len() == 0 || weight(sorted.last()) <= w {
        sorted.len()
    } else {
        insert_place(sorted.drop_last(), weight, w)
    }
}

/// The sequence in the order of the weights. Elements of the same weight keep
/// the order they had.
pub open spec fn stable_sort<T>(s: Seq<T>, weight: spec_fn(T) -> nat) -> Seq<T>
    decreases s.len(),
{
    if s.len() == 0 {
        s
    } else {
        let sorted = stable_sort(s.drop_last(), weight);
        sorted.insert(insert_place(sorted, weight, weight(s.last())) as int, s.last())
    }
}

/// The test that picks the elements of weight `w`.
pub open spec fn weighs<T>(weight: spec_fn(T) -> nat, w: nat) -> spec_fn(T) -> bool {
    |x: T| weight(x) == w
}

/// The place where an element goes lies in the sequence or at its end; in an
/// ascending sequence no element before it is heavier and every element from
/// it on is.
pub proof fn lemma_insert_place<T>(sorted: Seq<T>, weight: spec_fn(T) -> nat, w: nat)
    requires
        ascending(sorted, weight),
    ensures
        insert_place(sorted, weight, w) <= sorted.len(),
        forall|i: int| 0 <= i < insert_place(sorted, weight, w) ==> weight(#[trigger] sorted[i]) <= w,
        forall|i: int|
            insert_place(sorted, weight, w) <= i < sorted.len() ==> weight(#[trigger] sorted[i])
                > w,
    decreases sorted.len(),
{
    if sorted.len() == 0 || weight(sorted.last()) <= w {
        assert forall|i: int| 0 <= i < sorted.len() implies weight(#[trigger] sorted[i]) <= w by {
            assert(weight(sorted[i]) <= weight(sorted[sorted.len() - 1]));
        }
    } else {
        let rest = sorted.drop_last();
        assert forall|i: int, j: int| 0 <= i <= j < rest.len() implies weight(#[trigger] rest[i])
            <= weight(#[trigger] rest[j]) by {
            assert(weight(sorted[i]) <= weight(sorted[j]));
        }
        lemma_insert_place(rest, weight, w);
        let p = insert_place(rest, weight, w);
        assert forall|i: int| 0 <= i < p implies weight(#[trigger] sorted[i]) <= w by {
            assert(sorted[i] == rest[i]);
        }
        assert forall|i: int| p <= i < sorted.len() implies weight(#[trigger] sorted[i]) > w by {
            if i < rest.len() {
                assert(sorted[i] == rest[i]);
            }
        }
    }
}

/// Ordering a sequence keeps its elements, each as often as it was there, and
/// puts them in ascending order of their weights.
pub proof fn lemma_stable_sort<T>(s: Seq<T>, weight: spec_fn(T) -> nat)
    ensures
        stable_sort(s, weight).len() == s.len(),
        stable_sort(s, weight).to_multiset() == s.to_multiset(),
        ascending(stable_sort(s, weight), weight),
    decreases s.len(),
{
    if s.len() > 0 {
        let rest = s.drop_last();
        let x = s.last();
        lemma_stable_sort(rest, weight);
        let sorted = stable_sort(rest, weight);
        lemma_insert_place(sorted, weight, weight(x));
        let p = insert_place(sorted, weight, weight(x)) as int;
        let out = sorted.insert(p, x);
        assert(out == stable_sort(s, weight));
        assert(s == rest.push(x));
        vstd::seq_lib::to_multiset_insert(sorted, p, x);
        vstd::seq_lib::to_multiset_build(rest, x);
        assert forall|i: int, j: int| 0 <= i <= j < out.len() implies weight(#[trigger] out[i])
            <= weight(#[trigger] out[j]) by {
            if i < p && j < p {
                assert(out[i] == sorted[i] && out[j] == sorted[j]);
            } else if i < p && j == p {
                assert(out[i] == sorted[i]);
            } else if i < p {
                assert(out[i] == sorted[i] && out[j] == sorted[j - 1]);
            } else if i == p && j > p {
                assert(out[j] == sorted[j - 1]);
            } else if i > p {
                assert(out[i] == sorted[i - 1] && out[j] == sorted[j - 1]);
            }
        }
    }
}

/// Ordering a sequence leaves the elements of any one weight in the order
/// they had: picked out of the ordered sequence they are the same sequence
/// as picked out of the sequence itself.
pub proof fn lemma_stable_sort_is_stable<T>(s: Seq<T>, weight: spec_fn(T) -> nat, w: nat)
    ensures
        stable_sort(s, weight).filter(weighs(weight, w)) == s.filter(weighs(weight, w)),
    decreases s.len(),
{
    let pred = weighs(weight, w);
    if s.len() > 0 {
        let rest = s.drop_last();
        let x = s.last();
        lemma_stable_sort_is_stable(rest, weight, w);
        lemma_stable_sort(rest, weight);
        let sorted = stable_sort(rest, weight);
        lemma_insert_place(sorted, weight, weight(x));
        let p = insert_place(sorted, weight, weight(x)) as int;
        let before = sorted.take(p);
        let behind = sorted.skip(p);
        let out = stable_sort(s, weight);
        assert(out == before.push(x) + behind);
        assert(sorted == before + behind);
        Seq::filter_distributes_over_add(before.push(x), behind, pred);
        Seq::filter_distributes_over_add(before, behind, pred);
        assert(before.push(x).drop_last() == before);
        assert(before.push(x).filter(pred) == if pred(x) {
            before.filter(pred).push(x)
        } else {
            before.filter(pred)
        }) by {
            reveal(Seq::filter);
        }
        assert(s.filter(pred) == if pred(x) {
            rest.filter(pred).push(x)
        } else {
            rest.filter(pred)
        }) by {
            reveal(Seq::filter);
        }
        if pred(x) {
            assert forall|i: int| 0 <= i < behind.len() implies !pred(#[trigger] behind[i]) by {
                assert(behind[i] == sorted[p + i]);
            }
            lemma_filter_nothing(behind, pred);
            assert(before.filter(pred) + Seq::<T>::empty() == before.filter(pred));
            assert(before.filter(pred).push(x) + Seq::<T>::empty() == before.filter(pred).push(x));
        }
    }
}

/// Ordering a sequence of elements that all weigh the same changes nothing.
pub proof fn lemma_stable_sort_of_equal_weights<T>(s: Seq<T>, weight: spec_fn(T) -> nat, w: nat)
    requires
        forall|i: int| 0 <= i < s.len() ==> weight(#[trigger] s[i]) == w,
    ensures
        stable_sort(s, weight) == s,
    decreases s.len(),
{
    if s.len() > 0 {
        let rest = s.drop_last();
        assert forall|i: int| 0 <= i < rest.len() implies weight(#[trigger] rest[i]) == w by {
            assert(rest[i] == s[i]);
        }
        lemma_stable_sort_of_equal_weights(rest, weight, w);
        assert(rest.insert(rest.len() as int, s.last()) == s);
    }
}

} // verus!
