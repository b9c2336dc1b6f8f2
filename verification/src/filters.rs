//! What a test picks from a sequence.

use vstd::prelude::*;

verus! {

/// Where a test fails on a stretch of a sequence, the stretch adds nothing to
/// what the test picks.
pub proof fn lemma_filter_skips<A>(s: Seq<A>, a: int, b: int, pred: spec_fn(A) -> bool)
    requires
        0 <= a <= b <= s.len(),
        forall|i: int| a <= i < b ==> !pred(#[trigger] s[i]),
    ensures
        s.take(b).filter(pred) == s.take(a).filter(pred),
    decreases b - a,
{
    if a < b {
        lemma_filter_skips(s, a, b - 1, pred);
        reveal(Seq::filter);
        assert(s.take(b).drop_last() == s.take(b - 1));
        assert(s.take(b).last() == s[b - 1]);
    }
}

/// Taking one more element of a sequence adds it to what a test picks if it
/// passes the test, and adds nothing if it fails.
pub proof fn lemma_filter_step<A>(s: Seq<A>, k: int, pred: spec_fn(A) -> bool)
    requires
        0 <= k < s.len(),
    ensures
        s.take(k + 1).filter(pred) == if pred(s[k]) {
            s.take(k).filter(pred).push(s[k])
        } else {
            s.take(k).filter(pred)
        },
{
    reveal(Seq::filter);
    assert(s.take(k + 1).drop_last() == s.take(k));
    assert(s.take(k + 1).last() == s[k]);
}

/// What a test picks from one element followed by a sequence: the element,
/// if it passes, followed by what the test picks from the sequence.
pub proof fn lemma_filter_first<A>(s: Seq<A>, k: int, pred: spec_fn(A) -> bool)
    requires
        0 <= k < s.len(),
    ensures
        s.skip(k).filter(pred) == if pred(s[k]) {
            seq![s[k]] + s.skip(k + 1).filter(pred)
        } else {
            s.skip(k + 1).filter(pred)
        },
{
    let head = seq![s[k]];
    assert(s.skip(k) == head + s.skip(k + 1));
    Seq::filter_distributes_over_add(head, s.skip(k + 1), pred);
    reveal_with_fuel(Seq::filter, 2);
    assert(head.drop_last() == Seq::<A>::empty());
    if pred(s[k]) {
        assert(head.filter(pred) == head);
    } else {
        assert(head.filter(pred) == Seq::<A>::empty());
    }
}

/// What a test picks from a sequence is in the sequence.
pub proof fn lemma_filter_is_part<A>(s: Seq<A>, pred: spec_fn(A) -> bool, i: int)
    requires
        0 <= i < s.filter(pred).len(),
    ensures
        s.contains(s.filter(pred)[i]),
        pred(s.filter(pred)[i]),
    decreases s.len(),
{
    reveal(Seq::filter);
    if s.len() > 0 {
        let rest = s.drop_last();
        if i < rest.filter(pred).len() {
            lemma_filter_is_part(rest, pred, i);
            let j = rest.index_of(rest.filter(pred)[i]);
            assert(s[j] == rest[j]);
        } else {
            assert(s[s.len() - 1] == s.last());
        }
    }
}

/// What passes a test is among what the test picks.
pub proof fn lemma_filter_keeps<A>(s: Seq<A>, pred: spec_fn(A) -> bool, i: int)
    requires
        0 <= i < s.len(),
        pred(s[i]),
    ensures
        s.filter(pred).contains(s[i]),
    decreases s.len(),
{
    reveal(Seq::filter);
    let rest = s.drop_last();
    let picked = s.filter(pred);
    if i < s.len() - 1 {
        lemma_filter_keeps(rest, pred, i);
        let j = rest.filter(pred).index_of(rest[i]);
        assert(picked[j] == s[i]);
    } else {
        assert(picked[picked.len() - 1] == s[i]);
    }
}

/// A test that no element passes picks nothing.
pub proof fn lemma_filter_nothing<A>(s: Seq<A>, pred: spec_fn(A) -> bool)
    requires
        forall|i: int| 0 <= i < s.len() ==> !pred(#[trigger] s[i]),
    ensures
        s.filter(pred) == Seq::<A>::empty(),
    decreases s.len(),
{
    reveal(Seq::filter);
    if s.len() > 0 {
        let rest = s.drop_last();
        assert forall|i: int| 0 <= i < rest.len() implies !pred(#[trigger] rest[i]) by {
            assert(rest[i] == s[i]);
        }
        lemma_filter_nothing(rest, pred);
        assert(!pred(s[s.len() - 1]));
    }
}

} // verus!
