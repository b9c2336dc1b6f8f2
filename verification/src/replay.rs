//! Playing a list of moves one after the other.

use vstd::prelude::*;
use crate::matrix::{stacks_after, Matrix, MatrixView};
use crate::moves::Move;
use crate::stack::StackView;

verus! {

/// The stacks after the moves were tried one after the other, first move
/// first.
pub open spec fn stacks_after_all(stacks: Seq<StackView>, moves: Seq<Move>) -> Seq<StackView>
    decreases moves.len(),
{
    if moves.len() == 0 {
        stacks
    } else {
        stacks_after(stacks_after_all(stacks, moves.drop_last()), moves.last())
    }
}

impl MatrixView {
    /// The position after the moves were tried one after the other, first
    /// move first.
    pub open spec fn after_all(self, moves: Seq<Move>) -> MatrixView {
        MatrixView {
            stacks: stacks_after_all(self.stacks, moves),
            past_moves: self.past_moves + moves,
        }
    }
}

/// Trying a list of moves is trying the first of them and then the others.
pub proof fn lemma_stacks_after_all_first(stacks: Seq<StackView>, moves: Seq<Move>)
    requires
        moves.len() > 0,
    ensures
        stacks_after_all(stacks, moves) == stacks_after_all(
            stacks_after(stacks, moves.first()),
            moves.drop_first(),
        ),
    decreases moves.len(),
{
    if moves.len() == 1 {
        assert(moves.drop_last() == Seq::<Move>::empty());
        assert(moves.drop_first() == Seq::<Move>::empty());
        assert(stacks_after_all(stacks, moves.drop_last()) == stacks);
    } else {
        lemma_stacks_after_all_first(stacks, moves.drop_last());
        assert(moves.drop_last().drop_first() == moves.drop_first().drop_last());
        assert(moves.drop_last().first() == moves.first());
        assert(moves.drop_first().last() == moves.last());
    }
}

/// Trying one list of moves and then another is trying the two as one list.
pub proof fn lemma_stacks_after_all_add(stacks: Seq<StackView>, a: Seq<Move>, b: Seq<Move>)
    ensures
        stacks_after_all(stacks, a + b) == stacks_after_all(stacks_after_all(stacks, a), b),
    decreases b.len(),
{
    if b.len() == 0 {
        assert(a + b == a);
    } else {
        lemma_stacks_after_all_add(stacks, a, b.drop_last());
        assert((a + b).drop_last() == a + b.drop_last());
        assert((a + b).last() == b.last());
    }
}

impl Matrix {
    /// The positions that the moves played in this position lead through when
    /// they are tried from `start_matrix`: the one after the first move, the
    /// one after the first two, and so on.
    pub fn past_matrices(&self, start_matrix: Matrix) -> (chain: Vec<Matrix>)
        ensures
            chain@.len() == self@.past_moves.len(),
            forall|i: int|
                0 <= i < chain@.len() ==> (#[trigger] chain@[i])@ == start_matrix@.after_all(
                    self@.past_moves.take(i + 1),
                ),
    {
        let mut ret: Vec<Matrix> = Vec::new();
        let mut last_matrix: Matrix = start_matrix.copy();
        let ghost line = self@.past_moves;
        let mut k: usize = 0;
        assert(line.take(0) == Seq::<Move>::empty());
        assert(start_matrix@.past_moves + line.take(0) == start_matrix@.past_moves);
        while k < self.past_moves.len()
            invariant
                k <= line.len(),
                line == self@.past_moves,
                ret@.len() == k,
                last_matrix@ == start_matrix@.after_all(line.take(k as int)),
                forall|i: int|
                    0 <= i < k ==> (#[trigger] ret@[i])@ == start_matrix@.after_all(
                        line.take(i + 1),
                    ),
            decreases line.len() - k,
        {
            let mov: Move = self.past_moves[k];
            last_matrix = last_matrix.copy_after_move(mov);
            proof {
                let upto = line.take(k + 1);
                assert(upto.drop_last() == line.take(k as int));
                assert(upto.last() == mov);
                assert(start_matrix@.past_moves + upto == (start_matrix@.past_moves + line.take(
                    k as int,
                )).push(mov));
            }
            ret.push(last_matrix.copy());
            k += 1;
        }
        ret
    }
}

} // verus!
