//! All the moves that the rules allow in a position.

use vstd::prelude::*;
use crate::card::RANKS;
use crate::filters::{lemma_filter_is_part, lemma_filter_keeps, lemma_filter_skips, lemma_filter_step};
use crate::matrix::{allowed, Matrix, STACKS};
use crate::moves::{Move, MoveValidity};
use crate::stack::{lemma_run_at_most_ranks, lemma_run_length, run_length, StackView};

verus! {

/// How many moves there are to try: six stacks to take from, one to nine
/// cards, six stacks to go to.
pub const MOVE_SLOTS: usize = 324;

/// The `k`-th move to try. The moves are numbered by the stack they take from,
/// then by the number of cards, then by the stack they go to.
pub open spec fn move_at(k: int) -> Move {
    Move { from: (k / 54) as usize, to: (k % 6) as usize, count: ((k % 54) / 6 + 1) as usize }
}

/// The number of a move among the moves to try.
pub open spec fn slot_of(mov: Move) -> int {
    mov.from * 54 + (mov.count - 1) * 6 + mov.to
}

/// Every move to try, in order.
pub open spec fn all_moves() -> Seq<Move> {
    Seq::new(MOVE_SLOTS as nat, |k: int| move_at(k))
}

/// The test that picks the moves which the rules allow on `stacks`.
pub open spec fn allowed_on(stacks: Seq<StackView>) -> spec_fn(Move) -> bool {
    |mov: Move| allowed(stacks, mov)
}

/// The moves that the rules allow on `stacks`, cheats among them, in the order
/// of the moves to try.
pub open spec fn legal_moves(stacks: Seq<StackView>) -> Seq<Move> {
    all_moves().filter(allowed_on(stacks))
}

/// The move numbered `slot_of(mov)` is `mov`, for every move between stacks
/// of the position with one to nine cards.
pub proof fn lemma_slot_round_trip(mov: Move)
    requires
        mov.from < STACKS,
        mov.to < STACKS,
        1 <= mov.count <= RANKS,
    ensures
        0 <= slot_of(mov) < MOVE_SLOTS,
        move_at(slot_of(mov)) == mov,
{
}

/// The moves listed for a position are exactly the moves that the rules allow
/// in it.
pub proof fn lemma_legal_moves_are_the_allowed(stacks: Seq<StackView>, mov: Move)
    requires
        stacks.len() == STACKS,
    ensures
        legal_moves(stacks).contains(mov) <==> allowed(stacks, mov),
{
    if allowed(stacks, mov) {
        let cards = stacks[mov.from as int].cards;
        lemma_run_length(cards);
        lemma_run_at_most_ranks(cards, run_length(cards));
        lemma_slot_round_trip(mov);
        assert(all_moves()[slot_of(mov)] == mov);
        lemma_filter_keeps(all_moves(), allowed_on(stacks), slot_of(mov));
    }
    if legal_moves(stacks).contains(mov) {
        let i = legal_moves(stacks).index_of(mov);
        lemma_filter_is_part(all_moves(), allowed_on(stacks), i);
    }
}

impl Matrix {
    /// The moves that the rules allow in this position, cheats among them:
    /// ordered by the stack they take from, then by the number of cards, then
    /// by the stack they go to.
    pub fn valid_moves(&self) -> (moves: Vec<Move>)
        ensures
            moves@ == legal_moves(self@.stacks),
    {
        let mut ret: Vec<Move> = Vec::new();
        let ghost stacks = self@.stacks;
        let ghost pred = allowed_on(stacks);
        let ghost all = all_moves();
        assert(all.take(0).filter(pred) == Seq::<Move>::empty()) by {
            reveal(Seq::filter);
        }
        let mut from: usize = 0;
        while from < STACKS
            invariant
                from <= STACKS,
                stacks == self@.stacks,
                pred == allowed_on(stacks),
                all == all_moves(),
                ret@ == all.take(from * 54).filter(pred),
            decreases STACKS - from,
        {
            let highest_orderly_count: usize = self.stacks[from].highest_orderly_count();
            let mut count: usize = 1;
            while count <= highest_orderly_count
                invariant
                    from < STACKS,
                    1 <= count <= highest_orderly_count + 1,
                    highest_orderly_count <= RANKS,
                    stacks == self@.stacks,
                    pred == allowed_on(stacks),
                    all == all_moves(),
                    ret@ == all.take(from * 54 + (count - 1) * 6).filter(pred),
                decreases highest_orderly_count + 1 - count,
            {
                let mut to: usize = 0;
                while to < STACKS
                    invariant
                        from < STACKS,
                        to <= STACKS,
                        1 <= count <= RANKS,
                        stacks == self@.stacks,
                        pred == allowed_on(stacks),
                        all == all_moves(),
                        ret@ == all.take(from * 54 + (count - 1) * 6 + to).filter(pred),
                    decreases STACKS - to,
                {
                    let mov: Move = Move { from, to, count };
                    proof {
                        lemma_slot_round_trip(mov);
                        lemma_filter_step(all, slot_of(mov), pred);
                    }
                    if self.check_validity(mov) != MoveValidity::Invalid {
                        ret.push(mov);
                    }
                    to += 1;
                }
                count += 1;
            }
            proof {
                let a = from * 54 + highest_orderly_count * 6;
                let b = (from + 1) * 54;
                assert forall|i: int| a <= i < b implies !pred(#[trigger] all[i]) by {
                    let mov = move_at(i);
                    assert(mov.from == from);
                    assert(mov.count > highest_orderly_count);
                    lemma_run_length(stacks[from as int].cards);
                }
                lemma_filter_skips(all, a, b, pred);
            }
            from += 1;
        }
        assert(all.take(MOVE_SLOTS as int) == all);
        ret
    }
}

} // verus!
