//! The position: six stacks and the moves played so far.

use vstd::prelude::*;
use crate::card::{Card, RANKS};
use crate::moves::{Move, MoveValidity};
use crate::stack::{fits_on, run_length, Stack, StackView};

verus! {

/// How many stacks a position has.
pub const STACKS: usize = 6;

/// How many collapsed stacks win the game.
pub const STACKS_TO_WIN: usize = 4;

/// A position of the game.
pub struct Matrix {
    pub stacks: [Stack; 6],
    /// The moves that `save_moves` found, each with the position it leads to.
    /// This is working storage for the search and no part of the position.
    pub available_moves: Vec<(Move, Matrix)>,
    /// The moves played since the deal, oldest first.
    pub past_moves: Vec<Move>,
}

/// What a position is to the rules: the six stacks and the moves played.
#[verifier::ext_equal]
pub struct MatrixView {
    pub stacks: Seq<StackView>,
    pub past_moves: Seq<Move>,
}

impl View for Matrix {
    type V = MatrixView;

    open spec fn view(&self) -> MatrixView {
        MatrixView {
            stacks: Seq::new(STACKS as nat, |i: int| self.stacks[i]@),
            past_moves: self.past_moves@,
        }
    }
}

/// The move names two stacks of the position and a number of cards that the
/// stack it takes from holds.
pub open spec fn in_range(stacks: Seq<StackView>, mov: Move) -> bool {
    &&& mov.from < stacks.len()
    &&& mov.to < stacks.len()
    &&& 1 <= mov.count <= stacks[mov.from as int].cards.len()
}

/// The lowest card of the cards that the move takes.
pub open spec fn lowest_moved(stacks: Seq<StackView>, mov: Move) -> Card {
    let cards = stacks[mov.from as int].cards;
    cards[cards.len() - mov.count]
}

/// What the rules say of `mov` in a position with these stacks.
///
/// A move that is out of range, that stays on its stack, that touches a
/// collapsed stack or that goes to a stack blocked by a cheat is not allowed.
/// A single card may go wherever it fits in order; where it does not fit it
/// may still be parked as a cheat, unless it is itself a parked card. Several
/// cards move only as the whole run at the top of their stack, and only to
/// where the lowest of them fits in order.
pub open spec fn classify(stacks: Seq<StackView>, mov: Move) -> MoveValidity {
    if !in_range(stacks, mov) {
        MoveValidity::Invalid
    } else if mov.from == mov.to || stacks[mov.to as int].collapsed
        || stacks[mov.from as int].collapsed || stacks[mov.to as int].cheated {
        MoveValidity::Invalid
    } else if mov.count == 1 {
        if fits_on(lowest_moved(stacks, mov), stacks[mov.to as int].cards) {
            MoveValidity::ValidNormal
        } else if stacks[mov.from as int].cheated {
            MoveValidity::Invalid
        } else {
            MoveValidity::ValidCheat
        }
    } else if mov.count != run_length(stacks[mov.from as int].cards) {
        MoveValidity::Invalid
    } else if fits_on(lowest_moved(stacks, mov), stacks[mov.to as int].cards) {
        MoveValidity::ValidNormal
    } else {
        MoveValidity::Invalid
    }
}

/// The rules allow `mov`, in order or as a cheat.
pub open spec fn allowed(stacks: Seq<StackView>, mov: Move) -> bool {
    classify(stacks, mov) != MoveValidity::Invalid
}

/// A stack holds all nine ranks in one run.
pub open spec fn is_complete(cards: Seq<Card>) -> bool {
    cards.len() == RANKS && run_length(cards) == RANKS
}

/// The stack that `mov` takes from, after the move: the cards are gone and
/// so is a cheat, if the top card was one.
pub open spec fn source_after(stacks: Seq<StackView>, mov: Move) -> StackView {
    let source = stacks[mov.from as int];
    StackView {
        cards: source.cards.take(source.cards.len() - mov.count),
        collapsed: source.collapsed,
        cheated: false,
    }
}

/// The stack that `mov` goes to, after the move: it has the moved cards on
/// top, in the order they had, it is blocked if the move was a cheat, and it
/// has collapsed if it now holds all nine ranks in one run.
pub open spec fn target_after(stacks: Seq<StackView>, mov: Move) -> StackView {
    let source = stacks[mov.from as int];
    let target = stacks[mov.to as int];
    let cards = target.cards + source.cards.skip(source.cards.len() - mov.count);
    StackView {
        cards,
        collapsed: target.collapsed || is_complete(cards),
        cheated: target.cheated || classify(stacks, mov) == MoveValidity::ValidCheat,
    }
}

/// The stacks after `mov` was tried: changed as the move says where the rules
/// allow it, and unchanged where they do not.
pub open spec fn stacks_after(stacks: Seq<StackView>, mov: Move) -> Seq<StackView> {
    if allowed(stacks, mov) {
        stacks.update(mov.from as int, source_after(stacks, mov)).update(
            mov.to as int,
            target_after(stacks, mov),
        )
    } else {
        stacks
    }
}

/// How many of the first `n` stacks have collapsed.
pub open spec fn collapsed_count(stacks: Seq<StackView>, n: nat) -> nat
    decreases n,
{
    if n == 0 {
        0
    } else {
        collapsed_count(stacks, (n - 1) as nat) + if stacks[n - 1].collapsed {
            1nat
        } else {
            0nat
        }
    }
}

/// The game is won: exactly four of the stacks have collapsed.
pub open spec fn is_won(stacks: Seq<StackView>) -> bool {
    collapsed_count(stacks, stacks.len()) == STACKS_TO_WIN
}

impl MatrixView {
    /// The position after `mov` was tried. The move is entered in the list of
    /// moves played whether or not the rules allowed it.
    pub open spec fn after(self, mov: Move) -> MatrixView {
        MatrixView {
            stacks: stacks_after(self.stacks, mov),
            past_moves: self.past_moves.push(mov),
        }
    }
}

impl Default for Matrix {
    /// A position with six empty stacks and no move played.
    fn default() -> (m: Matrix)
        ensures
            m@.past_moves.len() == 0,
            m.available_moves@.len() == 0,
            m@.stacks.len() == STACKS,
            forall|i: int|
                0 <= i < STACKS ==> #[trigger] m@.stacks[i] == (StackView {
                    cards: Seq::empty(),
                    collapsed: false,
                    cheated: false,
                }),
    {
        Matrix::new()
    }
}

impl Matrix {
    /// A position with six empty stacks and no move played.
    pub fn new() -> (m: Matrix)
        ensures
            m@.past_moves.len() == 0,
            m.available_moves@.len() == 0,
            m@.stacks.len() == STACKS,
            forall|i: int|
                0 <= i < STACKS ==> #[trigger] m@.stacks[i] == (StackView {
                    cards: Seq::empty(),
                    collapsed: false,
                    cheated: false,
                }),
    {
        Matrix {
            stacks: [
                Stack::new(),
                Stack::new(),
                Stack::new(),
                Stack::new(),
                Stack::new(),
                Stack::new(),
            ],
            available_moves: Vec::new(),
            past_moves: Vec::new(),
        }
    }

    /// What the rules say of `mov` in this position.
    pub fn check_validity(&self, mov: Move) -> (validity: MoveValidity)
        ensures
            validity == classify(self@.stacks, mov),
    {
        let Move { from, to, count } = mov;
        if from >= STACKS || to >= STACKS {
            return MoveValidity::Invalid;
        }
        let from_len: usize = self.stacks[from].cards.len();
        if count == 0 || count > from_len {
            return MoveValidity::Invalid;
        }
        if self.stacks[to].collapsed || self.stacks[from].collapsed || self.stacks[to].cheated
            || to == from {
            return MoveValidity::Invalid;
        }
        let first_card_index_from: usize = from_len - count;
        let lowest: Card = self.stacks[from].cards[first_card_index_from];
        if count == 1 {
            if self.stacks[to].is_orderly(lowest) {
                return MoveValidity::ValidNormal;
            }
            if self.stacks[from].cheated {
                return MoveValidity::Invalid;
            }
            return MoveValidity::ValidCheat;
        }
        if self.stacks[from].highest_orderly_count() != count {
            return MoveValidity::Invalid;
        }
        if self.stacks[to].is_orderly(lowest) {
            return MoveValidity::ValidNormal;
        }
        MoveValidity::Invalid
    }

    /// Plays `mov` if the rules allow it, and says whether they did. The list
    /// of moves played is left as it is.
    pub fn move_stack(&mut self, mov: Move) -> (moved: bool)
        ensures
            moved == allowed(old(self)@.stacks, mov),
            final(self)@.stacks == stacks_after(old(self)@.stacks, mov),
            final(self)@.past_moves == old(self)@.past_moves,
            final(self).available_moves == old(self).available_moves,
    {
        let Move { from, to, count } = mov;
        let validity: MoveValidity = self.check_validity(mov);
        if validity == MoveValidity::Invalid {
            return false;
        }
        if validity == MoveValidity::ValidCheat {
            self.stacks[to].cheated = true;
        }
        let ghost before = old(self)@.stacks;
        let ghost source = before[from as int].cards;
        let ghost target = before[to as int].cards;
        let ghost kept = source.len() - count;

        let mut moving_cards: Vec<Card> = Vec::new();
        self.stacks[from].cheated = false;
        let mut taken: usize = 0;
        while taken < count
            invariant
                before.len() == STACKS,
                from < STACKS,
                to < STACKS,
                from != to,
                taken <= count <= source.len(),
                kept == source.len() - count,
                moving_cards@.len() == taken,
                self.stacks[from as int].cards@ == source.take(source.len() - taken),
                forall|k: int| 0 <= k < taken ==> moving_cards@[k] == source[source.len() - 1 - k],
                self.stacks[from as int].collapsed == before[from as int].collapsed,
                self.stacks[from as int].cheated == false,
                self.stacks[to as int].cards@ == target,
                self.stacks[to as int].collapsed == before[to as int].collapsed,
                self.stacks[to as int].cheated == (validity == MoveValidity::ValidCheat),
                forall|i: int|
                    0 <= i < STACKS && i != from && i != to ==> self.stacks[i] == old(
                        self,
                    ).stacks[i],
                self.past_moves == old(self).past_moves,
                self.available_moves == old(self).available_moves,
            decreases count - taken,
        {
            let card: Option<Card> = self.stacks[from].cards.pop();
            assert(source.take(source.len() - taken).drop_last() == source.take(
                source.len() - taken - 1,
            ));
            match card {
                Some(c) => {
                    moving_cards.push(c);
                },
                None => {},
            }
            taken += 1;
        }
        let mut put: usize = 0;
        while put < count
            invariant
                before.len() == STACKS,
                from < STACKS,
                to < STACKS,
                from != to,
                put <= count <= source.len(),
                kept == source.len() - count,
                moving_cards@.len() == count - put,
                forall|k: int|
                    0 <= k < count - put ==> moving_cards@[k] == source[source.len() - 1 - k],
                self.stacks[from as int].cards@ == source.take(kept),
                self.stacks[from as int].collapsed == before[from as int].collapsed,
                self.stacks[from as int].cheated == false,
                self.stacks[to as int].cards@ == target + source.subrange(kept, kept + put),
                self.stacks[to as int].collapsed == before[to as int].collapsed,
                self.stacks[to as int].cheated == (validity == MoveValidity::ValidCheat),
                forall|i: int|
                    0 <= i < STACKS && i != from && i != to ==> self.stacks[i] == old(
                        self,
                    ).stacks[i],
                self.past_moves == old(self).past_moves,
                self.available_moves == old(self).available_moves,
            decreases count - put,
        {
            let card: Option<Card> = moving_cards.pop();
            match card {
                Some(c) => {
                    self.stacks[to].cards.push(c);
                    assert((target + source.subrange(kept, kept + put)).push(c) == target
                        + source.subrange(kept, kept + put + 1));
                },
                None => {},
            }
            put += 1;
        }
        assert(source.subrange(kept, kept + count) == source.skip(kept));

        if self.stacks[to].highest_orderly_count() == self.stacks[to].cards.len()
            && self.stacks[to].cards.len() == RANKS {
            self.stacks[to].collapsed = true;
        }
        proof {
            let after = stacks_after(before, mov);
            assert(self.stacks[from as int]@ == source_after(before, mov));
            assert(self.stacks[to as int]@ == target_after(before, mov));
            assert forall|i: int| 0 <= i < STACKS implies self@.stacks[i] == after[i] by {
                if i != from && i != to {
                    assert(self.stacks[i] == old(self).stacks[i]);
                }
            }
            assert(self@.stacks =~= after);
        }
        true
    }

    /// Whether the game is won: exactly four of the six stacks have collapsed.
    pub fn is_win(&self) -> (won: bool)
        ensures
            won == is_won(self@.stacks),
    {
        let mut collapsed_count: usize = 0;
        let mut i: usize = 0;
        while i < STACKS
            invariant
                i <= STACKS,
                collapsed_count == crate::matrix::collapsed_count(self@.stacks, i as nat),
                collapsed_count <= i,
            decreases STACKS - i,
        {
            if self.stacks[i].collapsed {
                collapsed_count += 1;
            }
            i += 1;
        }
        collapsed_count == STACKS_TO_WIN
    }

    /// A position with the same stacks and the same moves played. The moves
    /// found by `save_moves` are not taken over.
    pub fn copy(&self) -> (m: Matrix)
        ensures
            m@ == self@,
            m.available_moves@.len() == 0,
    {
        let mut matrix: Matrix = Matrix::new();
        let mut i: usize = 0;
        while i < STACKS
            invariant
                i <= STACKS,
                forall|k: int| 0 <= k < i ==> matrix.stacks[k]@ == self.stacks[k]@,
                matrix.past_moves@.len() == 0,
                matrix.available_moves@.len() == 0,
            decreases STACKS - i,
        {
            matrix.stacks[i] = self.stacks[i].copy();
            i += 1;
        }
        let mut j: usize = 0;
        while j < self.past_moves.len()
            invariant
                j <= self.past_moves@.len(),
                forall|k: int| 0 <= k < STACKS ==> matrix.stacks[k]@ == self.stacks[k]@,
                matrix.past_moves@ == self.past_moves@.take(j as int),
                matrix.available_moves@.len() == 0,
            decreases self.past_moves@.len() - j,
        {
            matrix.past_moves.push(self.past_moves[j]);
            assert(self.past_moves@.take(j as int).push(self.past_moves@[j as int])
                == self.past_moves@.take(j + 1));
            j += 1;
        }
        assert(self.past_moves@.take(j as int) == self.past_moves@);
        assert(matrix@.stacks =~= self@.stacks);
        matrix
    }

    /// The position after `mov` was tried on a copy of this one. The move is
    /// entered in the copy's list of moves played whether or not the rules
    /// allowed it.
    pub fn copy_after_move(&self, mov: Move) -> (m: Matrix)
        ensures
            m@ == self@.after(mov),
            m.available_moves@.len() == 0,
    {
        let mut matrix: Matrix = self.copy();
        matrix.move_stack(mov);
        matrix.past_moves.push(mov);
        matrix
    }
}

} // verus!
