//! Dealing a position at random.

use rand::rngs::SmallRng;
use rand::Rng;
use vstd::prelude::*;
use crate::card::{lemma_rank_round_trip, Card, RANKS};
use crate::laws::{cards_in, cards_upto, lemma_cards_update, lemma_moves_keep_cards};
use crate::matrix::{Matrix, MatrixView, STACKS};
use crate::moves::Move;
use crate::replay::stacks_after_all;
use crate::stack::StackView;

verus! {

/// How often every rank is in the game.
pub const SUITS: usize = 4;

/// How many cards every stack gets in a deal.
pub const DEALT_HEIGHT: usize = 6;

/// The small fast random number generator of the rand crate. Nothing is
/// known of its state.
#[verifier::external_type_specification]
#[verifier::external_body]
pub struct ExSmallRng(SmallRng);

/// `Rng::gen_range` of the rand crate, asked for a number in `0..bound`. The
/// range must not be empty, and the number lies in it. Which number comes is
/// left open.
#[verifier::external_body]
fn pick_below(rng: &mut SmallRng, bound: usize) -> (pick: usize)
    requires
        bound > 0,
    ensures
        pick < bound,
{
    rng.gen_range(0..bound)
}

/// The stack is as it is dealt: it has six cards, it has not collapsed, and
/// no cheat blocks it.
pub open spec fn is_dealt_stack(stack: StackView) -> bool {
    stack.cards.len() == DEALT_HEIGHT && !stack.collapsed && !stack.cheated
}

/// The position is a deal: six stacks of six cards, every rank four times,
/// nothing collapsed or blocked, and no move played.
pub open spec fn is_deal(m: MatrixView) -> bool {
    &&& m.stacks.len() == STACKS
    &&& forall|i: int| 0 <= i < STACKS ==> is_dealt_stack(#[trigger] m.stacks[i])
    &&& forall|card: Card| #[trigger] cards_in(m.stacks).count(card) == SUITS
    &&& m.past_moves.len() == 0
}

/// A deal holds thirty-six cards, and whatever moves are tried from it, the
/// position holds the same thirty-six: every rank four times.
pub proof fn lemma_deal_stays_complete(m: MatrixView, moves: Seq<Move>)
    requires
        is_deal(m),
    ensures
        cards_in(m.stacks).len() == SUITS * RANKS,
        cards_in(stacks_after_all(m.stacks, moves)) == cards_in(m.stacks),
        forall|card: Card| #[trigger] cards_in(stacks_after_all(m.stacks, moves)).count(card) == SUITS,
{
    broadcast use {vstd::multiset::group_multiset_axioms, vstd::seq_lib::to_multiset_len};

    lemma_moves_keep_cards(m.stacks, moves);
    reveal_with_fuel(cards_upto, 7);
    assert(forall|i: int| 0 <= i < STACKS ==> is_dealt_stack(#[trigger] m.stacks[i]));
    assert(is_dealt_stack(m.stacks[0]));
    assert(is_dealt_stack(m.stacks[1]));
    assert(is_dealt_stack(m.stacks[2]));
    assert(is_dealt_stack(m.stacks[3]));
    assert(is_dealt_stack(m.stacks[4]));
    assert(is_dealt_stack(m.stacks[5]));
}

/// How many of the first `dealt` cards, dealt in turn to the six stacks, have
/// gone to stack `i`.
pub open spec fn share(dealt: int, i: int) -> int {
    dealt / 6 + if i < dealt % 6 {
        1int
    } else {
        0int
    }
}

/// The stack with one more card on top.
pub open spec fn with_card(stack: StackView, card: Card) -> StackView {
    StackView { cards: stack.cards.push(card), collapsed: stack.collapsed, cheated: stack.cheated }
}

/// No card lies among no cards.
pub proof fn lemma_no_cards(cards: Seq<Card>)
    requires
        cards.len() == 0,
    ensures
        forall|card: Card| #[trigger] cards.to_multiset().count(card) == 0,
{
    assert forall|card: Card| #[trigger] cards.to_multiset().count(card) == 0 by {
        vstd::seq_lib::to_multiset_contains(cards, card);
    }
}

/// One card of every rank, lowest first.
pub fn full_suit() -> (suit: Vec<Card>)
    ensures
        suit@.len() == RANKS,
        forall|k: int| 0 <= k < RANKS ==> #[trigger] suit@[k] == Card::spec_from_rank(k as nat),
        forall|card: Card| #[trigger] suit@.to_multiset().count(card) == 1,
{
    broadcast use vstd::multiset::group_multiset_axioms;

    let mut suit: Vec<Card> = Vec::new();
    let mut rank: usize = 0;
    proof {
        lemma_no_cards(suit@);
    }
    while rank < RANKS
        invariant
            rank <= RANKS,
            suit@.len() == rank,
            forall|k: int| 0 <= k < rank ==> #[trigger] suit@[k] == Card::spec_from_rank(k as nat),
            forall|card: Card|
                #[trigger] suit@.to_multiset().count(card) == if card.spec_rank() < rank {
                    1nat
                } else {
                    0nat
                },
        decreases RANKS - rank,
    {
        let ghost before = suit@;
        match Card::from_rank(rank) {
            Some(card) => {
                suit.push(card);
                proof {
                    assert(suit@ == before.push(card));
                    vstd::seq_lib::to_multiset_build(before, card);
                    assert forall|other: Card|
                        #[trigger] suit@.to_multiset().count(other) == if other.spec_rank() < rank
                            + 1 {
                            1nat
                        } else {
                            0nat
                        } by {
                        lemma_rank_round_trip(other, rank as nat);
                        assert(suit@.to_multiset().count(other) == before.to_multiset().count(other)
                            + if other == card {
                            1nat
                        } else {
                            0nat
                        });
                    }
                }
            },
            None => {},
        }
        rank += 1;
    }
    proof {
        assert forall|card: Card| #[trigger] suit@.to_multiset().count(card) == 1 by {
            lemma_rank_round_trip(card, 0);
        }
    }
    suit
}

impl Matrix {
    /// Takes the card at place `pick` out of `left` and puts it on top of
    /// stack `to`. Where `left` has no such place or the position no such
    /// stack, nothing is changed. Says whether the card was dealt.
    pub fn deal_card(&mut self, left: &mut Vec<Card>, pick: usize, to: usize) -> (dealt: bool)
        ensures
            dealt == (pick < old(left)@.len() && to < STACKS),
            dealt ==> final(left)@ == old(left)@.remove(pick as int),
            dealt ==> final(self)@.stacks == old(self)@.stacks.update(
                to as int,
                with_card(old(self)@.stacks[to as int], old(left)@[pick as int]),
            ),
            !dealt ==> final(left)@ == old(left)@ && final(self)@.stacks == old(self)@.stacks,
            final(self)@.past_moves == old(self)@.past_moves,
            final(self).available_moves == old(self).available_moves,
    {
        if pick >= left.len() || to >= STACKS {
            return false;
        }
        let card: Card = left.remove(pick);
        self.stacks[to].cards.push(card);
        proof {
            let after = old(self)@.stacks.update(
                to as int,
                with_card(old(self)@.stacks[to as int], card),
            );
            assert forall|i: int| 0 <= i < STACKS implies self@.stacks[i] == after[i] by {
                if i != to {
                    assert(self.stacks[i] == old(self).stacks[i]);
                }
            }
            assert(self@.stacks =~= after);
        }
        true
    }

    /// Deals a position at random: four times over, the nine ranks are drawn
    /// in random order and dealt in turn to the six stacks.
    pub fn random(rng: &mut SmallRng) -> (matrix: Matrix)
        ensures
            is_deal(matrix@),
            matrix.available_moves@.len() == 0,
    {
        broadcast use vstd::multiset::group_multiset_axioms;

        let mut matrix: Matrix = Matrix::new();
        let mut matrix_index: usize = 0;
        let mut round: usize = 0;
        proof {
            assert forall|card: Card| #[trigger] cards_in(matrix@.stacks).count(card) == 0 by {
                reveal_with_fuel(cards_upto, 7);
                lemma_no_cards(Seq::<Card>::empty());
                assert(forall|i: int|
                    0 <= i < STACKS ==> (#[trigger] matrix@.stacks[i]).cards
                        == Seq::<Card>::empty());
            }
        }
        while round < SUITS
            invariant
                round <= SUITS,
                matrix_index == (RANKS * round) % 6,
                matrix@.stacks.len() == STACKS,
                forall|i: int|
                    0 <= i < STACKS ==> {
                        &&& (#[trigger] matrix@.stacks[i]).cards.len() == share(RANKS * round, i)
                        &&& !matrix@.stacks[i].collapsed
                        &&& !matrix@.stacks[i].cheated
                    },
                forall|card: Card| #[trigger] cards_in(matrix@.stacks).count(card) == round,
                matrix@.past_moves.len() == 0,
                matrix.available_moves@.len() == 0,
            decreases SUITS - round,
        {
            let mut left: Vec<Card> = full_suit();
            while left.len() != 0
                invariant
                    round < SUITS,
                    left@.len() <= RANKS,
                    matrix_index == (RANKS * round + RANKS - left@.len()) % 6,
                    matrix@.stacks.len() == STACKS,
                    forall|i: int|
                        0 <= i < STACKS ==> {
                            &&& (#[trigger] matrix@.stacks[i]).cards.len() == share(
                                RANKS * round + RANKS - left@.len(),
                                i,
                            )
                            &&& !matrix@.stacks[i].collapsed
                            &&& !matrix@.stacks[i].cheated
                        },
                    forall|card: Card|
                        #[trigger] cards_in(matrix@.stacks).count(card) + left@.to_multiset().count(
                            card,
                        ) == round + 1,
                    matrix@.past_moves.len() == 0,
                    matrix.available_moves@.len() == 0,
                decreases left@.len(),
            {
                let random_index: usize = pick_below(rng, left.len());
                let ghost before = matrix@.stacks;
                let ghost left_before = left@;
                let ghost drawn = left@[random_index as int];
                matrix.deal_card(&mut left, random_index, matrix_index);
                proof {
                    let stack = with_card(before[matrix_index as int], drawn);
                    vstd::seq_lib::to_multiset_build(before[matrix_index as int].cards, drawn);
                    vstd::seq_lib::to_multiset_remove(left_before, random_index as int);
                    vstd::seq_lib::to_multiset_contains(left_before, drawn);
                    assert(left_before.contains(drawn));
                    assert forall|card: Card|
                        #[trigger] cards_in(matrix@.stacks).count(card) + left@.to_multiset().count(
                            card,
                        ) == round + 1 by {
                        lemma_cards_update(before, STACKS as nat, matrix_index as int, stack, card);
                        assert(cards_in(before).count(card) + left_before.to_multiset().count(card)
                            == round + 1);
                    }
                }
                matrix_index += 1;
                matrix_index %= 6;
            }
            proof {
                lemma_no_cards(left@);
            }
            round += 1;
        }
        matrix
    }
}

} // verus!
