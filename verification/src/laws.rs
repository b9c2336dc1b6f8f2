//! What holds of the rules in every position.

use vstd::multiset::Multiset;
use vstd::prelude::*;
use crate::card::{Card, RANKS};
use crate::matrix::{
    allowed, classify, in_range, is_complete, source_after, stacks_after, target_after, Matrix,
};
use crate::moves::{Move, MoveValidity};
use crate::replay::stacks_after_all;
use crate::stack::{fits_on, run_length, StackView};

verus! {

/// The cards of the first `n` stacks, each as often as it lies there.
pub open spec fn cards_upto(stacks: Seq<StackView>, n: nat) -> Multiset<Card>
    decreases n,
{
    if n == 0 {
        Multiset::empty()
    } else {
        cards_upto(stacks, (n - 1) as nat).add(stacks[n - 1].cards.to_multiset())
    }
}

/// The cards of a position, each as often as it lies there.
pub open spec fn cards_in(stacks: Seq<StackView>) -> Multiset<Card> {
    cards_upto(stacks, stacks.len())
}

/// Putting other cards on one stack changes the count of a card in the
/// position by as much as it changes the count on that stack.
pub proof fn lemma_cards_update(
    stacks: Seq<StackView>,
    n: nat,
    i: int,
    stack: StackView,
    card: Card,
)
    requires
        0 <= i < stacks.len(),
        n <= stacks.len(),
    ensures
        cards_upto(stacks.update(i, stack), n).count(card) == if i < n {
            cards_upto(stacks, n).count(card) - stacks[i].cards.to_multiset().count(card)
                + stack.cards.to_multiset().count(card)
        } else {
            cards_upto(stacks, n).count(card) as int
        },
    decreases n,
{
    broadcast use vstd::multiset::group_multiset_axioms;

    if n > 0 {
        lemma_cards_update(stacks, (n - 1) as nat, i, stack, card);
    }
}

/// A move relocates cards and neither makes nor loses one: after it the
/// position holds the same cards, each as often as before.
pub proof fn lemma_move_keeps_cards(stacks: Seq<StackView>, mov: Move)
    ensures
        cards_in(stacks_after(stacks, mov)) == cards_in(stacks),
{
    broadcast use vstd::multiset::group_multiset_axioms;

    if allowed(stacks, mov) {
        let from = mov.from as int;
        let to = mov.to as int;
        let source = stacks[from].cards;
        let target = stacks[to].cards;
        let kept = source.len() - mov.count;
        let new_source = source_after(stacks, mov);
        let new_target = target_after(stacks, mov);
        let between = stacks.update(from, new_source);
        let after = stacks_after(stacks, mov);
        assert(after == between.update(to, new_target));
        assert(between[to] == stacks[to]);
        assert(source == source.take(kept) + source.skip(kept));
        vstd::seq_lib::lemma_multiset_commutative(source.take(kept), source.skip(kept));
        vstd::seq_lib::lemma_multiset_commutative(target, source.skip(kept));
        assert forall|card: Card| cards_in(after).count(card) == cards_in(stacks).count(card) by {
            lemma_cards_update(stacks, stacks.len(), from, new_source, card);
            lemma_cards_update(between, stacks.len(), to, new_target, card);
        }
        assert(cards_in(after) =~= cards_in(stacks));
    }
}

/// However many moves are tried one after the other, the position holds the
/// same cards at the end as at the start, each as often as before.
pub proof fn lemma_moves_keep_cards(stacks: Seq<StackView>, moves: Seq<Move>)
    ensures
        cards_in(stacks_after_all(stacks, moves)) == cards_in(stacks),
    decreases moves.len(),
{
    if moves.len() > 0 {
        lemma_moves_keep_cards(stacks, moves.drop_last());
        lemma_move_keeps_cards(stacks_after_all(stacks, moves.drop_last()), moves.last());
    }
}

/// A move leaves the number of stacks as it is.
pub proof fn lemma_move_keeps_stacks(stacks: Seq<StackView>, mov: Move)
    ensures
        stacks_after(stacks, mov).len() == stacks.len(),
{
}

/// Moves leave the number of stacks as it is.
pub proof fn lemma_moves_keep_stacks(stacks: Seq<StackView>, moves: Seq<Move>)
    ensures
        stacks_after_all(stacks, moves).len() == stacks.len(),
    decreases moves.len(),
{
    if moves.len() > 0 {
        lemma_moves_keep_stacks(stacks, moves.drop_last());
    }
}

/// Putting a card on top of a stack in order makes the run at the top one
/// card longer; any other card on top starts a run of one.
pub proof fn lemma_run_grows_with_fitting_card(cards: Seq<Card>, card: Card)
    ensures
        run_length(cards.push(card)) == if cards.len() > 0 && fits_on(card, cards) {
            run_length(cards) + 1
        } else {
            1
        },
{
    assert(cards.push(card).drop_last() == cards);
}

/// A stack that has collapsed stays collapsed through every move, and a stack
/// collapses only in the move that leaves it with all nine ranks in one run.
pub proof fn lemma_collapsed_stays(stacks: Seq<StackView>, mov: Move, i: int)
    requires
        0 <= i < stacks.len(),
    ensures
        stacks[i].collapsed ==> stacks_after(stacks, mov)[i].collapsed,
        !stacks[i].collapsed && stacks_after(stacks, mov)[i].collapsed ==> {
            &&& allowed(stacks, mov)
            &&& i == mov.to
            &&& stacks_after(stacks, mov)[i].cards.len() == RANKS
            &&& is_complete(stacks_after(stacks, mov)[i].cards)
        },
{
}

/// A stack that has collapsed stays collapsed however many moves are tried,
/// and its cards stay as they are: no move touches it again.
pub proof fn lemma_collapsed_stays_for_good(stacks: Seq<StackView>, moves: Seq<Move>, i: int)
    requires
        0 <= i < stacks.len(),
        stacks[i].collapsed,
    ensures
        stacks_after_all(stacks, moves).len() == stacks.len(),
        stacks_after_all(stacks, moves)[i] == stacks[i],
    decreases moves.len(),
{
    lemma_moves_keep_stacks(stacks, moves);
    if moves.len() > 0 {
        lemma_collapsed_stays_for_good(stacks, moves.drop_last(), i);
        lemma_moves_keep_stacks(stacks, moves.drop_last());
    }
}

/// The rules allow no move that stays on its stack, none from or to a stack
/// that has collapsed, and none to a stack that is blocked by a cheat.
pub proof fn lemma_refused_moves(stacks: Seq<StackView>, mov: Move)
    ensures
        mov.from == mov.to ==> classify(stacks, mov) == MoveValidity::Invalid,
        mov.from < stacks.len() && stacks[mov.from as int].collapsed ==> classify(stacks, mov)
            == MoveValidity::Invalid,
        mov.to < stacks.len() && stacks[mov.to as int].collapsed ==> classify(stacks, mov)
            == MoveValidity::Invalid,
        mov.to < stacks.len() && stacks[mov.to as int].cheated ==> classify(stacks, mov)
            == MoveValidity::Invalid,
        !in_range(stacks, mov) ==> classify(stacks, mov) == MoveValidity::Invalid,
{
}

/// Only a single card is ever parked as a cheat, and several cards move only
/// as the whole run at the top of their stack.
pub proof fn lemma_cheats_are_single_cards(stacks: Seq<StackView>, mov: Move)
    ensures
        classify(stacks, mov) == MoveValidity::ValidCheat ==> mov.count == 1 && !stacks[mov.from as int].cheated,
        allowed(stacks, mov) && mov.count > 1 ==> mov.count == run_length(
            stacks[mov.from as int].cards,
        ),
{
}

/// A cheat blocks the stack it goes to, and every move that the rules allow
/// takes the block from the stack it takes cards from.
pub proof fn lemma_cheat_flags(stacks: Seq<StackView>, mov: Move)
    ensures
        classify(stacks, mov) == MoveValidity::ValidCheat ==> stacks_after(
            stacks,
            mov,
        )[mov.to as int].cheated,
        classify(stacks, mov) == MoveValidity::ValidNormal ==> !stacks_after(
            stacks,
            mov,
        )[mov.to as int].cheated,
        allowed(stacks, mov) ==> !stacks_after(stacks, mov)[mov.from as int].cheated,
{
}

/// What the rules say of a move depends on the stacks and the move alone:
/// two positions with the same stacks get the same answer, whatever moves
/// were played in them and whatever `save_moves` has left in them.
pub proof fn lemma_classification_repeats(first: Matrix, second: Matrix, mov: Move)
    requires
        first@.stacks == second@.stacks,
    ensures
        classify(first@.stacks, mov) == classify(second@.stacks, mov),
{
}

} // verus!
