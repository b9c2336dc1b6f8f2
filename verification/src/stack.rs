//! One stack of cards and the orderly run at its top.

use vstd::prelude::*;
use crate::card::{Card, RANKS};

verus! {

/// A stack of cards. The last card of `cards` is the top of the stack.
pub struct Stack {
    pub cards: Vec<Card>,
    /// The stack once held all nine ranks in one run; it takes no further part
    /// in the game.
    pub collapsed: bool,
    /// The top card was put here out of order and has not been taken away yet.
    pub cheated: bool,
}

/// What a stack is to the rules: its cards from bottom to top and its two flags.
#[verifier::ext_equal]
pub struct StackView {
    pub cards: Seq<Card>,
    pub collapsed: bool,
    pub cheated: bool,
}

impl View for Stack {
    type V = StackView;

    open spec fn view(&self) -> StackView {
        StackView { cards: self.cards@, collapsed: self.collapsed, cheated: self.cheated }
    }
}

/// `upper` may lie directly on `lower` in an orderly run: it is one rank below.
pub open spec fn sits_on(upper: Card, lower: Card) -> bool {
    upper.spec_rank() + 1 == lower.spec_rank()
}

/// The top `n` cards of `cards` form an orderly run: each of them but the
/// lowest lies on a card one rank above it.
pub open spec fn is_run(cards: Seq<Card>, n: nat) -> bool {
    &&& n <= cards.len()
    &&& forall|k: int|
        1 <= k < n ==> sits_on(#[trigger] cards[cards.len() - k], cards[cards.len() - k - 1])
}

/// The length of the longest orderly run at the top of `cards`.
pub open spec fn run_length(cards: Seq<Card>) -> nat
    decreases cards.len(),
{
    if cards.len() <= 1 {
        cards.len()
    } else if sits_on(cards[cards.len() - 1], cards[cards.len() - 2]) {
        1 + run_length(cards.drop_last())
    } else {
        1
    }
}

/// A card may be put in order onto `cards`: they are empty, or their top card
/// is one rank above it.
pub open spec fn fits_on(card: Card, cards: Seq<Card>) -> bool {
    cards.len() == 0 || sits_on(card, cards.last())
}

/// The run at the top never reaches further down than the stack does, it is
/// the whole stack where that has at most one card, and it is an orderly run
/// that cannot be made longer: the card below it, if there is one, does not
/// carry it on.
pub proof fn lemma_run_length(cards: Seq<Card>)
    ensures
        run_length(cards) <= cards.len(),
        cards.len() <= 1 ==> run_length(cards) == cards.len(),
        cards.len() >= 1 ==> run_length(cards) >= 1,
        is_run(cards, run_length(cards)),
        run_length(cards) < cards.len() ==> !sits_on(
            cards[cards.len() - run_length(cards)],
            cards[cards.len() - run_length(cards) - 1],
        ),
    decreases cards.len(),
{
    if cards.len() >= 2 && sits_on(cards[cards.len() - 1], cards[cards.len() - 2]) {
        let rest = cards.drop_last();
        lemma_run_length(rest);
        let n = run_length(cards);
        assert forall|k: int| 1 <= k < n implies sits_on(
            #[trigger] cards[cards.len() - k],
            cards[cards.len() - k - 1],
        ) by {
            if k >= 2 {
                assert(rest[rest.len() - (k - 1)] == cards[cards.len() - k]);
                assert(rest[rest.len() - (k - 1) - 1] == cards[cards.len() - k - 1]);
            }
        }
    }
}

/// An orderly run climbs one rank with every card below its top, so the card
/// `k` places below the top of a run is `k` ranks above the top card.
pub proof fn lemma_run_ranks(cards: Seq<Card>, n: nat, k: int)
    requires
        is_run(cards, n),
        0 <= k < n,
    ensures
        cards[cards.len() - 1 - k].spec_rank() == cards.last().spec_rank() + k,
    decreases k,
{
    if k > 0 {
        lemma_run_ranks(cards, n, k - 1);
        assert(sits_on(cards[cards.len() - k], cards[cards.len() - k - 1]));
    }
}

/// No orderly run is longer than there are ranks.
pub proof fn lemma_run_at_most_ranks(cards: Seq<Card>, n: nat)
    requires
        is_run(cards, n),
    ensures
        n <= RANKS,
{
    if n > 0 {
        lemma_run_ranks(cards, n, n - 1);
    }
}

/// Only one length is that of an orderly run which the next card below does
/// not carry on: the length of the longest run.
pub proof fn lemma_run_length_unique(cards: Seq<Card>, n: nat)
    requires
        is_run(cards, n),
        cards.len() >= 1 ==> n >= 1,
        n < cards.len() ==> !sits_on(cards[cards.len() - n], cards[cards.len() - n - 1]),
    ensures
        n == run_length(cards),
    decreases cards.len(),
{
    if cards.len() >= 2 {
        if sits_on(cards[cards.len() - 1], cards[cards.len() - 2]) {
            let rest = cards.drop_last();
            if n == 1 {
                assert(false);
            }
            let m = (n - 1) as nat;
            assert forall|k: int| 1 <= k < m implies sits_on(
                #[trigger] rest[rest.len() - k],
                rest[rest.len() - k - 1],
            ) by {
                assert(sits_on(cards[cards.len() - (k + 1)], cards[cards.len() - (k + 1) - 1]));
            }
            if m < rest.len() {
                assert(rest[rest.len() - m] == cards[cards.len() - n]);
                assert(rest[rest.len() - m - 1] == cards[cards.len() - n - 1]);
            }
            lemma_run_length_unique(rest, m);
        } else {
            if n >= 2 {
                assert(sits_on(cards[cards.len() - 1], cards[cards.len() - 1 - 1]));
            }
        }
    }
}

impl Default for Stack {
    /// A stack without cards.
    fn default() -> (s: Stack)
        ensures
            s@ == (StackView { cards: Seq::empty(), collapsed: false, cheated: false }),
    {
        Stack::new()
    }
}

impl Stack {
    /// A stack without cards.
    pub fn new() -> (s: Stack)
        ensures
            s@ == (StackView { cards: Seq::empty(), collapsed: false, cheated: false }),
    {
        Stack { cards: Vec::new(), collapsed: false, cheated: false }
    }

    /// The length of the longest orderly run at the top of the stack.
    pub fn highest_orderly_count(&self) -> (count: usize)
        ensures
            count == run_length(self.cards@),
            count <= self.cards@.len(),
            count <= RANKS,
    {
        let len = self.cards.len();
        proof {
            lemma_run_length(self.cards@);
            lemma_run_at_most_ranks(self.cards@, run_length(self.cards@));
        }
        if len < 2 {
            return len;
        }
        let mut ret: usize = 1;
        assert(self.cards@.take(len as int) == self.cards@);
        while self.cards[len - ret].rank() + 1 == self.cards[len - ret - 1].rank()
            invariant_except_break
                1 <= ret < len,
            invariant
                len == self.cards@.len(),
                1 <= ret <= len,
                run_length(self.cards@) == ret - 1 + run_length(self.cards@.take(len - ret + 1)),
            ensures
                run_length(self.cards@) == ret,
            decreases len - ret,
        {
            proof {
                let upper = self.cards@.take(len - ret + 1);
                assert(upper.drop_last() == self.cards@.take(len - ret));
                assert(upper[upper.len() - 1] == self.cards@[len - ret]);
                assert(upper[upper.len() - 2] == self.cards@[len - ret - 1]);
            }
            ret += 1;
            if ret == len {
                assert(run_length(self.cards@.take(1)) == 1);
                break;
            }
        }
        proof {
            if ret < len {
                let upper = self.cards@.take(len - ret + 1);
                assert(upper[upper.len() - 1] == self.cards@[len - ret]);
                assert(upper[upper.len() - 2] == self.cards@[len - ret - 1]);
            }
        }
        ret
    }

    /// Whether `card` may be put in order onto the stack.
    pub fn is_orderly(&self, card: Card) -> (r: bool)
        ensures
            r == fits_on(card, self.cards@),
    {
        if self.cards.len() == 0 {
            return true;
        }
        let last_stack_card_index = self.cards.len() - 1;
        let last_stack_card_num = self.cards[last_stack_card_index].rank();
        let card_num = card.rank();
        card_num + 1 == last_stack_card_num
    }

    /// A stack with the same cards and flags.
    pub fn copy(&self) -> (s: Stack)
        ensures
            s@ == self@,
    {
        let mut cards: Vec<Card> = Vec::new();
        let mut j: usize = 0;
        while j < self.cards.len()
            invariant
                j <= self.cards@.len(),
                cards@ == self.cards@.take(j as int),
            decreases self.cards@.len() - j,
        {
            cards.push(self.cards[j]);
            assert(self.cards@.take(j as int).push(self.cards@[j as int]) == self.cards@.take(
                j + 1,
            ));
            j += 1;
        }
        assert(self.cards@.take(j as int) == self.cards@);
        Stack { cards, collapsed: self.collapsed, cheated: self.cheated }
    }
}

} // verus!
