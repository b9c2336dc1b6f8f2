//! The key of a position: the text under which a search remembers it.

use vstd::prelude::*;
use crate::card::Card;
use crate::matrix::{Matrix, STACKS};
use crate::stack::StackView;

verus! {

/// The character that opens every stack in a key.
pub const STACK_MARK: char = 'S';

/// The character that closes a stack blocked by a cheat.
pub const CHEAT_MARK: char = '_';

/// `String::push` of the standard library: it appends the character to the
/// string and leaves the characters before it as they were.
pub assume_specification[ String::push ](s: &mut String, c: char)
    ensures
        final(s)@ == old(s)@.push(c),
;

/// The characters that the cards are written with, bottom card first.
pub open spec fn cards_text(cards: Seq<Card>) -> Seq<char> {
    cards.map_values(|card: Card| card.spec_to_char())
}

/// The part of a key that stands for one stack: the stack mark, the cards from
/// bottom to top, and the cheat mark if the stack is blocked by a cheat.
pub open spec fn stack_key(stack: StackView) -> Seq<char> {
    seq![STACK_MARK] + cards_text(stack.cards) + if stack.cheated {
        seq![CHEAT_MARK]
    } else {
        Seq::<char>::empty()
    }
}

/// The parts of the key for the first `n` stacks, one after the other.
pub open spec fn key_of_first(stacks: Seq<StackView>, n: nat) -> Seq<char>
    decreases n,
{
    if n == 0 {
        Seq::<char>::empty()
    } else {
        key_of_first(stacks, (n - 1) as nat) + stack_key(stacks[n - 1])
    }
}

/// The key of a position: the parts for its stacks in the order of the stacks.
/// It tells the cards of every stack and which stacks are blocked by a cheat,
/// and nothing of the moves played or of the stacks that have collapsed.
pub open spec fn position_key(stacks: Seq<StackView>) -> Seq<char> {
    key_of_first(stacks, stacks.len())
}

/// The part of a key that stands for a stack opens with the stack mark and
/// has it nowhere else, and it ends with the cheat mark exactly if the stack
/// is blocked by a cheat.
pub proof fn lemma_stack_key_shape(stack: StackView)
    ensures
        stack_key(stack).len() == 1 + stack.cards.len() + if stack.cheated {
            1int
        } else {
            0int
        },
        stack_key(stack)[0] == STACK_MARK,
        forall|k: int| 1 <= k < stack_key(stack).len() ==> stack_key(stack)[k] != STACK_MARK,
        forall|k: int|
            0 <= k < stack.cards.len() ==> #[trigger] stack_key(stack)[k + 1]
                == stack.cards[k].spec_to_char(),
        stack.cheated <==> stack_key(stack).last() == CHEAT_MARK,
{
    let text = cards_text(stack.cards);
    let key = stack_key(stack);
    assert forall|k: int| 0 <= k < stack.cards.len() implies #[trigger] key[k + 1]
        == stack.cards[k].spec_to_char() by {
        assert(key[k + 1] == text[k]);
    }
    assert forall|k: int| 1 <= k < key.len() implies key[k] != STACK_MARK by {
        if k <= stack.cards.len() {
            assert(key[(k - 1) + 1] == stack.cards[k - 1].spec_to_char());
        }
    }
    if !stack.cheated && stack.cards.len() > 0 {
        assert(key[(stack.cards.len() - 1) + 1] == stack.cards[stack.cards.len() - 1].spec_to_char());
    }
}

/// Two stacks with the same part of a key have the same cards, and both or
/// neither are blocked by a cheat.
pub proof fn lemma_stack_key_tells_stack(a: StackView, b: StackView)
    requires
        stack_key(a) == stack_key(b),
    ensures
        a.cards == b.cards,
        a.cheated == b.cheated,
{
    lemma_stack_key_shape(a);
    lemma_stack_key_shape(b);
    assert forall|k: int| 0 <= k < a.cards.len() implies a.cards[k] == b.cards[k] by {
        assert(stack_key(a)[k + 1] == a.cards[k].spec_to_char());
        assert(stack_key(b)[k + 1] == b.cards[k].spec_to_char());
        crate::card::lemma_to_char_injective(a.cards[k], b.cards[k]);
    }
    assert(a.cards =~= b.cards);
}

/// The keys of two positions are the same exactly if the positions have the
/// same cards on every stack and the same stacks blocked by a cheat.
pub proof fn lemma_key_tells_position(a: Seq<StackView>, b: Seq<StackView>)
    requires
        a.len() == b.len(),
    ensures
        position_key(a) == position_key(b) <==> forall|i: int|
            0 <= i < a.len() ==> (#[trigger] a[i]).cards == b[i].cards && a[i].cheated
                == b[i].cheated,
{
    lemma_key_of_first_tells(a, b, a.len());
}

/// The parts of the keys for the first `n` stacks of two positions are the
/// same exactly if these stacks have the same cards and the same of them are
/// blocked by a cheat.
pub proof fn lemma_key_of_first_tells(a: Seq<StackView>, b: Seq<StackView>, n: nat)
    requires
        n <= a.len(),
        n <= b.len(),
    ensures
        key_of_first(a, n) == key_of_first(b, n) <==> forall|i: int|
            0 <= i < n ==> (#[trigger] a[i]).cards == b[i].cards && a[i].cheated == b[i].cheated,
    decreases n,
{
    if n > 0 {
        let m = (n - 1) as nat;
        let head_a = key_of_first(a, m);
        let head_b = key_of_first(b, m);
        let last_a = stack_key(a[n - 1]);
        let last_b = stack_key(b[n - 1]);
        lemma_key_of_first_tells(a, b, m);
        lemma_stack_key_shape(a[n - 1]);
        lemma_stack_key_shape(b[n - 1]);
        if key_of_first(a, n) == key_of_first(b, n) {
            let key = key_of_first(a, n);
            assert(key == head_a + last_a);
            assert(key == head_b + last_b);
            if head_a.len() < head_b.len() {
                let k = head_b.len() as int;
                assert(key[k] == last_b[0]);
                assert(key[k] == last_a[k - head_a.len()]);
                assert(false);
            }
            if head_b.len() < head_a.len() {
                let k = head_a.len() as int;
                assert(key[k] == last_a[0]);
                assert(key[k] == last_b[k - head_b.len()]);
                assert(false);
            }
            assert(head_a == key.take(head_a.len() as int));
            assert(head_b == key.take(head_a.len() as int));
            assert(last_a == key.skip(head_a.len() as int));
            assert(last_b == key.skip(head_a.len() as int));
            lemma_stack_key_tells_stack(a[n - 1], b[n - 1]);
        }
        if forall|i: int|
            0 <= i < n ==> (#[trigger] a[i]).cards == b[i].cards && a[i].cheated == b[i].cheated {
            assert(a[n - 1].cards == b[n - 1].cards && a[n - 1].cheated == b[n - 1].cheated);
            assert(last_a == last_b);
            assert(head_a == head_b);
        }
    }
}

impl Matrix {
    /// The key of the position.
    pub fn to_string(&self) -> (key: String)
        ensures
            key@ == position_key(self@.stacks),
    {
        let mut ret: String = String::new();
        let mut i: usize = 0;
        while i < STACKS
            invariant
                i <= STACKS,
                ret@ == key_of_first(self@.stacks, i as nat),
            decreases STACKS - i,
        {
            let ghost before = ret@;
            let ghost cards = self.stacks[i as int].cards@;
            ret.push(STACK_MARK);
            let mut j: usize = 0;
            while j < self.stacks[i].cards.len()
                invariant
                    i < STACKS,
                    cards == self.stacks[i as int].cards@,
                    j <= cards.len(),
                    ret@ == before + seq![STACK_MARK] + cards_text(cards.take(j as int)),
                decreases cards.len() - j,
            {
                ret.push(self.stacks[i].cards[j].to_char());
                assert(cards_text(cards.take(j + 1)) == cards_text(cards.take(j as int)).push(
                    cards[j as int].spec_to_char(),
                ));
                j += 1;
            }
            assert(cards.take(j as int) == cards);
            if self.stacks[i].cheated {
                ret.push(CHEAT_MARK);
            }
            assert(ret@ == before + stack_key(self@.stacks[i as int]));
            i += 1;
        }
        ret
    }
}

} // verus!
