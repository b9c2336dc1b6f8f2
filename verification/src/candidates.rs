//! The moves a search may try from a position, in the order it tries them.

use vstd::prelude::*;
use crate::enumerate::legal_moves;
use crate::filters::{lemma_filter_first, lemma_filter_step};
use crate::heuristic::{score, Heuristic};
use crate::key::position_key;
use crate::matrix::{classify, stacks_after, Matrix, MatrixView};
use crate::moves::{Move, MoveValidity};
use crate::order::{insert_place, lemma_stable_sort_of_equal_weights, stable_sort};
use crate::stack::StackView;
use crate::visited::Visited;

verus! {

/// The test that picks the moves a search may try: every move where cheats
/// are allowed, and every move but the cheats where they are not.
pub open spec fn wanted(stacks: Seq<StackView>, allow_cheats: bool) -> spec_fn(Move) -> bool {
    |mov: Move| allow_cheats || classify(stacks, mov) != MoveValidity::ValidCheat
}

/// The moves that the rules allow on `stacks` and that a search may try.
pub open spec fn playable_moves(stacks: Seq<StackView>, allow_cheats: bool) -> Seq<Move> {
    legal_moves(stacks).filter(wanted(stacks, allow_cheats))
}

/// The weight of a move: the score of the position it leads to.
pub open spec fn weight_after(stacks: Seq<StackView>, heuristic: Heuristic) -> spec_fn(
    Move,
) -> nat {
    |mov: Move| score(heuristic, stacks_after(stacks, mov))
}

/// The moves a search may try on `stacks`, best score first. Moves of the
/// same score keep the order in which the moves are listed.
pub open spec fn ordered_moves(
    stacks: Seq<StackView>,
    allow_cheats: bool,
    heuristic: Heuristic,
) -> Seq<Move> {
    stable_sort(playable_moves(stacks, allow_cheats), weight_after(stacks, heuristic))
}

/// The test that picks the moves which lead to a position whose key is not
/// in `seen`.
pub open spec fn leads_to_unseen(stacks: Seq<StackView>, seen: Set<Seq<char>>) -> spec_fn(
    Move,
) -> bool {
    |mov: Move| !seen.contains(position_key(stacks_after(stacks, mov)))
}

/// The test that picks the pairs whose position has a key that is not in
/// `seen`.
pub open spec fn holds_unseen(seen: Set<Seq<char>>) -> spec_fn((Move, Matrix)) -> bool {
    |pair: (Move, Matrix)| !seen.contains(position_key(pair.1@.stacks))
}

/// Every pair holds the position that its move leads to from `m`.
pub open spec fn pairs_agree(pairs: Seq<(Move, Matrix)>, m: MatrixView) -> bool {
    forall|i: int| 0 <= i < pairs.len() ==> (#[trigger] pairs[i]).1@ == m.after(pairs[i].0)
}

/// The moves of a pair each.
pub open spec fn moves_of(pairs: Seq<(Move, Matrix)>) -> Seq<Move> {
    pairs.map_values(|pair: (Move, Matrix)| pair.0)
}

/// Where every pair holds the position that its move leads to, the pairs
/// whose position was not seen are the pairs whose move leads to a position
/// not seen.
pub proof fn lemma_pruned_pairs(pairs: Seq<(Move, Matrix)>, m: MatrixView, seen: Set<Seq<char>>)
    requires
        pairs_agree(pairs, m),
    ensures
        pairs_agree(pairs.filter(holds_unseen(seen)), m),
        moves_of(pairs.filter(holds_unseen(seen))) == moves_of(pairs).filter(
            leads_to_unseen(m.stacks, seen),
        ),
    decreases pairs.len(),
{
    reveal(Seq::filter);
    let by_pair = holds_unseen(seen);
    let by_move = leads_to_unseen(m.stacks, seen);
    if pairs.len() == 0 {
        assert(moves_of(pairs) == Seq::<Move>::empty());
        assert(moves_of(pairs.filter(by_pair)) == Seq::<Move>::empty());
    } else {
        let rest = pairs.drop_last();
        let last = pairs.last();
        assert forall|i: int| 0 <= i < rest.len() implies (#[trigger] rest[i]).1@ == m.after(
            rest[i].0,
        ) by {
            assert(rest[i] == pairs[i]);
        }
        lemma_pruned_pairs(rest, m, seen);
        assert(last == pairs[pairs.len() - 1]);
        assert(by_pair(last) == by_move(last.0));
        assert(moves_of(pairs).drop_last() == moves_of(rest));
        assert(moves_of(pairs).last() == last.0);
        if by_pair(last) {
            assert(moves_of(rest.filter(by_pair).push(last)) == moves_of(rest.filter(by_pair)).push(
                last.0,
            ));
        }
    }
}

impl Matrix {
    /// The moves found by `save_moves`, in their order.
    pub open spec fn saved_moves(&self) -> Seq<Move> {
        moves_of(self.available_moves@)
    }

    /// Every move found by `save_moves` comes with the position that it leads
    /// to from this one.
    pub open spec fn saved_agree(&self) -> bool {
        pairs_agree(self.available_moves@, self@)
    }

    /// The moves a search may try from this position, in the order it tries
    /// them, each with the position it leads to.
    fn ordered_candidates(&self, allow_cheats: bool, heuristic: Heuristic) -> (found: Vec<
        (Move, Matrix),
    >)
        ensures
            moves_of(found@) == ordered_moves(self@.stacks, allow_cheats, heuristic),
            forall|i: int|
                0 <= i < found@.len() ==> (#[trigger] found@[i]).1@ == self@.after(found@[i].0),
    {
        let moves: Vec<Move> = self.valid_moves();
        let mut found: Vec<(Move, Matrix)> = Vec::new();
        let mut scores: Vec<usize> = Vec::new();
        let ghost stacks = self@.stacks;
        let ghost pred = wanted(stacks, allow_cheats);
        let ghost weight = weight_after(stacks, heuristic);
        let plain: bool = heuristic == Heuristic::Plain;
        let mut k: usize = 0;
        assert(moves@.take(0).filter(pred) == Seq::<Move>::empty()) by {
            reveal(Seq::filter);
        }
        assert(moves_of(found@) == Seq::<Move>::empty());
        while k < moves.len()
            invariant
                k <= moves@.len(),
                stacks == self@.stacks,
                pred == wanted(stacks, allow_cheats),
                weight == weight_after(stacks, heuristic),
                plain == (heuristic == Heuristic::Plain),
                moves@ == legal_moves(stacks),
                moves_of(found@) == if plain {
                    moves@.take(k as int).filter(pred)
                } else {
                    stable_sort(moves@.take(k as int).filter(pred), weight)
                },
                plain || scores@.len() == found@.len(),
                !plain ==> forall|i: int|
                    0 <= i < found@.len() ==> #[trigger] scores@[i] == weight(found@[i].0),
                forall|i: int|
                    0 <= i < found@.len() ==> (#[trigger] found@[i]).1@ == self@.after(
                        found@[i].0,
                    ),
            decreases moves@.len() - k,
        {
            let mov: Move = moves[k];
            let ghost done = moves@.take(k as int).filter(pred);
            let ghost sorted = moves_of(found@);
            proof {
                lemma_filter_step(moves@, k as int, pred);
            }
            if allow_cheats || self.check_validity(mov) != MoveValidity::ValidCheat {
                let next: Matrix = self.copy_after_move(mov);
                assert(done.push(mov).drop_last() == done);
                if plain {
                    found.push((mov, next));
                    assert(moves_of(found@) == sorted.push(mov));
                } else {
                    let s: usize = heuristic.calculate(&next);
                    let mut p: usize = found.len();
                    assert(sorted.take(p as int) == sorted);
                    while p > 0 && scores[p - 1] > s
                        invariant
                            p <= found@.len(),
                            scores@.len() == found@.len(),
                            sorted == moves_of(found@),
                            forall|i: int|
                                0 <= i < found@.len() ==> #[trigger] scores@[i] == weight(
                                    found@[i].0,
                                ),
                            insert_place(sorted, weight, s as nat) == insert_place(
                                sorted.take(p as int),
                                weight,
                                s as nat,
                            ),
                        decreases p,
                    {
                        assert(sorted.take(p as int).drop_last() == sorted.take(p - 1));
                        assert(sorted.take(p as int).last() == found@[p - 1].0);
                        p -= 1;
                    }
                    proof {
                        if p > 0 {
                            assert(sorted.take(p as int).last() == found@[p - 1].0);
                        }
                        assert(insert_place(sorted, weight, s as nat) == p);
                    }
                    found.insert(p, (mov, next));
                    scores.insert(p, s);
                    assert(moves_of(found@) == sorted.insert(p as int, mov));
                }
            }
            k += 1;
        }
        proof {
            assert(moves@.take(k as int) == moves@);
            if plain {
                let playable = playable_moves(stacks, allow_cheats);
                assert forall|i: int| 0 <= i < playable.len() implies weight(
                    #[trigger] playable[i],
                ) == 0 by {}
                lemma_stable_sort_of_equal_weights(playable, weight, 0);
            }
        }
        found
    }

    /// Finds the moves a search may try from this position and keeps them in
    /// `available_moves`, best score first, each with the position it leads
    /// to. The position itself is left as it is.
    pub fn save_moves(&mut self, allow_cheats: bool, heuristic: Heuristic)
        ensures
            final(self)@ == old(self)@,
            final(self).saved_moves() == ordered_moves(old(self)@.stacks, allow_cheats, heuristic),
            final(self).saved_agree(),
    {
        let found: Vec<(Move, Matrix)> = self.ordered_candidates(allow_cheats, heuristic);
        self.available_moves = found;
        assert(self@.stacks =~= old(self)@.stacks);
    }

    /// Drops from `available_moves` every pair whose position has its key in
    /// `past_matrices`. The pairs that stay keep their order. Where every pair
    /// held the position that its move leads to, the moves that stay are the
    /// moves that lead to a position not seen.
    pub fn prune(&mut self, past_matrices: &Visited)
        requires
            past_matrices.wf(),
        ensures
            final(self)@ == old(self)@,
            final(self).available_moves@ == old(self).available_moves@.filter(
                holds_unseen(past_matrices@),
            ),
            old(self).saved_agree() ==> final(self).saved_agree(),
            old(self).saved_agree() ==> final(self).saved_moves() == old(self).saved_moves().filter(
                leads_to_unseen(old(self)@.stacks, past_matrices@),
            ),
    {
        let ghost all = old(self).available_moves@;
        let ghost pred = holds_unseen(past_matrices@);
        let mut i: usize = self.available_moves.len();
        assert(all.skip(i as int).filter(pred) == Seq::<(Move, Matrix)>::empty()) by {
            reveal(Seq::filter);
        }
        assert(all.take(i as int) == all);
        while i > 0
            invariant
                past_matrices.wf(),
                self@ == old(self)@,
                all == old(self).available_moves@,
                pred == holds_unseen(past_matrices@),
                i <= all.len(),
                i <= self.available_moves@.len(),
                self.available_moves@ == all.take(i as int) + all.skip(i as int).filter(pred),
            decreases i,
        {
            i -= 1;
            let ghost kept = self.available_moves@;
            assert(kept[i as int] == all[i as int]);
            let key: String = self.available_moves[i].1.to_string();
            proof {
                lemma_filter_first(all, i as int, pred);
                assert(all.take(i + 1) == all.take(i as int).push(all[i as int]));
            }
            if past_matrices.contains(&key) {
                self.available_moves.remove(i);
                proof {
                    assert(self@.stacks =~= old(self)@.stacks);
                    assert(kept.remove(i as int) == all.take(i as int) + all.skip(i + 1).filter(
                        pred,
                    ));
                }
            } else {
                assert(kept == all.take(i as int) + (seq![all[i as int]] + all.skip(i + 1).filter(
                    pred,
                )));
            }
        }
        proof {
            assert(all.skip(0) == all);
            if old(self).saved_agree() {
                lemma_pruned_pairs(all, old(self)@, past_matrices@);
            }
        }
    }
}

} // verus!
