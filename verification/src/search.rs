//! The search for a winning line of play: depth first, best score first, never
//! into a position that was seen before.

use vstd::prelude::*;
use crate::candidates::{leads_to_unseen, ordered_moves};
use crate::heuristic::Heuristic;
use crate::key::position_key;
use crate::lines::{is_win_from, lemma_collected_wins, lemma_search_finds_wins};
use crate::matrix::{is_won, Matrix, MatrixView};
use crate::moves::Move;
use crate::order::{ascending, insert_place, lemma_stable_sort, stable_sort};
use crate::visited::Visited;

verus! {

/// The longest line of play that a search extends, unless told otherwise.
pub const STEP_LIMIT: usize = 2000;

/// The number of positions that a search may see, unless told otherwise.
pub const PAST_LIMIT: usize = 20000;

/// The bounds of a search.
#[derive(Clone, Copy, PartialEq, Eq, Debug, Structural)]
pub struct SearchLimits {
    /// A position reached by more moves than this is not searched further.
    pub step_limit: usize,
    /// Once more positions than this have been seen, nothing is searched
    /// further.
    pub past_limit: usize,
}

impl SearchLimits {
    /// The usual bounds: lines of up to 2000 moves, 20000 positions.
    pub fn new() -> (limits: SearchLimits)
        ensures
            limits.step_limit == STEP_LIMIT,
            limits.past_limit == PAST_LIMIT,
    {
        SearchLimits { step_limit: STEP_LIMIT, past_limit: PAST_LIMIT }
    }
}

impl Default for SearchLimits {
    fn default() -> (limits: SearchLimits)
        ensures
            limits.step_limit == STEP_LIMIT,
            limits.past_limit == PAST_LIMIT,
    {
        SearchLimits::new()
    }
}

/// How a search ended: the won position it found, if any, and the keys of
/// the positions seen by then.
#[verifier::ext_equal]
pub struct Outcome {
    pub found: Option<MatrixView>,
    pub seen: Set<Seq<char>>,
}

/// How many more moves a search may add to the line that led to `m`, and one
/// more: zero where the line is too long already.
pub open spec fn room(m: MatrixView, limits: SearchLimits) -> nat {
    if m.past_moves.len() <= limits.step_limit {
        (limits.step_limit + 1 - m.past_moves.len()) as nat
    } else {
        0
    }
}

/// What the search from `m` finds when the positions with keys in `seen` have
/// been seen before.
///
/// The position is entered among those seen. If that makes more of them than
/// the bound allows, the search gives up. Otherwise it takes the moves it may
/// try, best score first, and drops those that lead to a position seen
/// before. If none is left, the search has found `m` if `m` is won, and
/// nothing if it is not. If the line that led to `m` is longer than the bound
/// allows, the search gives up. Otherwise it searches from the positions that
/// the moves lead to, one after the other, until one of these searches finds
/// a won position.
pub open spec fn search(
    m: MatrixView,
    seen: Set<Seq<char>>,
    allow_cheats: bool,
    heuristic: Heuristic,
    limits: SearchLimits,
) -> Outcome
    decreases room(m, limits), 1nat, 0nat,
{
    let seen = seen.insert(position_key(m.stacks));
    if seen.len() > limits.past_limit {
        Outcome { found: None, seen }
    } else {
        let moves = ordered_moves(m.stacks, allow_cheats, heuristic).filter(
            leads_to_unseen(m.stacks, seen),
        );
        if moves.len() == 0 {
            Outcome { found: if is_won(m.stacks) { Some(m) } else { None }, seen }
        } else if m.past_moves.len() > limits.step_limit {
            Outcome { found: None, seen }
        } else {
            search_each(m, moves, 0, seen, allow_cheats, heuristic, limits)
        }
    }
}

/// What the searches from the positions that `moves[i]`, `moves[i + 1]` and
/// so on lead to from `m` find, one after the other, each starting with what
/// the one before it has seen: the first won position that one of them finds.
pub open spec fn search_each(
    m: MatrixView,
    moves: Seq<Move>,
    i: nat,
    seen: Set<Seq<char>>,
    allow_cheats: bool,
    heuristic: Heuristic,
    limits: SearchLimits,
) -> Outcome
    decreases room(m, limits), 0nat, moves.len() - i,
{
    if i >= moves.len() || m.past_moves.len() > limits.step_limit {
        Outcome { found: None, seen }
    } else {
        let tried = search(m.after(moves[i as int]), seen, allow_cheats, heuristic, limits);
        if tried.found is Some {
            tried
        } else {
            search_each(m, moves, i + 1, tried.seen, allow_cheats, heuristic, limits)
        }
    }
}

/// How many positions may still be seen: a bound on the number of searches
/// that each see a position not seen before.
pub open spec fn searches_left(seen: Set<Seq<char>>, limits: SearchLimits) -> nat {
    if seen.len() < limits.past_limit {
        (limits.past_limit - seen.len()) as nat
    } else {
        0
    }
}

/// The won position of an outcome, as a sequence of one or none.
pub open spec fn won_in(round: Outcome) -> Seq<MatrixView> {
    match round.found {
        Some(w) => seq![w],
        None => Seq::<MatrixView>::empty(),
    }
}

/// The won positions that repeated searches from `m` find, in the order in
/// which they are found. Every search starts with what the searches before it
/// have seen, and so is driven into lines that were not tried yet.
///
/// The searches stop when as many positions have been seen as the bound
/// allows, when a search sees no position that was not seen before, and,
/// where cheats are not allowed, with the first won position.
pub open spec fn collect_wins(
    m: MatrixView,
    seen: Set<Seq<char>>,
    allow_cheats: bool,
    heuristic: Heuristic,
    limits: SearchLimits,
) -> Seq<MatrixView>
    decreases searches_left(seen, limits),
{
    if seen.len() >= limits.past_limit {
        Seq::<MatrixView>::empty()
    } else {
        let round = search(m, seen, allow_cheats, heuristic, limits);
        if (round.found is Some && !allow_cheats) || round.seen.len() <= seen.len() {
            won_in(round)
        } else {
            won_in(round) + collect_wins(m, round.seen, allow_cheats, heuristic, limits)
        }
    }
}

/// The weight of a position in a list of won positions: the number of moves
/// played.
pub open spec fn moves_played() -> spec_fn(MatrixView) -> nat {
    |m: MatrixView| m.past_moves.len()
}

/// What each of the positions is to the rules.
pub open spec fn views_of(positions: Seq<Matrix>) -> Seq<MatrixView> {
    positions.map_values(|m: Matrix| m@)
}

/// Searches from `matrix` for a won position and returns it with the moves
/// that lead to it; `None` if the search finds none within its bounds.
///
/// The keys of the positions seen are added to `past_matrices`, and no
/// position whose key is in there is entered. What the search does step by
/// step is told by `search`. The moves left in `matrix.available_moves` are
/// working storage; the position itself is left as it is.
pub fn find_win(
    matrix: &mut Matrix,
    past_matrices: &mut Visited,
    allow_cheats: bool,
    heuristic: Heuristic,
    limits: SearchLimits,
) -> (result: Option<Matrix>)
    requires
        old(past_matrices).wf(),
    ensures
        final(past_matrices).wf(),
        final(matrix)@ == old(matrix)@,
        final(past_matrices)@ == search(
            old(matrix)@,
            old(past_matrices)@,
            allow_cheats,
            heuristic,
            limits,
        ).seen,
        match result {
            Some(winner) => search(
                old(matrix)@,
                old(past_matrices)@,
                allow_cheats,
                heuristic,
                limits,
            ).found == Some(winner@),
            None => search(
                old(matrix)@,
                old(past_matrices)@,
                allow_cheats,
                heuristic,
                limits,
            ).found is None,
        },
        result matches Some(winner) ==> is_win_from(old(matrix)@, winner@, allow_cheats),
    decreases room(old(matrix)@, limits), 1nat, 0nat,
{
    let ghost m = matrix@;
    let ghost goal = search(m, past_matrices@, allow_cheats, heuristic, limits);
    proof {
        lemma_search_finds_wins(m, past_matrices@, allow_cheats, heuristic, limits);
    }
    past_matrices.insert(matrix.to_string());
    if past_matrices.len() > limits.past_limit {
        return None;
    }
    let ghost seen = past_matrices@;
    matrix.save_moves(allow_cheats, heuristic);
    matrix.prune(past_matrices);
    let ghost moves = matrix.saved_moves();
    if matrix.available_moves.len() == 0 {
        if matrix.is_win() {
            return Some(matrix.copy());
        } else {
            return None;
        }
    }
    if matrix.past_moves.len() > limits.step_limit {
        return None;
    }
    assert(goal == search_each(m, moves, 0, seen, allow_cheats, heuristic, limits));
    let mut i: usize = 0;
    while i < matrix.available_moves.len()
        invariant
            past_matrices.wf(),
            matrix@ == m,
            m == old(matrix)@,
            matrix.saved_agree(),
            matrix.saved_moves() == moves,
            m.past_moves.len() <= limits.step_limit,
            i <= moves.len(),
            goal == search(old(matrix)@, old(past_matrices)@, allow_cheats, heuristic, limits),
            goal.found matches Some(w) ==> is_win_from(m, w, allow_cheats),
            goal == search_each(m, moves, i as nat, past_matrices@, allow_cheats, heuristic, limits),
        decreases moves.len() - i,
    {
        let mut next: Matrix = matrix.available_moves[i].1.copy();
        let ghost seen_before = past_matrices@;
        let ghost tried = search(
            m.after(moves[i as int]),
            seen_before,
            allow_cheats,
            heuristic,
            limits,
        );
        assert(next@ == m.after(moves[i as int]));
        let result: Option<Matrix> = find_win(
            &mut next,
            past_matrices,
            allow_cheats,
            heuristic,
            limits,
        );
        assert(goal == if tried.found is Some {
            tried
        } else {
            search_each(m, moves, (i + 1) as nat, tried.seen, allow_cheats, heuristic, limits)
        });
        if result.is_some() {
            assert(goal == tried);
            return result;
        }
        i += 1;
    }
    None
}

/// Searches from `matrix` again and again, each time with what the searches
/// before have seen, and returns the won positions found, the one reached by
/// the fewest moves first. Positions reached by equally many moves stand in
/// the order in which they were found.
pub fn find_multiple_wins(
    matrix: Matrix,
    allow_cheats: bool,
    heuristic: Heuristic,
    limits: SearchLimits,
) -> (winners: Vec<Matrix>)
    ensures
        views_of(winners@) == stable_sort(
            collect_wins(matrix@, Set::<Seq<char>>::empty(), allow_cheats, heuristic, limits),
            moves_played(),
        ),
        forall|i: int|
            0 <= i < winners@.len() ==> is_win_from(matrix@, (#[trigger] winners@[i])@, allow_cheats),
        forall|i: int, j: int|
            0 <= i <= j < winners@.len() ==> (#[trigger] winners@[i])@.past_moves.len() <= (
            #[trigger] winners@[j])@.past_moves.len(),
{
    let mut winners: Vec<Matrix> = Vec::new();
    let mut past_matrices: Visited = Visited::new();
    let ghost m = matrix@;
    let ghost all = collect_wins(m, Set::<Seq<char>>::empty(), allow_cheats, heuristic, limits);
    let ghost weight = moves_played();
    let ghost won = Seq::<MatrixView>::empty();
    let mut go_on: bool = true;
    assert(views_of(winners@) == stable_sort(won, weight));
    while go_on && past_matrices.len() < limits.past_limit
        invariant
            past_matrices.wf(),
            m == matrix@,
            weight == moves_played(),
            views_of(winners@) == stable_sort(won, weight),
            all == if go_on {
                won + collect_wins(m, past_matrices@, allow_cheats, heuristic, limits)
            } else {
                won
            },
        decreases
                if go_on {
                    1 + searches_left(past_matrices@, limits)
                } else {
                    0
                },
    {
        let seen_before: usize = past_matrices.len();
        let ghost round = search(m, past_matrices@, allow_cheats, heuristic, limits);
        let ghost won_before = won;
        let mut start: Matrix = matrix.copy();
        let result: Option<Matrix> = find_win(
            &mut start,
            &mut past_matrices,
            allow_cheats,
            heuristic,
            limits,
        );
        let found: bool = result.is_some();
        match result {
            Some(winner) => {
                let ghost sorted = views_of(winners@);
                let steps: usize = winner.past_moves.len();
                let mut p: usize = winners.len();
                assert(sorted.take(p as int) == sorted);
                while p > 0 && winners[p - 1].past_moves.len() > steps
                    invariant
                        p <= winners@.len(),
                        sorted == views_of(winners@),
                        weight == moves_played(),
                        insert_place(sorted, weight, steps as nat) == insert_place(
                            sorted.take(p as int),
                            weight,
                            steps as nat,
                        ),
                    decreases p,
                {
                    assert(sorted.take(p as int).drop_last() == sorted.take(p - 1));
                    assert(sorted.take(p as int).last() == winners@[p - 1]@);
                    p -= 1;
                }
                proof {
                    if p > 0 {
                        assert(sorted.take(p as int).last() == winners@[p - 1]@);
                    }
                    assert(won.push(winner@).drop_last() == won);
                    assert(won + won_in(round) == won.push(winner@));
                    won = won.push(winner@);
                }
                winners.insert(p, winner);
                assert(views_of(winners@) == sorted.insert(p as int, won.last()));
            },
            None => {
                proof {
                    assert(won + won_in(round) == won);
                }
            },
        }
        assert(won == won_before + won_in(round));
        if (found && !allow_cheats) || past_matrices.len() <= seen_before {
            go_on = false;
        } else {
            proof {
                let later = collect_wins(m, round.seen, allow_cheats, heuristic, limits);
                assert((won_before + won_in(round)) + later == won_before + (won_in(round)
                    + later));
            }
        }
    }
    assert(all == won) by {
        if go_on {
            assert(won + Seq::<MatrixView>::empty() == won);
        }
    }
    proof {
        let sorted = views_of(winners@);
        lemma_stable_sort(all, weight);
        assert forall|i: int| 0 <= i < winners@.len() implies is_win_from(
            m,
            (#[trigger] winners@[i])@,
            allow_cheats,
        ) by {
            assert(sorted[i] == winners@[i]@);
            vstd::seq_lib::to_multiset_contains(sorted, sorted[i]);
            vstd::seq_lib::to_multiset_contains(all, sorted[i]);
            let k = all.index_of(sorted[i]);
            lemma_collected_wins(m, Set::<Seq<char>>::empty(), allow_cheats, heuristic, limits, k);
        }
        assert forall|i: int, j: int| 0 <= i <= j < winners@.len() implies (
        #[trigger] winners@[i])@.past_moves.len() <= (#[trigger] winners@[j])@.past_moves.len() by {
            assert(ascending(sorted, weight));
            assert(weight(sorted[i]) <= weight(sorted[j]));
        }
    }
    winners
}

} // verus!
