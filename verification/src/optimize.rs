//! Shortening a winning line of play by searching again near its end.

use vstd::prelude::*;
use crate::candidates::{ordered_moves, playable_moves, weight_after};
use crate::heuristic::Heuristic;
use crate::key::position_key;
use crate::lines::{
    is_win_from, lemma_exhaust_finds_wins, lemma_improve_all, lemma_improve_all_never_longer,
};
use crate::matrix::{is_won, Matrix, MatrixView};
use crate::moves::Move;
use crate::order::lemma_stable_sort_of_equal_weights;
use crate::search::{views_of, Outcome};
use crate::stack::StackView;
use crate::visited::Visited;

verus! {

/// How many positions at the end of a line are left out when the line is
/// searched again.
pub const STARTING_CUTOFF: usize = 2;

/// How much shorter than the best line a line may be where it is searched
/// again, unless told otherwise.
pub const BRUTE_FORCE_DEPTH: usize = 6;

/// The one of two finds that was reached by fewer moves; the first where
/// both were reached by equally many.
pub open spec fn shorter_of(best: Option<MatrixView>, winner: Option<MatrixView>) -> Option<
    MatrixView,
> {
    match (best, winner) {
        (Some(b), Some(w)) => if b.past_moves.len() > w.past_moves.len() {
            winner
        } else {
            best
        },
        (None, _) => winner,
        (_, None) => best,
    }
}

/// How many moves may still be added to the line that led to `m` before it
/// has `max_len` moves.
pub open spec fn moves_left(m: MatrixView, max_len: nat) -> nat {
    if m.past_moves.len() < max_len {
        (max_len - m.past_moves.len()) as nat
    } else {
        0
    }
}

/// What the search through every line of play from `m` finds among the lines
/// of fewer than `max_len` moves: the won position reached by the fewest
/// moves, and of several such the one found first. Cheats are not played.
///
/// The position is entered among those seen. A position reached by `max_len`
/// moves or more is not searched. A position that allows no move is found if
/// it is won. From any other position every move is tried, in the order in
/// which the moves are listed.
pub open spec fn exhaust(m: MatrixView, max_len: nat, seen: Set<Seq<char>>) -> Outcome
    decreases moves_left(m, max_len), 1nat, 0nat,
{
    let seen = seen.insert(position_key(m.stacks));
    if m.past_moves.len() >= max_len {
        Outcome { found: None, seen }
    } else {
        let moves = playable_moves(m.stacks, false);
        if moves.len() == 0 {
            Outcome { found: if is_won(m.stacks) { Some(m) } else { None }, seen }
        } else {
            exhaust_each(m, moves, 0, max_len, None, seen)
        }
    }
}

/// What the searches through every line of play from the positions that
/// `moves[i]`, `moves[i + 1]` and so on lead to from `m` find, one after the
/// other, when `best` was found before: the find reached by the fewest moves.
pub open spec fn exhaust_each(
    m: MatrixView,
    moves: Seq<Move>,
    i: nat,
    max_len: nat,
    best: Option<MatrixView>,
    seen: Set<Seq<char>>,
) -> Outcome
    decreases moves_left(m, max_len), 0nat, moves.len() - i,
{
    if i >= moves.len() || m.past_moves.len() >= max_len {
        Outcome { found: best, seen }
    } else {
        let tried = exhaust(m.after(moves[i as int]), max_len, seen);
        exhaust_each(m, moves, i + 1, max_len, shorter_of(best, tried.found), tried.seen)
    }
}

/// The shorter of the best line so far and a find, the best line where the
/// find is no shorter.
pub open spec fn better_of(best: MatrixView, tried: Option<MatrixView>) -> MatrixView {
    match tried {
        Some(w) => if w.past_moves.len() < best.past_moves.len() {
            w
        } else {
            best
        },
        None => best,
    }
}

/// The best line after the line `line`, played from `start`, was searched
/// again from the positions after its first `j` moves, after its first
/// `j - 1` moves, and so on down to the position after its first move.
///
/// From each of these positions every line of play that makes the whole
/// shorter than the best line is searched, and a won position found there
/// becomes the best line. A position reached by more moves than the best line
/// has is passed over. The search ends at the first position from which more
/// than `depth` moves would have to be searched.
pub open spec fn improve_along(
    start: MatrixView,
    line: Seq<Move>,
    j: nat,
    best: MatrixView,
    depth: nat,
) -> MatrixView
    decreases j,
{
    if j == 0 {
        best
    } else {
        let at = start.after_all(line.take(j as int));
        if best.past_moves.len() > at.past_moves.len() + depth {
            best
        } else if best.past_moves.len() < at.past_moves.len() {
            improve_along(start, line, (j - 1) as nat, best, depth)
        } else {
            let tried = exhaust(at, best.past_moves.len(), Set::<Seq<char>>::empty());
            improve_along(start, line, (j - 1) as nat, better_of(best, tried.found), depth)
        }
    }
}

/// How many moves of a line lead to the first position from which the line is
/// searched again: all but the last two.
pub open spec fn scan_from(line: Seq<Move>) -> nat {
    if line.len() >= STARTING_CUTOFF {
        (line.len() - STARTING_CUTOFF) as nat
    } else {
        0
    }
}

/// The best line after the lines of `winners[k]`, `winners[k + 1]` and so on
/// were searched again, one after the other.
pub open spec fn improve_all(
    start: MatrixView,
    winners: Seq<MatrixView>,
    k: nat,
    best: MatrixView,
    depth: nat,
) -> MatrixView
    decreases winners.len() - k,
{
    if k >= winners.len() {
        best
    } else {
        let line = winners[k as int].past_moves;
        improve_all(
            start,
            winners,
            k + 1,
            improve_along(start, line, scan_from(line), best, depth),
            depth,
        )
    }
}

/// The place of the shortest line among the first `n` of `winners`, and of
/// several that are equally short the first.
pub open spec fn shortest_upto(winners: Seq<MatrixView>, n: nat) -> int
    decreases n,
{
    if n <= 1 {
        0
    } else {
        let before = shortest_upto(winners, (n - 1) as nat);
        if winners[n - 1].past_moves.len() < winners[before].past_moves.len() {
            n - 1
        } else {
            before
        }
    }
}

/// The shortest of the lines, and of several that are equally short the
/// first.
pub open spec fn shortest_of(winners: Seq<MatrixView>) -> MatrixView {
    winners[shortest_upto(winners, winners.len())]
}

/// The best line after all the lines of `winners` were searched again,
/// starting from the shortest of them.
pub open spec fn optimized(start: MatrixView, winners: Seq<MatrixView>, depth: nat) -> MatrixView {
    improve_all(start, winners, 0, shortest_of(winners), depth)
}

/// The shortest line is one of the lines, none of the lines is shorter, and
/// none of the lines before it is as short.
pub proof fn lemma_shortest_upto(winners: Seq<MatrixView>, n: nat)
    requires
        1 <= n <= winners.len(),
    ensures
        0 <= shortest_upto(winners, n) < n,
        forall|i: int|
            0 <= i < n ==> winners[shortest_upto(winners, n)].past_moves.len() <= (
            #[trigger] winners[i]).past_moves.len(),
        forall|i: int|
            0 <= i < shortest_upto(winners, n) ==> winners[shortest_upto(
                winners,
                n,
            )].past_moves.len() < (#[trigger] winners[i]).past_moves.len(),
    decreases n,
{
    if n > 1 {
        lemma_shortest_upto(winners, (n - 1) as nat);
    }
}

/// Where every position scores the same, the moves a search may try stand in
/// the order in which the moves are listed.
pub proof fn lemma_plain_order(stacks: Seq<StackView>, allow_cheats: bool)
    ensures
        ordered_moves(stacks, allow_cheats, Heuristic::Plain) == playable_moves(
            stacks,
            allow_cheats,
        ),
{
    let playable = playable_moves(stacks, allow_cheats);
    let weight = weight_after(stacks, Heuristic::Plain);
    assert forall|i: int| 0 <= i < playable.len() implies weight(#[trigger] playable[i]) == 0 by {}
    lemma_stable_sort_of_equal_weights(playable, weight, 0);
}

/// Searches through every line of play from `matrix` that stays below
/// `max_len` moves in all, without cheats, and returns the won position
/// reached by the fewest moves; `None` if there is none. The keys of the
/// positions entered are added to `discovered_matrices`.
pub fn brute_force(matrix: &mut Matrix, max_len: usize, discovered_matrices: &mut Visited) -> (result:
    Option<Matrix>)
    requires
        old(discovered_matrices).wf(),
    ensures
        final(discovered_matrices).wf(),
        final(matrix)@ == old(matrix)@,
        final(discovered_matrices)@ == exhaust(
            old(matrix)@,
            max_len as nat,
            old(discovered_matrices)@,
        ).seen,
        match result {
            Some(winner) => exhaust(old(matrix)@, max_len as nat, old(discovered_matrices)@).found
                == Some(winner@),
            None => exhaust(old(matrix)@, max_len as nat, old(discovered_matrices)@).found
                is None,
        },
        result matches Some(winner) ==> is_win_from(old(matrix)@, winner@, false)
            && winner@.past_moves.len() < max_len,
    decreases moves_left(old(matrix)@, max_len as nat), 1nat, 0nat,
{
    let ghost m = matrix@;
    let ghost goal = exhaust(m, max_len as nat, discovered_matrices@);
    proof {
        lemma_exhaust_finds_wins(m, max_len as nat, discovered_matrices@);
    }
    discovered_matrices.insert(matrix.to_string());
    if matrix.past_moves.len() >= max_len {
        return None;
    }
    matrix.save_moves(false, Heuristic::Plain);
    proof {
        lemma_plain_order(m.stacks, false);
    }
    let ghost moves = matrix.saved_moves();
    if matrix.available_moves.len() == 0 {
        if matrix.is_win() {
            return Some(matrix.copy());
        } else {
            return None;
        }
    }
    let mut best_matrix_option: Option<Matrix> = None;
    let ghost best: Option<MatrixView> = None;
    let mut i: usize = 0;
    while i < matrix.available_moves.len()
        invariant
            discovered_matrices.wf(),
            matrix@ == m,
            m == old(matrix)@,
            matrix.saved_agree(),
            matrix.saved_moves() == moves,
            m.past_moves.len() < max_len,
            i <= moves.len(),
            match best_matrix_option {
                Some(b) => best == Some(b@),
                None => best is None,
            },
            goal == exhaust(old(matrix)@, max_len as nat, old(discovered_matrices)@),
            goal.found matches Some(w) ==> is_win_from(m, w, false) && w.past_moves.len()
                < max_len,
            goal == exhaust_each(m, moves, i as nat, max_len as nat, best, discovered_matrices@),
        decreases moves.len() - i,
    {
        let mut next: Matrix = matrix.available_moves[i].1.copy();
        let ghost seen_before = discovered_matrices@;
        let ghost tried = exhaust(m.after(moves[i as int]), max_len as nat, seen_before);
        assert(next@ == m.after(moves[i as int]));
        let result: Option<Matrix> = brute_force(&mut next, max_len, discovered_matrices);
        assert(goal == exhaust_each(
            m,
            moves,
            (i + 1) as nat,
            max_len as nat,
            shorter_of(best, tried.found),
            tried.seen,
        ));
        match result {
            Some(winner) => {
                let replace: bool = match &best_matrix_option {
                    Some(best_matrix) => best_matrix.past_moves.len() > winner.past_moves.len(),
                    None => true,
                };
                if replace {
                    best_matrix_option = Some(winner);
                }
            },
            None => {},
        }
        proof {
            best = shorter_of(best, tried.found);
        }
        i += 1;
    }
    best_matrix_option
}

/// Tries to shorten the shortest of the winning lines of play.
///
/// `winner_matrices` are won positions, in any order, each with the moves
/// that lead to it from `start_matrix`. The best line is at first the
/// shortest of them, and of several that are equally short the first. Each
/// line is then played again from `start_matrix`, and from the positions
/// near its end, last first, every line of play that would make the whole
/// shorter than the best line so far is searched, without cheats. `depth`
/// bounds how many moves such a search may go deep. The result is the
/// position reached by the fewest moves among `winner_matrices` and the won
/// positions found, so it is reached by no more moves than any of
/// `winner_matrices`.
pub fn optimize_solutions(start_matrix: Matrix, winner_matrices: &Vec<Matrix>, depth: usize) -> (best_matrix:
    Matrix)
    requires
        winner_matrices@.len() > 0,
    ensures
        best_matrix@ == optimized(start_matrix@, views_of(winner_matrices@), depth as nat),
        forall|i: int|
            0 <= i < winner_matrices@.len() ==> best_matrix@.past_moves.len() <= (
            #[trigger] winner_matrices@[i])@.past_moves.len(),
        start_matrix@.past_moves.len() == 0 && (forall|i: int|
            0 <= i < winner_matrices@.len() ==> is_win_from(
                start_matrix@,
                (#[trigger] winner_matrices@[i])@,
                true,
            )) ==> is_win_from(start_matrix@, best_matrix@, true),
{
    let ghost start = start_matrix@;
    let ghost winners = views_of(winner_matrices@);
    let mut shortest: usize = 0;
    let mut n: usize = 1;
    while n < winner_matrices.len()
        invariant
            1 <= n <= winner_matrices@.len(),
            winners == views_of(winner_matrices@),
            shortest == shortest_upto(winners, n as nat),
            shortest < n,
        decreases winner_matrices@.len() - n,
    {
        assert(winners[n as int] == winner_matrices@[n as int]@);
        assert(winners[shortest as int] == winner_matrices@[shortest as int]@);
        if winner_matrices[n].past_moves.len() < winner_matrices[shortest].past_moves.len() {
            shortest = n;
        }
        n += 1;
    }
    let ghost first = shortest_of(winners);
    proof {
        lemma_shortest_upto(winners, winners.len());
        assert(first == winner_matrices@[shortest as int]@);
        lemma_improve_all_never_longer(start, winners, 0, first, depth as nat);
        assert forall|i: int| 0 <= i < winner_matrices@.len() implies optimized(
            start,
            winners,
            depth as nat,
        ).past_moves.len() <= (#[trigger] winner_matrices@[i])@.past_moves.len() by {
            assert(winners[i] == winner_matrices@[i]@);
        }
        if start.past_moves.len() == 0 && (forall|i: int|
            0 <= i < winner_matrices@.len() ==> is_win_from(
                start,
                (#[trigger] winner_matrices@[i])@,
                true,
            )) {
            assert forall|i: int| 0 <= i < winners.len() implies is_win_from(
                start,
                #[trigger] winners[i],
                true,
            ) by {
                assert(winners[i] == winner_matrices@[i]@);
            }
            lemma_improve_all(start, winners, 0, first, depth as nat);
        }
    }
    let mut best_matrix: Matrix = winner_matrices[shortest].copy();
    let mut k: usize = 0;
    while k < winner_matrices.len()
        invariant
            k <= winner_matrices@.len(),
            start == start_matrix@,
            winners == views_of(winner_matrices@),
            improve_all(start, winners, 0, first, depth as nat) == improve_all(
                start,
                winners,
                k as nat,
                best_matrix@,
                depth as nat,
            ),
        decreases winner_matrices@.len() - k,
    {
        let chain: Vec<Matrix> = winner_matrices[k].past_matrices(start_matrix.copy());
        let ghost line = winners[k as int].past_moves;
        let ghost best_before = best_matrix@;
        let mut j: usize = if chain.len() >= STARTING_CUTOFF {
            chain.len() - STARTING_CUTOFF
        } else {
            0
        };
        let mut scanning: bool = true;
        while scanning && j > 0
            invariant
                j <= chain@.len(),
                chain@.len() == line.len(),
                start == start_matrix@,
                forall|i: int|
                    0 <= i < chain@.len() ==> (#[trigger] chain@[i])@ == start.after_all(
                        line.take(i + 1),
                    ),
                improve_along(start, line, scan_from(line), best_before, depth as nat) == if scanning {
                    improve_along(start, line, j as nat, best_matrix@, depth as nat)
                } else {
                    best_matrix@
                },
            decreases
                    if scanning {
                        1 + j
                    } else {
                        0
                    },
        {
            let mut past_matrix: Matrix = chain[j - 1].copy();
            let best_len: usize = best_matrix.past_moves.len();
            let past_len: usize = past_matrix.past_moves.len();
            assert(past_matrix@ == start.after_all(line.take(j as int)));
            if best_len >= past_len && best_len - past_len > depth {
                scanning = false;
            } else if best_len < past_len {
                j -= 1;
            } else {
                let mut discovered_matrices: Visited = Visited::new();
                let better_matrix_option: Option<Matrix> = brute_force(
                    &mut past_matrix,
                    best_len,
                    &mut discovered_matrices,
                );
                match better_matrix_option {
                    Some(better_matrix) => {
                        if better_matrix.past_moves.len() < best_matrix.past_moves.len() {
                            best_matrix = better_matrix;
                        }
                    },
                    None => {},
                }
                j -= 1;
            }
        }
        k += 1;
    }
    best_matrix
}

} // verus!
