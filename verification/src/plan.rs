//! Choosing the line of play for one deal.

use vstd::prelude::*;
use crate::heuristic::Heuristic;
use crate::lines::is_win_from;
use crate::matrix::{Matrix, MatrixView};
use crate::optimize::{optimize_solutions, optimized};
use crate::order::stable_sort;
use crate::search::{collect_wins, find_multiple_wins, moves_played, SearchLimits};

verus! {

/// The longest line of play with cheats that is played out, unless told
/// otherwise.
pub const ACCEPTABLE_SOLUTION_LEN: usize = 100;

/// The won positions that repeated searches from `m` find, the one reached by
/// the fewest moves first.
pub open spec fn sorted_wins(
    m: MatrixView,
    allow_cheats: bool,
    heuristic: Heuristic,
    limits: SearchLimits,
) -> Seq<MatrixView> {
    stable_sort(
        collect_wins(m, Set::<Seq<char>>::empty(), allow_cheats, heuristic, limits),
        moves_played(),
    )
}

/// The line is too long to be played out: it has cheats in it, or may have,
/// and more moves than are acceptable.
pub open spec fn too_long(w: MatrixView, allow_cheats: bool, acceptable: nat) -> bool {
    allow_cheats && w.past_moves.len() > acceptable
}

/// The line of play chosen for the deal `m`, if one is.
///
/// The searches first go by the progress of the positions. If they find a
/// line that is not too long, the shortest they find is chosen. If the
/// shortest is too long, the lines found are searched again near their ends,
/// and what comes of it is chosen unless it is still too long. If they find
/// no line at all, the searches go by the number of moves that the positions
/// allow, and the shortest line they find is chosen unless it is too long.
pub open spec fn chosen(
    m: MatrixView,
    allow_cheats: bool,
    limits: SearchLimits,
    depth: nat,
    acceptable: nat,
) -> Option<MatrixView> {
    let first = sorted_wins(m, allow_cheats, Heuristic::HighestOrder, limits);
    if first.len() == 0 {
        let second = sorted_wins(m, allow_cheats, Heuristic::MoveCount, limits);
        if second.len() == 0 || too_long(second[0], allow_cheats, acceptable) {
            None
        } else {
            Some(second[0])
        }
    } else if too_long(first[0], allow_cheats, acceptable) {
        let improved = optimized(m, first, depth);
        if too_long(improved, allow_cheats, acceptable) {
            None
        } else {
            Some(improved)
        }
    } else {
        Some(first[0])
    }
}

/// Chooses the line of play for the deal `matrix`: the won position with the
/// moves that lead to it, or `None` where no line was found that is short
/// enough, so that the game is better dealt anew.
///
/// `depth` bounds how deep a line is searched again near its end, and
/// `acceptable` is the number of moves above which a line with cheats is
/// too long.
pub fn choose_solution(
    matrix: &Matrix,
    allow_cheats: bool,
    limits: SearchLimits,
    depth: usize,
    acceptable: usize,
) -> (solution: Option<Matrix>)
    ensures
        match solution {
            Some(winner) => chosen(matrix@, allow_cheats, limits, depth as nat, acceptable as nat)
                == Some(winner@),
            None => chosen(matrix@, allow_cheats, limits, depth as nat, acceptable as nat)
                is None,
        },
        solution matches Some(winner) ==> !too_long(winner@, allow_cheats, acceptable as nat),
        solution matches Some(winner) ==> matrix@.past_moves.len() == 0 ==> is_win_from(
            matrix@,
            winner@,
            allow_cheats,
        ),
{
    let mut winners: Vec<Matrix> = find_multiple_wins(
        matrix.copy(),
        allow_cheats,
        Heuristic::HighestOrder,
        limits,
    );
    if winners.len() == 0 {
        let mut second: Vec<Matrix> = find_multiple_wins(
            matrix.copy(),
            allow_cheats,
            Heuristic::MoveCount,
            limits,
        );
        if second.len() == 0 || (allow_cheats && second[0].past_moves.len() > acceptable) {
            return None;
        }
        return Some(second.swap_remove(0));
    }
    if allow_cheats && winners[0].past_moves.len() > acceptable {
        let winner: Matrix = optimize_solutions(matrix.copy(), &winners, depth);
        if allow_cheats && winner.past_moves.len() > acceptable {
            return None;
        }
        return Some(winner);
    }
    Some(winners.swap_remove(0))
}

} // verus!
