//! Scores by which a search decides what to try first.

use vstd::prelude::*;
use crate::enumerate::legal_moves;
use crate::matrix::{Matrix, STACKS};
use crate::stack::{run_length, StackView};

verus! {

/// What a collapsed stack counts for in the progress of a position.
pub const COLLAPSED_WORTH: usize = 10;

/// The progress from which on the score of `HighestOrder` is zero.
pub const FULL_PROGRESS: usize = 40;

/// A way to score a position. The lower the score, the sooner a search tries
/// the position.
#[derive(Clone, Copy, PartialEq, Eq, Debug, Hash, Structural)]
pub enum Heuristic {
    /// The fewer moves a position allows, the better.
    MoveCount,
    /// The more cards lie in orderly runs and collapsed stacks, the better.
    HighestOrder,
    /// Every position scores the same, so nothing is reordered.
    Plain,
}

/// What one stack adds to the progress of a position: ten if it has
/// collapsed, else the length of the run at its top.
pub open spec fn stack_progress(stack: StackView) -> nat {
    if stack.collapsed {
        COLLAPSED_WORTH as nat
    } else {
        run_length(stack.cards)
    }
}

/// The progress of the first `n` stacks.
pub open spec fn progress(stacks: Seq<StackView>, n: nat) -> nat
    decreases n,
{
    if n == 0 {
        0
    } else {
        progress(stacks, (n - 1) as nat) + stack_progress(stacks[n - 1])
    }
}

/// The score of a position with these stacks: the number of moves that the
/// rules allow in it, or what its progress lacks to forty (and zero where it
/// lacks nothing), or zero.
pub open spec fn score(heuristic: Heuristic, stacks: Seq<StackView>) -> nat {
    match heuristic {
        Heuristic::MoveCount => legal_moves(stacks).len(),
        Heuristic::HighestOrder => if progress(stacks, stacks.len()) >= FULL_PROGRESS {
            0
        } else {
            (FULL_PROGRESS - progress(stacks, stacks.len())) as nat
        },
        Heuristic::Plain => 0,
    }
}

impl Heuristic {
    /// The score of `matrix`.
    pub fn calculate(&self, matrix: &Matrix) -> (ret: usize)
        ensures
            ret == score(*self, matrix@.stacks),
    {
        match self {
            Heuristic::MoveCount => matrix.valid_moves().len(),
            Heuristic::HighestOrder => {
                let mut done: usize = 0;
                let mut i: usize = 0;
                while i < STACKS
                    invariant
                        i <= STACKS,
                        done == progress(matrix@.stacks, i as nat),
                        done <= i * COLLAPSED_WORTH,
                    decreases STACKS - i,
                {
                    if matrix.stacks[i].collapsed {
                        done += COLLAPSED_WORTH;
                    } else {
                        done += matrix.stacks[i].highest_orderly_count();
                    }
                    i += 1;
                }
                if done >= FULL_PROGRESS {
                    0
                } else {
                    FULL_PROGRESS - done
                }
            },
            Heuristic::Plain => 0,
        }
    }
}

} // verus!
