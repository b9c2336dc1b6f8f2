//! Moves and how the rules judge them.

use vstd::prelude::*;

verus! {

/// Take the top `count` cards of stack `from` and put them, in the same
/// order, onto stack `to`.
#[derive(Clone, Copy, PartialEq, Eq, Debug, Hash, Structural)]
pub struct Move {
    pub from: usize,
    pub to: usize,
    pub count: usize,
}

/// What the rules say of a move in a position.
#[derive(Clone, Copy, PartialEq, Eq, Debug, Hash, Structural)]
pub enum MoveValidity {
    /// The move is in order.
    ValidNormal,
    /// The move parks a single card out of order; it is allowed, and blocks
    /// the stack it goes to.
    ValidCheat,
    /// The move is not allowed.
    Invalid,
}

} // verus!
