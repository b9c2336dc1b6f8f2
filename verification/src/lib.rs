//! A solver for a six-stack patience game played with thirty-six cards.
//!
//! Nine ranks, four copies of each, are dealt over six stacks. A stack that
//! holds all nine ranks in one descending run collapses, and the game is won
//! once four stacks have collapsed. Besides the orderly moves a single card may
//! be parked out of order on another stack (a cheat), which blocks that stack
//! until the card is taken away again.
//!
//! The crate models the position, classifies and applies moves, enumerates the
//! moves of a position, and searches for a winning sequence of moves.

pub mod card;
pub mod stack;
pub mod moves;
pub mod matrix;
pub mod filters;
pub mod enumerate;
pub mod visited;
pub mod key;
pub mod equal;
pub mod heuristic;
pub mod order;
pub mod candidates;
pub mod search;
pub mod replay;
pub mod optimize;
pub mod laws;
pub mod deal;
pub mod lines;
pub mod plan;
