//! When two positions count as the same.

use vstd::prelude::*;
use crate::key::position_key;
use crate::matrix::Matrix;

verus! {

impl PartialEq for Matrix {
    /// Two positions are the same if they have the same key: the same cards
    /// on every stack and the same stacks blocked by a cheat. The moves played
    /// do not count.
    fn eq(&self, other: &Self) -> (same: bool) {
        self.to_string() == other.to_string()
    }
}

impl vstd::std_specs::cmp::PartialEqSpecImpl for Matrix {
    open spec fn obeys_eq_spec() -> bool {
        true
    }

    open spec fn eq_spec(&self, other: &Self) -> bool {
        position_key(self@.stacks) == position_key(other@.stacks)
    }
}

impl Eq for Matrix {

}

} // verus!
