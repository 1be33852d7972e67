//! A verified crossword-generation core: placed-word geometry, layouts
//! with a compatibility policy and canonical coordinates, size
//! constraints, and a resumable backtracking search that enumerates the
//! layouts of a word set.

pub mod crossword;
pub mod generator;
pub mod placed_word;
pub mod word;

use vstd::prelude::*;

verus! {

/// Sum of two grid extents.
pub fn add(left: usize, right: usize) -> (r: usize)
    requires
        left + right <= usize::MAX,
    ensures
        r == left + right,
{
    left + right
}

} // verus!
