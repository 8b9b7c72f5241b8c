//! Row indices of the 6-row board; row 0 is the bottom.

use vstd::prelude::*;
use crate::finite_index::FiniteIndex;

verus! {

/// The number of rows.
pub const COUNT: usize = 6;

/// A row index, in [0, 5].
pub type Idx = FiniteIndex<5>;

impl FiniteIndex<5> {
    /// The bottom row (index 0).
    pub fn bottom() -> (r: Self)
        ensures
            r.0 == 0,
    {
        FiniteIndex(0)
    }

    /// The top row (index 5).
    pub fn top() -> (r: Self)
        ensures
            r.0 == 5,
    {
        FiniteIndex(5)
    }
}

} // verus!
