//! Column indices of the 7-column board.

use vstd::prelude::*;
use crate::finite_index::FiniteIndex;

verus! {

/// The number of columns.
pub const COUNT: usize = 7;

/// A column index, in [0, 6].
pub type Idx = FiniteIndex<6>;

impl FiniteIndex<6> {
    /// The centre column (index 3).
    pub fn centre() -> (r: Self)
        ensures
            r.0 == 3,
    {
        FiniteIndex(3)
    }

    /// Returns the column on the opposite side of the board, based on symmetry.
    pub fn flipped(&self) -> (r: Self)
        requires
            self.inv(),
        ensures
            r.inv(),
            r.0 == 6 - self.0,
    {
        FiniteIndex(6 - self.0)
    }
}

} // verus!
