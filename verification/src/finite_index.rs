//! A bounded index type: an unsigned value kept in `[0, N]` by construction.

use vstd::prelude::*;

verus! {

/// Unsigned finite natural number type, with values in [0, N].
/// Used for indexing a collection of N + 1 elements.
#[derive(Clone, Copy, PartialEq, Eq, Debug, Hash)]
pub struct FiniteIndex<const N: usize>(pub usize);

impl<const N: usize> FiniteIndex<N> {
    /// The index is valid: its value lies within [0, N].
    pub open spec fn inv(self) -> bool {
        self.0 <= N
    }

    /// Creates a FiniteIndex from a raw usize value; the bound is a
    /// precondition rather than a runtime check.
    pub fn raw(value: usize) -> (r: Self)
        requires
            value <= N,
        ensures
            r.0 == value,
    {
        FiniteIndex(value)
    }

    /// Creates a FiniteIndex from a usize value, checking the bound.
    pub fn try_new(value: usize) -> (r: Option<Self>)
        ensures
            value <= N ==> r == Some(FiniteIndex::<N>(value)),
            value > N ==> r is None,
    {
        if value <= N {
            Some(FiniteIndex(value))
        } else {
            None
        }
    }

    /// The smallest index.
    pub fn zero() -> (r: Self)
        ensures
            r.0 == 0,
    {
        FiniteIndex(0)
    }

    /// The largest index.
    pub fn max() -> (r: Self)
        ensures
            r.0 == N,
    {
        FiniteIndex(N)
    }

    /// Shifts the value by the given amount,
    /// staying within bounds by capping/saturating at the edges.
    pub fn shift(&self, by: isize) -> (r: Self)
        requires
            self.inv(),
        ensures
            r.inv(),
            r.0 == clamped(self.0 as int + by as int, N as int),
    {
        if by >= 0 {
            self.add(by as usize)
        } else {
            let down: usize = if by == isize::MIN {
                (isize::MAX as usize) + 1
            } else {
                (-by) as usize
            };
            self.sub(down)
        }
    }

    /// Adds the given amount to the value,
    /// staying within bounds by capping at the maximum.
    pub fn add(&self, by: usize) -> (r: Self)
        requires
            self.inv(),
        ensures
            r.inv(),
            r.0 == clamped(self.0 as int + by as int, N as int),
    {
        if by <= N - self.0 {
            FiniteIndex(self.0 + by)
        } else {
            FiniteIndex(N)
        }
    }

    /// Subtracts the given amount from the value,
    /// staying within bounds by capping at zero.
    pub fn sub(&self, by: usize) -> (r: Self)
        requires
            self.inv(),
        ensures
            r.inv(),
            r.0 == clamped(self.0 as int - by as int, N as int),
    {
        if by <= self.0 {
            FiniteIndex(self.0 - by)
        } else {
            FiniteIndex(0)
        }
    }
}

/// The value `v` clamped to the interval [0, max].
pub open spec fn clamped(v: int, max: int) -> int {
    if v < 0 {
        0
    } else if v > max {
        max
    } else {
        v
    }
}

} // verus!
