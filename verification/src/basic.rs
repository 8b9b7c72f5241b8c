//! Tokens and board positions.

use vstd::prelude::*;
use crate::column;
use crate::finite_index::FiniteIndex;
use crate::row;

verus! {

/// A Token in the game, either Yellow or Red.
/// (Yellow starts)
#[derive(Clone, Copy, PartialEq, Eq, Structural, Debug, Hash)]
pub enum Token {
    Yellow,
    Red,
}

impl Token {
    /// The starting token (Yellow).
    pub const START: Token = Token::Yellow;

    /// The next, opposite, other token, as a specification value.
    pub open spec fn spec_next(self) -> Token {
        match self {
            Token::Yellow => Token::Red,
            Token::Red => Token::Yellow,
        }
    }

    /// Get the next, opposite, other token.
    pub fn next(&self) -> (t: Token)
        ensures
            t == self.spec_next(),
    {
        match self {
            Token::Yellow => Token::Red,
            Token::Red => Token::Yellow,
        }
    }
}

/// A Position on the board, defined by a column and row index.
#[derive(Clone, Copy, PartialEq, Eq, Debug)]
pub struct Position {
    pub col: column::Idx,
    pub row: row::Idx,
}

impl Position {
    /// Both indices lie within the board.
    pub open spec fn inv(self) -> bool {
        self.col.inv() && self.row.inv()
    }

    /// Returns the positions in the same row as this position,
    /// from 3 columns to the left to 3 columns to the right (capped at the
    /// board edges), in increasing column order.
    pub fn row_neighbourhood(&self) -> (r: Vec<Position>)
        requires
            self.inv(),
        ensures
            r@.len() == neigh_hi(self.col.0 as int, 6) - neigh_lo(self.col.0 as int) + 1,
            forall|i: int| 0 <= i < r@.len() ==> r@[i] == (Position {
                col: FiniteIndex((neigh_lo(self.col.0 as int) + i) as usize),
                row: self.row,
            }),
    {
        let lo = self.col.shift(-3);
        let hi = self.col.shift(3);
        let mut out: Vec<Position> = Vec::new();
        let mut c = lo.0;
        while c <= hi.0
            invariant
                lo.0 == neigh_lo(self.col.0 as int),
                hi.0 == neigh_hi(self.col.0 as int, 6),
                lo.0 <= c <= hi.0 + 1,
                hi.0 <= 6,
                out@.len() == c - lo.0,
                forall|i: int| 0 <= i < out@.len() ==> out@[i] == (Position {
                    col: FiniteIndex((lo.0 + i) as usize),
                    row: self.row,
                }),
            decreases hi.0 + 1 - c,
        {
            out.push(Position { col: FiniteIndex(c), row: self.row });
            c = c + 1;
        }
        out
    }

    /// Returns the positions in the same column as this position,
    /// from 3 rows below to 3 rows above (capped at the board edges),
    /// in increasing row order.
    pub fn col_neighbourhood(&self) -> (r: Vec<Position>)
        requires
            self.inv(),
        ensures
            r@.len() == neigh_hi(self.row.0 as int, 5) - neigh_lo(self.row.0 as int) + 1,
            forall|i: int| 0 <= i < r@.len() ==> r@[i] == (Position {
                col: self.col,
                row: FiniteIndex((neigh_lo(self.row.0 as int) + i) as usize),
            }),
    {
        let lo = self.row.shift(-3);
        let hi = self.row.shift(3);
        let mut out: Vec<Position> = Vec::new();
        let mut rw = lo.0;
        while rw <= hi.0
            invariant
                lo.0 == neigh_lo(self.row.0 as int),
                hi.0 == neigh_hi(self.row.0 as int, 5),
                lo.0 <= rw <= hi.0 + 1,
                hi.0 <= 5,
                out@.len() == rw - lo.0,
                forall|i: int| 0 <= i < out@.len() ==> out@[i] == (Position {
                    col: self.col,
                    row: FiniteIndex((lo.0 + i) as usize),
                }),
            decreases hi.0 + 1 - rw,
        {
            out.push(Position { col: self.col, row: FiniteIndex(rw) });
            rw = rw + 1;
        }
        out
    }

    /// Returns the positions in the same diagonal (bottom-left to top-right)
    /// as this position within a distance of 3 (capped at the board edges),
    /// in increasing column order.
    pub fn diag1_neighbourhood(&self) -> (r: Vec<Position>)
        requires
            self.inv(),
        ensures
            r@.len() == diag1_end(self.col.0 as int, self.row.0 as int) - diag1_start(
                self.col.0 as int,
                self.row.0 as int,
            ) + 1,
            forall|i: int| 0 <= i < r@.len() ==> r@[i] == (Position {
                col: FiniteIndex(
                    (self.col.0 + diag1_start(self.col.0 as int, self.row.0 as int) + i) as usize,
                ),
                row: FiniteIndex(
                    (self.row.0 + diag1_start(self.col.0 as int, self.row.0 as int) + i) as usize,
                ),
            }),
    {
        let c = self.col.0;
        let rw = self.row.0;
        // distance to the bottom-left edge, capped at 3
        let back: usize = min3(c, rw);
        // distance to the top-right edge, capped at 3
        let fwd: usize = min3(6 - c, 5 - rw);
        let mut out: Vec<Position> = Vec::new();
        let mut k: usize = 0;
        while k <= back + fwd
            invariant
                back == -diag1_start(c as int, rw as int),
                fwd == diag1_end(c as int, rw as int),
                back <= c <= 6,
                back <= rw <= 5,
                c + fwd <= 6,
                rw + fwd <= 5,
                k <= back + fwd + 1,
                out@.len() == k,
                forall|i: int| 0 <= i < out@.len() ==> out@[i] == (Position {
                    col: FiniteIndex((c - back + i) as usize),
                    row: FiniteIndex((rw - back + i) as usize),
                }),
            decreases back + fwd + 1 - k,
        {
            out.push(Position { col: FiniteIndex(c - back + k), row: FiniteIndex(rw - back + k) });
            k = k + 1;
        }
        out
    }

    /// Returns the positions in the same diagonal (top-left to bottom-right)
    /// as this position within a distance of 3 (capped at the board edges),
    /// in increasing column order.
    pub fn diag2_neighbourhood(&self) -> (r: Vec<Position>)
        requires
            self.inv(),
        ensures
            r@.len() == diag2_end(self.col.0 as int, self.row.0 as int) - diag2_start(
                self.col.0 as int,
                self.row.0 as int,
            ) + 1,
            forall|i: int| 0 <= i < r@.len() ==> r@[i] == (Position {
                col: FiniteIndex(
                    (self.col.0 + diag2_start(self.col.0 as int, self.row.0 as int) + i) as usize,
                ),
                row: FiniteIndex(
                    (self.row.0 - diag2_start(self.col.0 as int, self.row.0 as int) - i) as usize,
                ),
            }),
    {
        let c = self.col.0;
        let rw = self.row.0;
        // distance to the top-left edge, capped at 3
        let back: usize = min3(c, 5 - rw);
        // distance to the bottom-right edge, capped at 3
        let fwd: usize = min3(6 - c, rw);
        let mut out: Vec<Position> = Vec::new();
        let mut k: usize = 0;
        while k <= back + fwd
            invariant
                back == -diag2_start(c as int, rw as int),
                fwd == diag2_end(c as int, rw as int),
                back <= c <= 6,
                fwd <= rw <= 5,
                c + fwd <= 6,
                rw + back <= 5,
                k <= back + fwd + 1,
                out@.len() == k,
                forall|i: int| 0 <= i < out@.len() ==> out@[i] == (Position {
                    col: FiniteIndex((c - back + i) as usize),
                    row: FiniteIndex((rw + back - i) as usize),
                }),
            decreases back + fwd + 1 - k,
        {
            out.push(Position { col: FiniteIndex(c - back + k), row: FiniteIndex(rw + back - k) });
            k = k + 1;
        }
        out
    }

    /// The mirror image of this position about the centre column.
    pub fn flipped(&self) -> (r: Self)
        requires
            self.inv(),
        ensures
            r.inv(),
            r.col.0 == 6 - self.col.0,
            r.row == self.row,
    {
        Position { col: self.col.flipped(), row: self.row }
    }

    /// The pair of this position and its mirror image, ordered (left, right);
    /// None for a position in the centre column, which is its own mirror.
    pub fn symm_pair(&self) -> (r: Option<(Self, Self)>)
        requires
            self.inv(),
        ensures
            self.col.0 == 3 ==> r is None,
            self.col.0 < 3 ==> r == Some((*self, self.spec_flipped())),
            self.col.0 > 3 ==> r == Some((self.spec_flipped(), *self)),
    {
        if self.col.0 == 3 {
            return None;
        }
        let flipped = Position { col: self.col.flipped(), row: self.row };
        if self.col.0 < 3 {
            Some((*self, flipped))
        } else {
            Some((flipped, *self))
        }
    }

    /// The mirror image of this position, as a specification value.
    pub open spec fn spec_flipped(self) -> Position {
        Position { col: FiniteIndex((6 - self.col.0) as usize), row: self.row }
    }
}

/// The lower edge of a neighbourhood interval: `v - 3`, capped at 0.
pub open spec fn neigh_lo(v: int) -> int {
    if v >= 3 {
        v - 3
    } else {
        0
    }
}

/// The upper edge of a neighbourhood interval: `v + 3`, capped at `max`.
pub open spec fn neigh_hi(v: int, max: int) -> int {
    if v + 3 <= max {
        v + 3
    } else {
        max
    }
}

/// First offset of the bottom-left to top-right diagonal neighbourhood.
pub open spec fn diag1_start(c: int, r: int) -> int {
    -min3_spec(c, r)
}

/// Last offset of the bottom-left to top-right diagonal neighbourhood.
pub open spec fn diag1_end(c: int, r: int) -> int {
    min3_spec(6 - c, 5 - r)
}

/// First offset of the top-left to bottom-right diagonal neighbourhood.
pub open spec fn diag2_start(c: int, r: int) -> int {
    -min3_spec(c, 5 - r)
}

/// Last offset of the top-left to bottom-right diagonal neighbourhood.
pub open spec fn diag2_end(c: int, r: int) -> int {
    min3_spec(6 - c, r)
}

/// The smaller of `a`, `b` and 3.
pub open spec fn min3_spec(a: int, b: int) -> int {
    let m = if a < b {
        a
    } else {
        b
    };
    if m < 3 {
        m
    } else {
        3
    }
}

/// The smaller of `a`, `b` and 3, executably.
fn min3(a: usize, b: usize) -> (r: usize)
    ensures
        r == min3_spec(a as int, b as int),
{
    let m = if a < b {
        a
    } else {
        b
    };
    if m < 3 {
        m
    } else {
        3
    }
}

} // verus!
