//! A bit-packed board that stores each column's height separately instead
//! of marking it with a sentinel bit.

use vstd::prelude::*;
use crate::basic::{Position, Token};
use crate::board::{Board, CloneBoard, MutBoard};
use crate::board::bit_col::{bit_to_token, token_to_bit};
use crate::column;
use crate::finite_index::FiniteIndex;
use crate::grid::{
    col_code, empty_grid, grid_code, grid_code_n, grid_place, grid_unplace, grid_wf,
    lemma_grid_code_injective, lemma_grid_code_range, lemma_pow2n_le, lemma_pow128_le, pow2n,
    pow128, Grid,
};

verus! {

broadcast use vstd::array::group_array_axioms;

/// The token stack a (bits, count) pair stands for: one bit per token,
/// bottom to top, the top token in the least significant bit.
pub open spec fn counted_col_seq(bits: int, count: int) -> Seq<Token>
    decreases count,
{
    if count <= 0 {
        Seq::empty()
    } else {
        counted_col_seq(bits / 2, count - 1).push(
            if bits % 2 == 1 {
                Token::Red
            } else {
                Token::Yellow
            },
        )
    }
}

/// Re-encoding the stack of a (bits, count) pair gives the sentinel-marked
/// column code: the marker power plus the bits.
pub proof fn lemma_counted_col_code(bits: int, count: int)
    requires
        0 <= count,
        0 <= bits < pow2n(count),
    ensures
        col_code(counted_col_seq(bits, count)) == pow2n(count) + bits,
        counted_col_seq(bits, count).len() == count,
    decreases count,
{
    if count > 0 {
        lemma_counted_col_code(bits / 2, count - 1);
        assert(counted_col_seq(bits, count).drop_last() =~= counted_col_seq(bits / 2, count - 1));
    }
}

/// A column of the counting board: the token bits and the stored height.
#[derive(Clone, Copy, Debug, PartialEq, Eq)]
pub struct CountBitCol {
    col: u8,
    count: usize,
}

impl CountBitCol {
    /// The token stack this column stands for.
    pub closed spec fn view(self) -> Seq<Token> {
        counted_col_seq(self.col as int, self.count as int)
    }

    /// A valid column: the height fits the board and no bit sits above it.
    pub closed spec fn inv(self) -> bool {
        self.count <= 6 && (self.col as int) < pow2n(self.count as int)
    }

    /// An empty column.
    pub fn empty() -> (r: Self)
        ensures
            r.inv(),
            r.view() == Seq::<Token>::empty(),
    {
        let r = CountBitCol { col: 0b00000000, count: 0 };
        proof {
            assert(pow2n(0) == 1);
        }
        r
    }

    /// The number of tokens in the column.
    pub fn count(&self) -> (r: usize)
        requires
            self.inv(),
        ensures
            r == self.view().len(),
    {
        proof {
            lemma_counted_col_code(self.col as int, self.count as int);
        }
        self.count
    }

    /// The column holds no token.
    pub fn is_empty(&self) -> (r: bool)
        requires
            self.inv(),
        ensures
            r == (self.view().len() == 0),
    {
        self.count() == 0
    }

    /// The column holds six tokens: no more fit.
    pub fn is_full(&self) -> (r: bool)
        requires
            self.inv(),
        ensures
            r == (self.view().len() >= 6),
    {
        self.count() >= 6
    }

    /// Gets the token at the given row in the column (0 is the bottom), or
    /// None above the stack.
    pub fn get(&self, row: usize) -> (r: Option<Token>)
        requires
            self.inv(),
            row <= 5,
        ensures
            row < self.view().len() ==> r == Some(self.view()[row as int]),
            row >= self.view().len() ==> r is None,
    {
        let ghost s = self.view();
        let n = self.count();
        if n > row {
            proof {
                lemma_counted_col_code(self.col as int, self.count as int);
                assert(s.take(n as int) =~= s);
            }
            let mut bits = self.col;
            let mut cnt = self.count;
            let mut steps: usize = 0;
            let target = n - 1 - row;
            while steps < target
                invariant
                    s == self.view(),
                    n == s.len(),
                    row < n <= 6,
                    target == n - 1 - row,
                    steps <= target,
                    cnt == n - steps,
                    counted_col_seq(bits as int, cnt as int) =~= s.take(n - steps),
                decreases target - steps,
            {
                proof {
                    assert(counted_col_seq(bits as int, cnt as int).drop_last()
                        =~= counted_col_seq(bits as int / 2, cnt as int - 1));
                    assert(s.take(n - steps).drop_last() =~= s.take(n - steps - 1));
                    assert(bits / 2 == bits as int / 2);
                }
                bits = bits / 2;
                cnt = cnt - 1;
                steps = steps + 1;
            }
            proof {
                assert(counted_col_seq(bits as int, cnt as int) =~= s.take(row + 1));
                assert(cnt == row + 1);
                assert(s.take(row + 1).last() == s[row as int]);
            }
            Some(bit_to_token(bits % 2))
        } else {
            None
        }
    }

    /// Pop the top token from the column.
    /// The column must not be empty.
    pub fn force_pop(&mut self)
        requires
            old(self).inv(),
            old(self).view().len() >= 1,
        ensures
            final(self).inv(),
            final(self).view() == old(self).view().drop_last(),
    {
        proof {
            lemma_counted_col_code(self.col as int, self.count as int);
            assert(self.count >= 1);
            assert(pow2n(self.count as int) == 2 * pow2n(self.count as int - 1));
            assert(counted_col_seq(self.col as int, self.count as int).drop_last()
                =~= counted_col_seq(self.col as int / 2, self.count as int - 1));
        }
        let b0 = self.col;
        proof {
            assert(b0 >> 1u8 == b0 / 2) by (bit_vector);
        }
        self.col = b0 >> 1;
        self.count = self.count - 1;
    }

    /// Push a token onto the column.
    /// The column must not be full.
    pub fn force_push(&mut self, token: &Token)
        requires
            old(self).inv(),
            old(self).view().len() < 6,
        ensures
            final(self).inv(),
            final(self).view() == old(self).view().push(*token),
    {
        proof {
            lemma_counted_col_code(self.col as int, self.count as int);
            lemma_pow2n_le(self.count as int + 1, 6);
            assert(pow2n(6) == 64) by {
                reveal_with_fuel(pow2n, 8);
            }
            assert(self.col < 64);
        }
        let token_bit = token_to_bit(token);
        let b0 = self.col;
        proof {
            assert(b0 < 64 && token_bit <= 1 ==> ((b0 << 1u8) | token_bit) == b0 * 2 + token_bit)
                by (bit_vector);
        }
        self.col = (b0 << 1) | token_bit;
        self.count = self.count + 1;
        proof {
            assert(self.col as int / 2 == b0 as int);
            assert(self.col as int % 2 == token_bit as int);
            assert(pow2n(self.count as int) == 2 * pow2n(self.count as int - 1));
            assert(counted_col_seq(self.col as int, self.count as int) =~= counted_col_seq(
                b0 as int,
                self.count as int - 1,
            ).push(*token));
        }
    }
}

/// A board implementation using bit manipulation for storage.
/// Each column is stored as a CountBitCol.
#[derive(Clone, Copy, Debug, PartialEq, Eq)]
pub struct CountBitBoard {
    cols: [CountBitCol; 7],
}

impl CountBitBoard {
    /// Places without checking: the column must not be full. Returns the
    /// landing cell.
    pub fn place_unchecked(&mut self, col: &column::Idx, token: &Token) -> (r: Position)
        requires
            old(self).inv(),
            col.inv(),
            crate::grid::col_free(old(self).grid(), col.0 as int),
        ensures
            final(self).inv(),
            final(self).grid() == grid_place(old(self).grid(), col.0 as int, *token),
            r == (Position {
                col: *col,
                row: FiniteIndex(old(self).grid()[col.0 as int].len() as usize),
            }),
    {
        let ghost g0 = self.grid();
        let c = col.0;
        let mut bc = self.cols[c];
        let row = bc.count();
        bc.force_push(token);
        self.cols[c] = bc;
        proof {
            assert(self.grid() =~~= grid_place(g0, c as int, *token));
        }
        Position { col: *col, row: FiniteIndex(row) }
    }

    /// Unplaces without checking: the column must not be empty.
    pub fn unplace_unchecked(&mut self, col: &column::Idx)
        requires
            old(self).inv(),
            col.inv(),
            old(self).grid()[col.0 as int].len() >= 1,
        ensures
            final(self).inv(),
            final(self).grid() == grid_unplace(old(self).grid(), col.0 as int),
    {
        let ghost g0 = self.grid();
        let c = col.0;
        let mut bc = self.cols[c];
        proof {
            assert(bc.view().len() == g0[c as int].len());
        }
        bc.force_pop();
        self.cols[c] = bc;
        proof {
            assert(self.grid() =~~= grid_unplace(g0, c as int));
        }
    }
}

impl Board for CountBitBoard {
    closed spec fn grid(&self) -> Grid {
        Seq::new(7, |c: int| self.cols@[c].view())
    }

    closed spec fn inv(&self) -> bool {
        forall|c: int| 0 <= c < 7 ==> (#[trigger] self.cols@[c]).inv()
    }

    open spec fn canon(g: Grid) -> int {
        grid_code(g)
    }

    proof fn lemma_canon(g1: Grid, g2: Grid, depth: nat, curr: Token) {
        lemma_grid_code_injective(g1, g2);
    }

    proof fn lemma_canon_range(g: Grid) {
        lemma_grid_code_range(g, 7);
        assert(pow128(7) == 0x2_0000_0000_0000) by {
            reveal_with_fuel(pow128, 8);
        }
    }

    proof fn lemma_inv_wf(&self) {
        assert forall|c: int| 0 <= c < 7 implies self.grid()[c].len() <= 6 by {
            lemma_counted_col_code(self.cols@[c].col as int, self.cols@[c].count as int);
        }
    }

    fn empty() -> (b: Self) {
        let e = CountBitCol::empty();
        let b = CountBitBoard { cols: [e, e, e, e, e, e, e] };
        proof {
            assert forall|c: int| 0 <= c < 7 implies b.grid()[c] =~= empty_grid()[c] by {
                assert(b.cols@[c] == e);
            }
            assert(b.grid() =~~= empty_grid());
        }
        b
    }

    fn get(&self, pos: &Position) -> (r: Option<Token>) {
        let col = self.cols[pos.col.0];
        proof {
            assert(col == self.cols@[pos.col.0 as int]);
            assert(self.grid()[pos.col.0 as int] == col.view());
        }
        col.get(pos.row.0)
    }

    fn can_place(&self, col: &column::Idx) -> (r: bool) {
        !self.cols[col.0].is_full()
    }

    fn place(&mut self, col: &column::Idx, token: &Token) -> (r: Option<Position>) {
        if self.can_place(col) {
            Some(self.place_unchecked(col, token))
        } else {
            None
        }
    }

    fn key(&self) -> (k: u64) {
        let ghost g = self.grid();
        proof {
            self.lemma_inv_wf();
        }
        let mut k: u64 = 0;
        let mut c: usize = 0;
        while c < 7
            invariant
                self.inv(),
                g == self.grid(),
                grid_wf(g),
                c <= 7,
                k as int == grid_code_n(g, c as int),
                0 <= (k as int) && (k as int) < pow128(c as int),
            decreases 7 - c,
        {
            let bc = self.cols[c];
            let cnt = bc.count();
            let marker: u64 = if cnt == 0 {
                1
            } else if cnt == 1 {
                2
            } else if cnt == 2 {
                4
            } else if cnt == 3 {
                8
            } else if cnt == 4 {
                16
            } else if cnt == 5 {
                32
            } else {
                64
            };
            proof {
                lemma_counted_col_code(bc.col as int, bc.count as int);
                reveal_with_fuel(pow2n, 8);
                assert(marker as int == pow2n(bc.count as int));
                assert(g[c as int] == bc.view());
                lemma_grid_code_range(g, c as int + 1);
                lemma_pow128_le(c as int + 1, 7);
                assert(pow128(7) == 0x2_0000_0000_0000) by {
                    reveal_with_fuel(pow128, 8);
                }
            }
            let byte = marker + bc.col as u64;
            k = k * 128 + byte;
            c = c + 1;
        }
        k
    }
}

impl CloneBoard for CountBitBoard {
    fn duplicate(&self) -> (b: Self) {
        *self
    }
}

impl MutBoard for CountBitBoard {
    fn unplace(&mut self, pos: &Position) {
        self.unplace_unchecked(&pos.col);
    }
}

} // verus!
