//! A board encoding packing each column into one byte.

use vstd::prelude::*;
use crate::basic::{Position, Token};
use crate::board::{Board, CloneBoard, MutBoard};
use crate::board::bit_col::{lemma_col_of_code_code, lemma_col_of_code_len, BitCol};
use crate::column;
use crate::finite_index::FiniteIndex;
use crate::grid::{
    empty_grid, grid_code, grid_code_n, grid_place, grid_unplace, grid_wf,
    lemma_grid_code_injective, lemma_grid_code_range, lemma_pow128_le, mirror_grid, pow128,
    Grid,
};

verus! {

broadcast use vstd::array::group_array_axioms;

/// The grid an array of column bytes stands for.
pub open spec fn cols_grid(s: Seq<BitCol>) -> Grid {
    Seq::new(7, |c: int| s[c].view())
}

/// Every column byte is valid.
pub open spec fn cols_inv(s: Seq<BitCol>) -> bool {
    forall|c: int| 0 <= c < 7 ==> (#[trigger] s[c]).inv()
}

/// Valid column arrays standing for the same grid are identical: each byte
/// is the code of its stack.
pub proof fn lemma_cols_injective(a: [BitCol; 7], b: [BitCol; 7])
    requires
        cols_inv(a@),
        cols_inv(b@),
        cols_grid(a@) == cols_grid(b@),
    ensures
        a == b,
{
    assert forall|c: int| 0 <= c < 7 implies a@[c] == b@[c] by {
        assert(cols_grid(a@)[c] == a@[c].view());
        assert(cols_grid(b@)[c] == b@[c].view());
        lemma_col_of_code_code(a@[c].0 as int);
        lemma_col_of_code_code(b@[c].0 as int);
    }
    assert(a@ =~= b@);
}

/// Folds the seven column bytes into the canonical grid code; with `flip`
/// the columns are read right to left, giving the code of the mirror image.
pub fn cols_code_fold(cols: &[BitCol; 7], flip: bool) -> (k: u64)
    requires
        cols_inv(cols@),
    ensures
        !flip ==> k as int == grid_code(cols_grid(cols@)),
        flip ==> k as int == grid_code(mirror_grid(cols_grid(cols@))),
{
    let ghost g = cols_grid(cols@);
    let ghost m = if flip {
        mirror_grid(g)
    } else {
        g
    };
    proof {
        assert(grid_wf(g)) by {
            assert forall|c: int| 0 <= c < 7 implies g[c].len() <= 6 by {
                lemma_col_of_code_len(cols@[c].0 as int);
            }
        }
        if flip {
            crate::grid::lemma_mirror_wf(g);
        }
    }
    let mut k: u64 = 0;
    let mut c: usize = 0;
    while c < 7
        invariant
            cols_inv(cols@),
            g == cols_grid(cols@),
            m == (if flip {
                mirror_grid(g)
            } else {
                g
            }),
            grid_wf(g),
            grid_wf(m),
            c <= 7,
            k as int == grid_code_n(m, c as int),
            0 <= (k as int) && (k as int) < pow128(c as int),
        decreases 7 - c,
    {
        let src: usize = if flip {
            6 - c
        } else {
            c
        };
        let byte = cols[src].as_u8();
        proof {
            lemma_col_of_code_code(cols@[src as int].0 as int);
            assert(m[c as int] == cols@[src as int].view());
            assert(byte as int == crate::grid::col_code(m[c as int]));
            lemma_grid_code_range(m, c as int + 1);
            lemma_pow128_le(c as int + 1, 7);
            assert(pow128(7) == 0x2_0000_0000_0000) by {
                reveal_with_fuel(pow128, 8);
            }
            lemma_col_of_code_len(cols@[src as int].0 as int);
        }
        k = k * 128 + byte as u64;
        c = c + 1;
    }
    k
}

/// A board implementation using bit manipulation for storage.
/// Each column is stored as a BitCol.
#[derive(Clone, Copy, Debug, PartialEq, Eq, Hash)]
pub struct BitBoard {
    cols: [BitCol; 7],
}

impl Board for BitBoard {
    closed spec fn grid(&self) -> Grid {
        cols_grid(self.cols@)
    }

    closed spec fn inv(&self) -> bool {
        cols_inv(self.cols@)
    }

    open spec fn canon(g: Grid) -> int {
        grid_code(g)
    }

    proof fn lemma_canon(g1: Grid, g2: Grid, depth: nat, curr: Token) {
        lemma_grid_code_injective(g1, g2);
    }

    proof fn lemma_canon_range(g: Grid) {
        lemma_grid_code_range(g, 7);
        assert(pow128(7) == 0x2_0000_0000_0000) by {
            reveal_with_fuel(pow128, 8);
        }
    }

    proof fn lemma_inv_wf(&self) {
        assert forall|c: int| 0 <= c < 7 implies self.grid()[c].len() <= 6 by {
            lemma_col_of_code_len(self.cols@[c].0 as int);
        }
    }

    fn empty() -> (b: Self) {
        let e = BitCol::empty();
        let b = BitBoard { cols: [e, e, e, e, e, e, e] };
        proof {
            assert forall|c: int| 0 <= c < 7 implies b.grid()[c] =~= empty_grid()[c] by {
                assert(b.cols@[c] == e);
            }
            assert(b.grid() =~~= empty_grid());
        }
        b
    }

    fn get(&self, pos: &Position) -> (r: Option<Token>) {
        let col = self.cols[pos.col.0];
        proof {
            assert(col == self.cols@[pos.col.0 as int]);
            assert(self.grid()[pos.col.0 as int] == col.view());
        }
        col.get(pos.row.0)
    }

    fn can_place(&self, col: &column::Idx) -> (r: bool) {
        !self.cols[col.0].is_full()
    }

    fn place(&mut self, col: &column::Idx, token: &Token) -> (r: Option<Position>) {
        let ghost g0 = self.grid();
        let c = col.0;
        if !self.cols[c].is_full() {
            let mut bc = self.cols[c];
            let row = bc.count();
            bc.force_push(token);
            self.cols[c] = bc;
            proof {
                assert(self.grid() =~~= grid_place(g0, c as int, *token));
            }
            Some(Position { col: *col, row: FiniteIndex(row) })
        } else {
            None
        }
    }

    fn key(&self) -> (k: u64) {
        cols_code_fold(&self.cols, false)
    }
}

impl CloneBoard for BitBoard {
    fn duplicate(&self) -> (b: Self) {
        *self
    }
}

impl MutBoard for BitBoard {
    fn unplace(&mut self, pos: &Position) {
        let ghost g0 = self.grid();
        let c = pos.col.0;
        let mut bc = self.cols[c];
        proof {
            assert(bc.view().len() == g0[c as int].len());
        }
        bc.force_pop();
        self.cols[c] = bc;
        proof {
            assert(self.grid() =~~= grid_unplace(g0, c as int));
        }
    }
}

/// Valid bit boards standing for the same grid are identical: this encoding
/// is injective, so restoring the grid restores the whole value.
pub proof fn lemma_bit_board_injective(a: BitBoard, b: BitBoard)
    requires
        a.inv(),
        b.inv(),
        a.grid() == b.grid(),
    ensures
        a == b,
{
    lemma_cols_injective(a.cols, b.cols);
}

} // verus!
