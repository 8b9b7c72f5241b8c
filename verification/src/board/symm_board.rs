//! A bit-packed board with symmetry-aware equality and cache keying: a
//! board and its left-right mirror image compare equal and share one cache
//! slot, so mirrored positions are explored once.

use vstd::prelude::*;
use crate::basic::{Position, Token};
use crate::board::{Board, CloneBoard, MutBoard};
use crate::board::bit_board::{cols_code_fold, cols_grid, cols_inv};
use crate::board::bit_col::{lemma_col_of_code_code, lemma_col_of_code_len, BitCol};
use crate::column;
use crate::finite_index::FiniteIndex;
use crate::game::{lemma_mirror_minimax};
use vstd::std_specs::cmp::PartialEqSpec;
use crate::grid::{
    empty_grid, grid_place, grid_unplace, lemma_grid_code_range,
    lemma_mirror_count, lemma_mirror_wf, lemma_symm_code_characterises,
    mirror_grid, pow128, symm_code, Grid,
};

verus! {

broadcast use vstd::array::group_array_axioms;

/// A board implementation using bit manipulation for storage with
/// customised equality and cache keying for symmetry.
/// Each column is stored as a BitCol.
#[derive(Clone, Copy, Debug)]
pub struct SymmBoard {
    cols: [BitCol; 7],
}

impl Board for SymmBoard {
    closed spec fn grid(&self) -> Grid {
        cols_grid(self.cols@)
    }

    closed spec fn inv(&self) -> bool {
        cols_inv(self.cols@)
    }

    open spec fn canon(g: Grid) -> int {
        symm_code(g)
    }

    proof fn lemma_canon(g1: Grid, g2: Grid, depth: nat, curr: Token) {
        lemma_symm_code_characterises(g1, g2);
        if g1 == mirror_grid(g2) {
            lemma_mirror_minimax(g2, depth, curr);
            lemma_mirror_count(g2);
        }
    }

    proof fn lemma_canon_range(g: Grid) {
        lemma_grid_code_range(g, 7);
        lemma_mirror_wf(g);
        lemma_grid_code_range(mirror_grid(g), 7);
        assert(pow128(7) == 0x2_0000_0000_0000) by {
            reveal_with_fuel(pow128, 8);
        }
    }

    proof fn lemma_inv_wf(&self) {
        assert forall|c: int| 0 <= c < 7 implies self.grid()[c].len() <= 6 by {
            lemma_col_of_code_len(self.cols@[c].0 as int);
        }
    }

    fn empty() -> (b: Self) {
        let e = BitCol::empty();
        let b = SymmBoard { cols: [e, e, e, e, e, e, e] };
        proof {
            assert forall|c: int| 0 <= c < 7 implies b.grid()[c] =~= empty_grid()[c] by {
                assert(b.cols@[c] == e);
            }
            assert(b.grid() =~~= empty_grid());
        }
        b
    }

    fn get(&self, pos: &Position) -> (r: Option<Token>) {
        let col = self.cols[pos.col.0];
        proof {
            assert(col == self.cols@[pos.col.0 as int]);
            assert(self.grid()[pos.col.0 as int] == col.view());
        }
        col.get(pos.row.0)
    }

    fn can_place(&self, col: &column::Idx) -> (r: bool) {
        !self.cols[col.0].is_full()
    }

    fn place(&mut self, col: &column::Idx, token: &Token) -> (r: Option<Position>) {
        let ghost g0 = self.grid();
        let c = col.0;
        if !self.cols[c].is_full() {
            let mut bc = self.cols[c];
            let row = bc.count();
            bc.force_push(token);
            self.cols[c] = bc;
            proof {
                assert(self.grid() =~~= grid_place(g0, c as int, *token));
            }
            Some(Position { col: *col, row: FiniteIndex(row) })
        } else {
            None
        }
    }

    fn key(&self) -> (k: u64) {
        let plain = cols_code_fold(&self.cols, false);
        let mirrored = cols_code_fold(&self.cols, true);
        if plain <= mirrored {
            plain
        } else {
            mirrored
        }
    }
}

impl CloneBoard for SymmBoard {
    fn duplicate(&self) -> (b: Self) {
        *self
    }
}

impl MutBoard for SymmBoard {
    fn unplace(&mut self, pos: &Position) {
        let ghost g0 = self.grid();
        let c = pos.col.0;
        let mut bc = self.cols[c];
        proof {
            assert(bc.view().len() == g0[c as int].len());
        }
        bc.force_pop();
        self.cols[c] = bc;
        proof {
            assert(self.grid() =~~= grid_unplace(g0, c as int));
        }
    }
}

impl PartialEq for SymmBoard {
    fn eq(&self, other: &Self) -> (r: bool) {
        let mut direct = true;
        let mut mirrored = true;
        let mut c: usize = 0;
        while c < 7
            invariant
                c <= 7,
                direct == (forall|j: int| 0 <= j < c ==> self.cols@[j].0 == other.cols@[j].0),
                mirrored == (forall|j: int|
                    0 <= j < c ==> self.cols@[j].0 == other.cols@[6 - j].0),
            decreases 7 - c,
        {
            if self.cols[c].as_u8() != other.cols[c].as_u8() {
                direct = false;
            }
            if self.cols[c].as_u8() != other.cols[6 - c].as_u8() {
                mirrored = false;
            }
            c = c + 1;
        }
        direct || mirrored
    }
}

impl Eq for SymmBoard {

}

impl vstd::std_specs::cmp::PartialEqSpecImpl for SymmBoard {
    open spec fn obeys_eq_spec() -> bool {
        true
    }

    closed spec fn eq_spec(&self, other: &Self) -> bool {
        ||| (forall|j: int| 0 <= j < 7 ==> (#[trigger] self.cols@[j]).0 == other.cols@[j].0)
        ||| (forall|j: int| 0 <= j < 7 ==> (#[trigger] self.cols@[j]).0 == other.cols@[6 - j].0)
    }
}

/// The symmetry-aware equality recognises exactly a board's own layout and
/// its left-right mirror image: a board and its mirror always compare equal
/// and share the canonical key, and two boards that are neither equal nor
/// mirror images never collide on either.
pub proof fn lemma_symm_equality(a: SymmBoard, b: SymmBoard)
    requires
        a.inv(),
        b.inv(),
    ensures
        a.eq_spec(&b) <==> (a.grid() == b.grid() || a.grid() == mirror_grid(b.grid())),
        a.eq_spec(&b) <==> SymmBoard::canon(a.grid()) == SymmBoard::canon(b.grid()),
{
    a.lemma_inv_wf();
    b.lemma_inv_wf();
    lemma_symm_code_characterises(a.grid(), b.grid());
    if a.eq_spec(&b) {
        if forall|j: int| 0 <= j < 7 ==> (#[trigger] a.cols@[j]).0 == b.cols@[j].0 {
            assert forall|j: int| 0 <= j < 7 implies a.grid()[j] == b.grid()[j] by {
                assert(a.cols@[j].0 == b.cols@[j].0);
            }
            assert(a.grid() =~~= b.grid());
        } else {
            assert forall|j: int| 0 <= j < 7 implies a.grid()[j] == mirror_grid(b.grid())[j] by {
                assert(a.cols@[j].0 == b.cols@[6 - j].0);
            }
            assert(a.grid() =~~= mirror_grid(b.grid()));
        }
    }
    if a.grid() == b.grid() {
        assert forall|j: int| 0 <= j < 7 implies (#[trigger] a.cols@[j]).0 == b.cols@[j].0 by {
            assert(a.grid()[j] == a.cols@[j].view());
            assert(b.grid()[j] == b.cols@[j].view());
            lemma_col_of_code_code(a.cols@[j].0 as int);
            lemma_col_of_code_code(b.cols@[j].0 as int);
        }
        assert(a.eq_spec(&b));
    } else if a.grid() == mirror_grid(b.grid()) {
        assert forall|j: int| 0 <= j < 7 implies (#[trigger] a.cols@[j]).0 == b.cols@[6 - j].0 by {
            assert(a.grid()[j] == a.cols@[j].view());
            assert(mirror_grid(b.grid())[j] == b.grid()[6 - j]);
            assert(b.grid()[6 - j] == b.cols@[6 - j].view());
            lemma_col_of_code_code(a.cols@[j].0 as int);
            lemma_col_of_code_code(b.cols@[6 - j].0 as int);
        }
        assert(a.eq_spec(&b));
    }
}

} // verus!
