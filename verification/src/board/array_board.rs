//! A board encoding using a 2D array of optional tokens.

use vstd::prelude::*;
use crate::basic::{Position, Token};
use crate::board::{Board, CloneBoard, MutBoard};
use crate::column;
use crate::finite_index::FiniteIndex;
use crate::grid::{
    Grid, col_code, empty_grid, col_free, grid_code, grid_code_n, grid_place,
    grid_unplace, lemma_col_code_range, lemma_col_code_take, lemma_col_code_take_all,
    lemma_grid_code_injective, lemma_grid_code_range, lemma_pow2n_le, lemma_pow128_le, pow2n,
    pow128,
};

verus! {

broadcast use vstd::array::group_array_axioms;

/// Board implementation using a 2D array of Option<Token>.
/// An array of columns, where the 0th element is the bottom of the column.
#[derive(Clone, Copy, Debug, PartialEq, Eq, Hash)]
pub struct ArrayBoard {
    cells: [[Option<Token>; 6]; 7],
}

/// How many occupied cells sit at the bottom of a column array: the index of
/// the first empty cell.
pub open spec fn array_col_height(a: [Option<Token>; 6]) -> int {
    if a@[0] is None {
        0
    } else if a@[1] is None {
        1
    } else if a@[2] is None {
        2
    } else if a@[3] is None {
        3
    } else if a@[4] is None {
        4
    } else if a@[5] is None {
        5
    } else {
        6
    }
}

/// The token stack a column array stands for.
pub open spec fn array_col_seq(a: [Option<Token>; 6]) -> Seq<Token> {
    Seq::new(array_col_height(a) as nat, |r: int| a@[r].unwrap())
}

/// A column array is a stack: above the first empty cell everything is empty.
pub open spec fn array_col_wf(a: [Option<Token>; 6]) -> bool {
    forall|r: int| array_col_height(a) <= r < 6 ==> a@[r] is None
}

impl Board for ArrayBoard {
    closed spec fn grid(&self) -> Grid {
        Seq::new(7, |c: int| array_col_seq(self.cells@[c]))
    }

    closed spec fn inv(&self) -> bool {
        forall|c: int| 0 <= c < 7 ==> array_col_wf(#[trigger] self.cells@[c])
    }

    open spec fn canon(g: Grid) -> int {
        grid_code(g)
    }

    proof fn lemma_canon(g1: Grid, g2: Grid, depth: nat, curr: Token) {
        lemma_grid_code_injective(g1, g2);
    }

    proof fn lemma_canon_range(g: Grid) {
        lemma_grid_code_range(g, 7);
        assert(pow128(7) == 0x2_0000_0000_0000) by {
            reveal_with_fuel(pow128, 8);
        }
    }

    proof fn lemma_inv_wf(&self) {
    }

    fn empty() -> (b: Self) {
        let col: [Option<Token>; 6] = [None, None, None, None, None, None];
        let b = ArrayBoard { cells: [col, col, col, col, col, col, col] };
        proof {
            assert forall|c: int| 0 <= c < 7 implies b.grid()[c] =~= empty_grid()[c] by {
                assert(b.cells@[c] == col);
                assert(array_col_height(col) == 0);
            }
            assert(b.grid() =~~= empty_grid());
        }
        b
    }

    fn get(&self, pos: &Position) -> (r: Option<Token>) {
        let c = pos.col.0;
        let rw = pos.row.0;
        let cell = self.cells[c][rw];
        proof {
            let a = self.cells@[c as int];
            if rw < array_col_height(a) {
                assert(a@[rw as int] is Some);
            } else {
                assert(a@[rw as int] is None);
            }
        }
        cell
    }

    fn can_place(&self, col: &column::Idx) -> (r: bool) {
        let r = self.cells[col.0][5].is_none();
        proof {
            let a = self.cells@[col.0 as int];
            if array_col_height(a) < 6 {
                assert(a@[5] is None);
            }
        }
        r
    }

    fn place(&mut self, col: &column::Idx, token: &Token) -> (r: Option<Position>) {
        let ghost g0 = self.grid();
        let c = col.0;
        let mut rw: usize = 0;
        while rw < 6
            invariant
                self.inv(),
                g0 == self.grid(),
                *self == *old(self),
                c == col.0,
                c <= 6,
                rw <= 6,
                forall|j: int| 0 <= j < rw ==> self.cells@[c as int]@[j] is Some,
            decreases 6 - rw,
        {
            if self.cells[c][rw].is_none() {
                let ghost a = self.cells@[c as int];
                proof {
                    assert(array_col_height(a) == rw);
                }
                let mut column = self.cells[c];
                column[rw] = Some(*token);
                self.cells[c] = column;
                proof {
                    assert(g0[c as int] == array_col_seq(a));
                    assert(g0[c as int].len() == rw as int);
                    assert(col_free(g0, c as int));
                    let a2 = self.cells@[c as int];
                    assert(a2@ =~= a@.update(rw as int, Some(*token)));
                    assert(array_col_height(a2) == rw + 1);
                    assert(array_col_seq(a2) =~= array_col_seq(a).push(*token));
                    assert(self.grid() =~~= grid_place(g0, c as int, *token));
                }
                return Some(Position { col: *col, row: FiniteIndex(rw) });
            }
            rw = rw + 1;
        }
        proof {
            assert(array_col_height(self.cells@[c as int]) == 6);
            assert(g0[c as int] == array_col_seq(self.cells@[c as int]));
            assert(!col_free(g0, c as int));
        }
        None
    }

    fn key(&self) -> (k: u64) {
        let ghost g = self.grid();
        let mut k: u64 = 0;
        let mut c: usize = 0;
        while c < 7
            invariant
                self.inv(),
                g == self.grid(),
                c <= 7,
                k as int == grid_code_n(g, c as int),
                0 <= (k as int) && (k as int) < pow128(c as int),
            decreases 7 - c,
        {
            let ghost s = g[c as int];
            let mut byte: u64 = 1;
            let mut rw: usize = 0;
            let mut done = false;
            while rw < 6 && !done
                invariant
                    self.inv(),
                    g == self.grid(),
                    c < 7,
                    s == g[c as int],
                    rw <= 6,
                    rw <= s.len(),
                    byte as int == col_code(s.take(rw as int)),
                    byte < 128,
                    done ==> rw == s.len(),
                decreases 6 - rw + (if done { 0int } else { 1int }),
            {
                let cell = self.cells[c][rw];
                match cell {
                    Some(x) => {
                        proof {
                            assert(rw < array_col_height(self.cells@[c as int]));
                            assert(s[rw as int] == x);
                            lemma_col_code_take(s, rw as int);
                            lemma_col_code_range(s.take(rw as int + 1));
                            lemma_pow2n_le(s.take(rw as int + 1).len() as int + 1, 7);
                            assert(pow2n(7) == 128) by {
                                reveal_with_fuel(pow2n, 8);
                            }
                        }
                        let bit: u64 = match x {
                            Token::Yellow => 0,
                            Token::Red => 1,
                        };
                        byte = byte * 2 + bit;
                        rw = rw + 1;
                    },
                    None => {
                        proof {
                            assert(rw >= array_col_height(self.cells@[c as int]));
                            assert(rw == s.len());
                        }
                        done = true;
                    },
                }
            }
            proof {
                assert(rw == s.len());
                lemma_col_code_take_all(s);
                lemma_grid_code_range(g, c as int + 1);
                lemma_pow128_le(c as int + 1, 7);
                assert(pow128(7) == 0x2_0000_0000_0000) by {
                    reveal_with_fuel(pow128, 8);
                }
            }
            k = k * 128 + byte;
            c = c + 1;
        }
        k
    }
}

impl CloneBoard for ArrayBoard {
    fn duplicate(&self) -> (b: Self) {
        *self
    }
}

impl MutBoard for ArrayBoard {
    fn unplace(&mut self, pos: &Position) {
        let ghost g0 = self.grid();
        let c = pos.col.0;
        let rw = pos.row.0;
        let ghost a = self.cells@[c as int];
        let mut column = self.cells[c];
        column[rw] = None;
        self.cells[c] = column;
        proof {
            assert(g0[c as int] == array_col_seq(a));
            assert(array_col_height(a) == rw + 1);
            let a2 = self.cells@[c as int];
            assert(a2@ =~= a@.update(rw as int, None::<Token>));
            assert(array_col_height(a2) == rw);
            assert(array_col_seq(a2) =~= array_col_seq(a).drop_last());
            assert(self.grid() =~~= grid_unplace(g0, c as int));
        }
    }
}

/// Valid array boards standing for the same grid are identical: this
/// encoding is injective, so restoring the grid restores the whole value.
pub proof fn lemma_array_board_injective(a: ArrayBoard, b: ArrayBoard)
    requires
        a.inv(),
        b.inv(),
        a.grid() == b.grid(),
    ensures
        a == b,
{
    assert forall|c: int| 0 <= c < 7 implies a.cells@[c] == b.cells@[c] by {
        let ca = a.cells@[c];
        let cb = b.cells@[c];
        assert(a.grid()[c] == array_col_seq(ca));
        assert(b.grid()[c] == array_col_seq(cb));
        assert(array_col_height(ca) == array_col_height(cb));
        assert forall|r: int| 0 <= r < 6 implies ca@[r] == cb@[r] by {
            if r < array_col_height(ca) {
                assert(array_col_seq(ca)[r] == ca@[r].unwrap());
                assert(array_col_seq(cb)[r] == cb@[r].unwrap());
                assert(ca@[r] is Some && cb@[r] is Some);
            }
        }
        assert(ca@ =~= cb@);
        assert(ca == cb);
    }
    assert(a.cells@ =~= b.cells@);
    assert(a.cells == b.cells);
}

} // verus!
