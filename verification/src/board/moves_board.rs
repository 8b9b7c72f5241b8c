//! The move-list encoding under its sibling name: the same vector of
//! placed tokens, with an unchecked placement entry point.

use vstd::prelude::*;
use crate::basic::{Position, Token};
use crate::board::{Board, CloneBoard, MutBoard};
use crate::board::moves::{
    col_tokens, count_in_moves, get_in_moves, lemma_col_tokens_grow, lemma_col_tokens_prefix,
    lemma_moves_cols, lemma_moves_grid_wf, lemma_moves_push, lemma_moves_remove_last, moves_grid,
    moves_key, replay_ok,
};
use crate::column;
use crate::finite_index::FiniteIndex;
use crate::grid::{
    col_free, grid_code, grid_place, grid_unplace, grid_wf, lemma_grid_code_injective,
    lemma_grid_code_range, pow128, Grid,
};

verus! {

/// MovesBoard implementation using a vector of placed tokens.
/// Stores only the moves made, reconstructing the board state as needed.
#[derive(Debug, Clone, PartialEq, Eq)]
pub struct MovesBoard {
    moves: Vec<(column::Idx, Token)>,
}

impl MovesBoard {
    /// How many tokens the move list has dropped into the given column.
    pub fn count_in_column(&self, col: &column::Idx) -> (r: usize)
        requires
            self.inv(),
            col.inv(),
        ensures
            r == self.grid()[col.0 as int].len(),
    {
        count_in_moves(&self.moves, col)
    }

    /// Places without checking: the column must not be full. Returns the
    /// landing cell.
    pub fn force_place(&mut self, col: &column::Idx, token: &Token) -> (r: Position)
        requires
            old(self).inv(),
            col.inv(),
            col_free(old(self).grid(), col.0 as int),
        ensures
            final(self).inv(),
            final(self).grid() == grid_place(old(self).grid(), col.0 as int, *token),
            r == (Position {
                col: *col,
                row: FiniteIndex(old(self).grid()[col.0 as int].len() as usize),
            }),
    {
        let row = self.count_in_column(col);
        let ghost s0 = self.moves@;
        self.moves.push((*col, *token));
        proof {
            lemma_moves_push(s0, (*col, *token));
        }
        Position { col: *col, row: FiniteIndex(row) }
    }
}

impl Board for MovesBoard {
    closed spec fn grid(&self) -> Grid {
        moves_grid(self.moves@)
    }

    closed spec fn inv(&self) -> bool {
        replay_ok(self.moves@)
    }

    open spec fn canon(g: Grid) -> int {
        grid_code(g)
    }

    proof fn lemma_canon(g1: Grid, g2: Grid, depth: nat, curr: Token) {
        lemma_grid_code_injective(g1, g2);
    }

    proof fn lemma_canon_range(g: Grid) {
        lemma_grid_code_range(g, 7);
        assert(pow128(7) == 0x2_0000_0000_0000) by {
            reveal_with_fuel(pow128, 8);
        }
    }

    proof fn lemma_inv_wf(&self) {
        lemma_moves_grid_wf(self.moves@);
    }

    fn empty() -> (b: Self) {
        MovesBoard { moves: Vec::new() }
    }

    fn get(&self, pos: &Position) -> (r: Option<Token>) {
        get_in_moves(&self.moves, pos)
    }

    fn can_place(&self, col: &column::Idx) -> (r: bool) {
        self.count_in_column(col) < 6
    }

    fn place(&mut self, col: &column::Idx, token: &Token) -> (r: Option<Position>) {
        if self.can_place(col) {
            Some(self.force_place(col, token))
        } else {
            None
        }
    }

    fn key(&self) -> (k: u64) {
        moves_key(&self.moves)
    }
}

impl CloneBoard for MovesBoard {
    fn duplicate(&self) -> (b: Self) {
        let mut copy: Vec<(column::Idx, Token)> = Vec::new();
        let mut i: usize = 0;
        while i < self.moves.len()
            invariant
                i <= self.moves@.len(),
                copy@ =~= self.moves@.take(i as int),
            decreases self.moves@.len() - i,
        {
            let e = self.moves[i];
            copy.push(e);
            proof {
                assert(self.moves@.take(i as int + 1).drop_last() =~= self.moves@.take(i as int));
            }
            i = i + 1;
        }
        proof {
            assert(self.moves@.take(self.moves@.len() as int) =~= self.moves@);
            assert(copy@ == self.moves@);
        }
        MovesBoard { moves: copy }
    }
}

impl MutBoard for MovesBoard {
    fn unplace(&mut self, pos: &Position) {
        let ghost s0 = self.moves@;
        let ghost c = pos.col.0 as int;
        proof {
            lemma_moves_cols(s0, c);
            lemma_moves_grid_wf(s0);
        }
        let mut col_count: usize = 0;
        let mut i: usize = 0;
        while i < self.moves.len()
            invariant
                self.moves@ == s0,
                s0 == old(self).moves@,
                replay_ok(s0),
                pos.inv(),
                c == pos.col.0 as int,
                pos.row.0 + 1 == moves_grid(s0)[c].len(),
                moves_grid(s0)[c] == col_tokens(s0, c),
                grid_wf(moves_grid(s0)),
                i <= s0.len(),
                col_count == col_tokens(s0.take(i as int), c).len(),
                col_count <= pos.row.0,
            decreases s0.len() - i,
        {
            let (mc, _) = self.moves[i];
            proof {
                lemma_col_tokens_prefix(s0, c, i as int);
            }
            if mc.0 == pos.col.0 {
                if col_count == pos.row.0 {
                    proof {
                        // this is the last move aimed at the column: later
                        // moves there would put the column's height past the
                        // cell's row
                        assert forall|j: int| i < j < s0.len() implies (#[trigger] s0[j]).0.0
                            != c by {
                            if s0[j].0.0 == c {
                                lemma_col_tokens_grow(s0, c, i as int + 1, j + 1);
                                assert(col_tokens(s0.take(j + 1), c).len() > pos.row.0 + 1);
                                lemma_col_tokens_grow(s0, c, j + 1, s0.len() as int);
                                assert(s0.take(s0.len() as int) =~= s0);
                                assert(col_tokens(s0, c).len() > pos.row.0 + 1);
                            }
                        }
                        lemma_moves_remove_last(s0, i as int, c);
                    }
                    self.moves.remove(i);
                    proof {
                        assert(self.moves@ == s0.remove(i as int));
                        assert(self.grid() == grid_unplace(moves_grid(s0), c));
                    }
                    return ;
                }
                col_count = col_count + 1;
            }
            i = i + 1;
        }
        proof {
            assert(s0.take(s0.len() as int) =~= s0);
            // unreachable: the column holds a token at the cell's row, so
            // some move put it there
            assert(col_tokens(s0, c).len() <= pos.row.0);
            assert(false);
        }
    }
}

} // verus!
