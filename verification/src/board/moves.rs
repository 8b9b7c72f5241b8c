//! A board encoding that stores only the moves made, reconstructing the
//! board state as needed. The worst representation available, kept for its
//! simplicity.

use vstd::prelude::*;
use crate::basic::{Position, Token};
use crate::board::{Board, CloneBoard, MutBoard};
use crate::column;
use crate::finite_index::FiniteIndex;
use crate::grid::{
    col_code, col_free, empty_grid, grid_code, grid_code_n, grid_place, grid_unplace, grid_wf,
    lemma_col_code_range, lemma_col_code_take, lemma_col_code_take_all, lemma_grid_code_injective,
    lemma_grid_code_range, lemma_place_unplace, lemma_place_wf, lemma_pow2n_le, lemma_pow128_le,
    pow2n, pow128, Grid,
};

verus! {

/// The grid a list of moves builds up: each move drops its token into its
/// column, and a move into a full column changes nothing.
pub open spec fn moves_grid(s: Seq<(column::Idx, Token)>) -> Grid
    decreases s.len(),
{
    if s.len() == 0 {
        empty_grid()
    } else {
        let g = moves_grid(s.drop_last());
        let c = s.last().0.0 as int;
        if col_free(g, c) {
            grid_place(g, c, s.last().1)
        } else {
            g
        }
    }
}

/// Every move of the list lands: no move was aimed at a full column.
pub open spec fn replay_ok(s: Seq<(column::Idx, Token)>) -> bool
    decreases s.len(),
{
    if s.len() == 0 {
        true
    } else {
        replay_ok(s.drop_last()) && col_free(moves_grid(s.drop_last()), s.last().0.0 as int)
    }
}

/// The tokens a move list drops into one column, bottom to top.
pub open spec fn col_tokens(s: Seq<(column::Idx, Token)>, c: int) -> Seq<Token>
    decreases s.len(),
{
    if s.len() == 0 {
        Seq::empty()
    } else if s.last().0.0 == c {
        col_tokens(s.drop_last(), c).push(s.last().1)
    } else {
        col_tokens(s.drop_last(), c)
    }
}

/// A replayed move list is a well-formed grid.
pub proof fn lemma_moves_grid_wf(s: Seq<(column::Idx, Token)>)
    ensures
        grid_wf(moves_grid(s)),
    decreases s.len(),
{
    if s.len() > 0 {
        lemma_moves_grid_wf(s.drop_last());
        let g = moves_grid(s.drop_last());
        let c = s.last().0.0 as int;
        if col_free(g, c) {
            lemma_place_wf(g, c, s.last().1);
        }
    }
}

/// When every move lands, each column of the replayed grid holds exactly
/// the tokens the list drops into it, in order.
pub proof fn lemma_moves_cols(s: Seq<(column::Idx, Token)>, c: int)
    requires
        replay_ok(s),
        0 <= c < 7,
    ensures
        moves_grid(s)[c] == col_tokens(s, c),
    decreases s.len(),
{
    if s.len() > 0 {
        lemma_moves_cols(s.drop_last(), c);
        lemma_moves_grid_wf(s.drop_last());
        let g = moves_grid(s.drop_last());
        let c2 = s.last().0.0 as int;
        assert(col_free(g, c2));
        if c2 == c {
            assert(moves_grid(s)[c] == g[c].push(s.last().1));
        } else {
            assert(moves_grid(s)[c] == g[c]);
        }
    }
}

/// Appending one landing move replays to one more placement.
pub proof fn lemma_moves_push(s: Seq<(column::Idx, Token)>, e: (column::Idx, Token))
    ensures
        s.push(e).drop_last() == s,
        s.push(e).last() == e,
        moves_grid(s.push(e)) == (if col_free(moves_grid(s), e.0.0 as int) {
            grid_place(moves_grid(s), e.0.0 as int, e.1)
        } else {
            moves_grid(s)
        }),
{
    assert(s.push(e).drop_last() =~= s);
}

/// Removing the last move aimed at column `c` from a landing move list
/// unplaces that column's top token, and the rest still lands.
pub proof fn lemma_moves_remove_last(s: Seq<(column::Idx, Token)>, i: int, c: int)
    requires
        replay_ok(s),
        0 <= c < 7,
        0 <= i < s.len(),
        s[i].0.0 == c,
        forall|j: int| i < j < s.len() ==> (#[trigger] s[j]).0.0 != c,
    ensures
        moves_grid(s.remove(i)) == grid_unplace(moves_grid(s), c),
        replay_ok(s.remove(i)),
    decreases s.len(),
{
    lemma_moves_grid_wf(s.drop_last());
    if i == s.len() - 1 {
        assert(s.remove(i) =~= s.drop_last());
        let g = moves_grid(s.drop_last());
        assert(col_free(g, c));
        lemma_place_unplace(g, c, s.last().1);
    } else {
        let sp = s.drop_last();
        let e = s.last();
        assert(e.0.0 != c);
        assert(sp =~= s.subrange(0, s.len() - 1));
        assert(sp[i] == s[i]);
        assert forall|j: int| i < j < sp.len() implies (#[trigger] sp[j]).0.0 != c by {
            assert(sp[j] == s[j]);
        }
        lemma_moves_remove_last(sp, i, c);
        assert(s.remove(i) =~= sp.remove(i).push(e));
        lemma_moves_push(sp.remove(i), e);
        let g = moves_grid(sp);
        let gu = grid_unplace(g, c);
        let ce = e.0.0 as int;
        lemma_moves_grid_wf(sp.remove(i));
        assert(col_free(g, ce));
        assert(moves_grid(sp.remove(i)) == gu);
        // unplacing one column leaves every other column untouched
        assert(gu[ce] == g[ce]);
        assert(col_free(gu, ce));
        assert(grid_place(gu, ce, e.1) =~~= grid_unplace(grid_place(g, ce, e.1), c));
        assert(moves_grid(s) == grid_place(g, ce, e.1));
        assert(moves_grid(s.remove(i)) == grid_place(gu, ce, e.1));
    }
}

/// Moves implementation using a vector of placed tokens.
/// Stores only the moves made, reconstructing the board state as needed.
#[derive(Debug, Clone, PartialEq, Eq)]
pub struct Moves {
    pub moves: Vec<(column::Idx, Token)>,
}

impl Moves {
    /// How many tokens the move list has dropped into the given column.
    pub fn count_in_column(&self, col: &column::Idx) -> (r: usize)
        requires
            self.inv(),
            col.inv(),
        ensures
            r == self.grid()[col.0 as int].len(),
    {
        count_in_moves(&self.moves, col)
    }
}

/// Counts the moves aimed at one column; on a landing move list this is
/// the column's height.
pub fn count_in_moves(moves: &Vec<(column::Idx, Token)>, col: &column::Idx) -> (r: usize)
    requires
        replay_ok(moves@),
        col.inv(),
    ensures
        r == col_tokens(moves@, col.0 as int).len(),
        r == moves_grid(moves@)[col.0 as int].len(),
{
    let s = moves;
    let ghost c = col.0 as int;
    let mut count: usize = 0;
    let mut i: usize = 0;
    while i < s.len()
        invariant
            replay_ok(s@),
            col.inv(),
            c == col.0 as int,
            i <= s@.len(),
            count == col_tokens(s@.take(i as int), c).len(),
            count <= i,
        decreases s@.len() - i,
    {
        let (mc, _) = s[i];
        proof {
            assert(s@.take(i as int + 1).drop_last() =~= s@.take(i as int));
            assert(s@.take(i as int + 1).last() == s@[i as int]);
        }
        if mc.0 == col.0 {
            count = count + 1;
        }
        i = i + 1;
    }
    proof {
        assert(s@.take(s@.len() as int) =~= s@);
        lemma_moves_cols(s@, c);
    }
    count
}

/// Finds the token the move list drops into the given cell, if any: the
/// `row`-th move aimed at the cell's column.
pub fn get_in_moves(moves: &Vec<(column::Idx, Token)>, pos: &Position) -> (r: Option<Token>)
    requires
        replay_ok(moves@),
        pos.inv(),
    ensures
        r == crate::grid::grid_get(moves_grid(moves@), pos.col.0 as int, pos.row.0 as int),
{
    let s = moves;
    let ghost c = pos.col.0 as int;
    let ghost rw = pos.row.0 as int;
    proof {
        lemma_moves_cols(s@, c);
        lemma_moves_grid_wf(s@);
    }
    let mut col_count: usize = 0;
    let mut i: usize = 0;
    while i < s.len()
        invariant
            s@ == moves@,
            replay_ok(s@),
            pos.inv(),
            c == pos.col.0 as int,
            rw == pos.row.0 as int,
            i <= s@.len(),
            col_count == col_tokens(s@.take(i as int), c).len(),
            col_count <= rw,
            moves_grid(s@)[c] == col_tokens(s@, c),
            grid_wf(moves_grid(s@)),
        decreases s@.len() - i,
    {
        let (mc, tok) = s[i];
        proof {
            lemma_col_tokens_prefix(s@, c, i as int);
        }
        if mc.0 == pos.col.0 {
            if col_count == pos.row.0 {
                proof {
                    lemma_col_tokens_is_prefix(s@, c, i as int + 1);
                    assert(col_tokens(s@.take(i as int + 1), c).len() == col_count + 1);
                    assert(col_tokens(s@.take(i as int + 1), c)[col_count as int] == tok);
                    assert(col_tokens(s@, c).len() >= col_count + 1);
                    assert(col_tokens(s@, c)[rw] == tok);
                    assert(rw < moves_grid(s@)[c].len());
                    assert(crate::grid::grid_get(moves_grid(s@), c, rw) == Some(tok));
                }
                return Some(tok);
            }
            col_count = col_count + 1;
        }
        i = i + 1;
    }
    proof {
        assert(s@.take(s@.len() as int) =~= s@);
        assert(col_tokens(s@, c).len() <= rw);
    }
    None
}

/// What the move-list board's abstract state is: its move list, replayed.
pub proof fn lemma_moves_model(m: &Moves)
    ensures
        m.inv() == replay_ok(m.moves@),
        m.grid() == moves_grid(m.moves@),
{
}

/// Every prefix of a landing move list lands as well.
pub proof fn lemma_replay_ok_prefix(s: Seq<(column::Idx, Token)>, i: int)
    requires
        replay_ok(s),
        0 <= i <= s.len(),
    ensures
        replay_ok(s.take(i)),
    decreases s.len(),
{
    if i == s.len() {
        assert(s.take(i) =~= s);
    } else {
        assert(s.drop_last().take(i) =~= s.take(i));
        lemma_replay_ok_prefix(s.drop_last(), i);
    }
}

/// What a prefix of the move list drops into a column is a prefix of what
/// the whole list drops into it.
pub(crate) proof fn lemma_col_tokens_is_prefix(s: Seq<(column::Idx, Token)>, c: int, i: int)
    requires
        0 <= i <= s.len(),
    ensures
        col_tokens(s.take(i), c) =~= col_tokens(s, c).take(
            col_tokens(s.take(i), c).len() as int,
        ),
        col_tokens(s.take(i), c).len() <= col_tokens(s, c).len(),
    decreases s.len() - i,
{
    if i == s.len() {
        assert(s.take(i) =~= s);
        assert(col_tokens(s, c).take(col_tokens(s, c).len() as int) =~= col_tokens(s, c));
    } else {
        lemma_col_tokens_is_prefix(s, c, i + 1);
        lemma_col_tokens_prefix(s, c, i);
    }
}

/// The column tokens of a prefix one move longer: unchanged, or extended by
/// the move's token when it aims at the column.
pub(crate) proof fn lemma_col_tokens_prefix(s: Seq<(column::Idx, Token)>, c: int, i: int)
    requires
        0 <= i < s.len(),
    ensures
        s[i].0.0 == c ==> col_tokens(s.take(i + 1), c) == col_tokens(s.take(i), c).push(s[i].1),
        s[i].0.0 != c ==> col_tokens(s.take(i + 1), c) == col_tokens(s.take(i), c),
{
    assert(s.take(i + 1).drop_last() =~= s.take(i));
    assert(s.take(i + 1).last() == s[i]);
}

impl Board for Moves {
    closed spec fn grid(&self) -> Grid {
        moves_grid(self.moves@)
    }

    closed spec fn inv(&self) -> bool {
        replay_ok(self.moves@)
    }

    open spec fn canon(g: Grid) -> int {
        grid_code(g)
    }

    proof fn lemma_canon(g1: Grid, g2: Grid, depth: nat, curr: Token) {
        lemma_grid_code_injective(g1, g2);
    }

    proof fn lemma_canon_range(g: Grid) {
        lemma_grid_code_range(g, 7);
        assert(pow128(7) == 0x2_0000_0000_0000) by {
            reveal_with_fuel(pow128, 8);
        }
    }

    proof fn lemma_inv_wf(&self) {
        lemma_moves_grid_wf(self.moves@);
    }

    fn empty() -> (b: Self) {
        Moves { moves: Vec::new() }
    }

    fn get(&self, pos: &Position) -> (r: Option<Token>) {
        get_in_moves(&self.moves, pos)
    }

    fn can_place(&self, col: &column::Idx) -> (r: bool) {
        self.count_in_column(col) < 6
    }

    fn place(&mut self, col: &column::Idx, token: &Token) -> (r: Option<Position>) {
        let row = self.count_in_column(col);
        if row >= 6 {
            return None;
        }
        let ghost s0 = self.moves@;
        self.moves.push((*col, *token));
        proof {
            lemma_moves_push(s0, (*col, *token));
        }
        Some(Position { col: *col, row: FiniteIndex(row) })
    }

    fn key(&self) -> (k: u64) {
        moves_key(&self.moves)
    }
}

/// Computes the canonical integer code of the grid a move list replays to.
pub fn moves_key(moves: &Vec<(column::Idx, Token)>) -> (k: u64)
    requires
        replay_ok(moves@),
    ensures
        k as int == grid_code(moves_grid(moves@)),
{
    let ghost g = moves_grid(moves@);
    proof {
        lemma_moves_grid_wf(moves@);
    }
    let mut k: u64 = 0;
    let mut c: usize = 0;
    while c < 7
        invariant
            replay_ok(moves@),
            g == moves_grid(moves@),
            grid_wf(g),
            c <= 7,
            k as int == grid_code_n(g, c as int),
            0 <= (k as int) && (k as int) < pow128(c as int),
        decreases 7 - c,
    {
        let ghost s = g[c as int];
        let colx = FiniteIndex(c);
        let height = count_in_moves(moves, &colx);
        let mut byte: u64 = 1;
        let mut rw: usize = 0;
        while rw < height
            invariant
                replay_ok(moves@),
                g == moves_grid(moves@),
                grid_wf(g),
                c < 7,
                colx.0 == c,
                s == g[c as int],
                height == s.len(),
                rw <= height,
                byte as int == col_code(s.take(rw as int)),
                byte < 128,
            decreases height - rw,
        {
            let cell = get_in_moves(moves, &Position { col: colx, row: FiniteIndex(rw) });
            let bit: u64 = match cell {
                Some(Token::Yellow) => 0,
                Some(Token::Red) => 1,
                None => {
                    proof {
                        assert(false);
                    }
                    0
                },
            };
            proof {
                lemma_col_code_take(s, rw as int);
                lemma_col_code_range(s.take(rw as int + 1));
                lemma_pow2n_le(s.take(rw as int + 1).len() as int + 1, 7);
                assert(pow2n(7) == 128) by {
                    reveal_with_fuel(pow2n, 8);
                }
            }
            byte = byte * 2 + bit;
            rw = rw + 1;
        }
        proof {
            assert(s.take(s.len() as int) =~= s);
            lemma_col_code_take_all(s);
            lemma_grid_code_range(g, c as int + 1);
            lemma_pow128_le(c as int + 1, 7);
            assert(pow128(7) == 0x2_0000_0000_0000) by {
                reveal_with_fuel(pow128, 8);
            }
        }
        k = k * 128 + byte;
        c = c + 1;
    }
    k
}

impl CloneBoard for Moves {
    fn duplicate(&self) -> (b: Self) {
        let mut copy: Vec<(column::Idx, Token)> = Vec::new();
        let mut i: usize = 0;
        while i < self.moves.len()
            invariant
                i <= self.moves@.len(),
                copy@ =~= self.moves@.take(i as int),
            decreases self.moves@.len() - i,
        {
            let e = self.moves[i];
            copy.push(e);
            proof {
                assert(self.moves@.take(i as int + 1).drop_last() =~= self.moves@.take(i as int));
            }
            i = i + 1;
        }
        proof {
            assert(self.moves@.take(self.moves@.len() as int) =~= self.moves@);
            assert(copy@ == self.moves@);
        }
        Moves { moves: copy }
    }
}

impl MutBoard for Moves {
    fn unplace(&mut self, pos: &Position) {
        let ghost s0 = self.moves@;
        let ghost c = pos.col.0 as int;
        proof {
            lemma_moves_cols(s0, c);
            lemma_moves_grid_wf(s0);
        }
        let mut col_count: usize = 0;
        let mut i: usize = 0;
        while i < self.moves.len()
            invariant
                self.moves@ == s0,
                s0 == old(self).moves@,
                replay_ok(s0),
                pos.inv(),
                c == pos.col.0 as int,
                pos.row.0 + 1 == moves_grid(s0)[c].len(),
                moves_grid(s0)[c] == col_tokens(s0, c),
                grid_wf(moves_grid(s0)),
                i <= s0.len(),
                col_count == col_tokens(s0.take(i as int), c).len(),
                col_count <= pos.row.0,
            decreases s0.len() - i,
        {
            let (mc, _) = self.moves[i];
            proof {
                lemma_col_tokens_prefix(s0, c, i as int);
            }
            if mc.0 == pos.col.0 {
                if col_count == pos.row.0 {
                    proof {
                        // this is the last move aimed at the column: later
                        // moves there would put the column's height past the
                        // cell's row
                        assert forall|j: int| i < j < s0.len() implies (#[trigger] s0[j]).0.0
                            != c by {
                            if s0[j].0.0 == c {
                                lemma_col_tokens_grow(s0, c, i as int + 1, j + 1);
                                assert(col_tokens(s0.take(j + 1), c).len() > pos.row.0 + 1);
                                lemma_col_tokens_grow(s0, c, j + 1, s0.len() as int);
                                assert(s0.take(s0.len() as int) =~= s0);
                                assert(col_tokens(s0, c).len() > pos.row.0 + 1);
                            }
                        }
                        lemma_moves_remove_last(s0, i as int, c);
                    }
                    self.moves.remove(i);
                    proof {
                        assert(self.moves@ == s0.remove(i as int));
                        assert(self.grid() == grid_unplace(moves_grid(s0), c));
                    }
                    return ;
                }
                col_count = col_count + 1;
            }
            i = i + 1;
        }
        proof {
            assert(s0.take(s0.len() as int) =~= s0);
            // unreachable: the column holds a token at the cell's row, so
            // some move put it there
            assert(col_tokens(s0, c).len() <= pos.row.0);
            assert(false);
        }
    }
}

/// Column tokens only grow along a move list's prefixes.
pub(crate) proof fn lemma_col_tokens_grow(s: Seq<(column::Idx, Token)>, c: int, a: int, b: int)
    requires
        0 <= a <= b <= s.len(),
    ensures
        col_tokens(s.take(a), c).len() <= col_tokens(s.take(b), c).len(),
        a < b && s[b - 1].0.0 == c ==> col_tokens(s.take(a), c).len() < col_tokens(
            s.take(b),
            c,
        ).len(),
    decreases b - a,
{
    if a < b {
        lemma_col_tokens_grow(s, c, a, b - 1);
        lemma_col_tokens_prefix(s, c, b - 1);
    }
}

} // verus!
