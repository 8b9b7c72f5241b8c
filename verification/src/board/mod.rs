//! The board capability set: one contract, several encodings.

use vstd::prelude::*;
use crate::basic::{Position, Token};
use crate::column;
use crate::finite_index::FiniteIndex;
use crate::game::spec_minimax;
use crate::grid::{
    Grid, cnt_cols, cnt_rows, col_code, col_free, curr_player_of, empty_grid, grid_code,
    grid_code_n, grid_get, grid_place, grid_unplace, grid_wf, lemma_col_code_range,
    lemma_col_code_take, lemma_col_code_take_all, lemma_grid_code_range, lemma_mirror_wf,
    lemma_pow2n_le, lemma_pow128_le, mirror_grid, pow2n, pow128, tok_bit,
    token_count,
};
use crate::text::{
    border_cut, cell_char, is_blank, is_blank_char, is_border, lemma_segs_total_bounds,
    lemma_split_total, read_seg, read_segs, render_down, render_row, row_cells, segs_total_from,
    segs_views, spec_read, spec_render, spec_split, split_acc, ReadError, ReadState,
};
use crate::wins::{capped_run, cell_at_step, fwd_count, lemma_fwd_at_least,
    lemma_fwd_cells, lemma_wins_iff_runs, runs_of_len, wins_at};
use vstd::string::StrSliceExecFns;
use vstd::string::StringExecFns;

pub mod array_board;
pub mod bit_board;
pub mod bit_col;
pub mod count_bit_board;
pub mod moves;
pub mod moves_board;
pub mod symm_board;
pub mod symmetric_bit_board;
pub mod testing;

verus! {

/// Trait containing common board functionality.
///
/// Each encoding names the grid it stands for (`grid`), its representation
/// invariant (`inv`), and a canonical cache key (`canon`) under which
/// positions it treats as equivalent share one key. The proof obligations
/// make a shared key harmless: key-equal grids have equal token counts and
/// equal search outcomes.
pub trait Board: Sized {
    /// The abstract grid this board stands for.
    spec fn grid(&self) -> Grid;

    /// The representation invariant of this encoding.
    spec fn inv(&self) -> bool;

    /// The canonical cache key of a grid under this encoding's notion of
    /// position equivalence.
    spec fn canon(g: Grid) -> int;

    /// Grids sharing a canonical key have the same token count and the same
    /// bounded search outcome at every depth.
    proof fn lemma_canon(g1: Grid, g2: Grid, depth: nat, curr: Token)
        requires
            grid_wf(g1),
            grid_wf(g2),
            Self::canon(g1) == Self::canon(g2),
        ensures
            token_count(g1) == token_count(g2),
            spec_minimax(g1, depth, curr) == spec_minimax(g2, depth, curr),
    ;

    /// The canonical key of a well-formed grid fits in a u64.
    proof fn lemma_canon_range(g: Grid)
        requires
            grid_wf(g),
        ensures
            0 <= Self::canon(g) < 0x1_0000_0000_0000_0000,
    ;

    /// A valid board stands for a well-formed grid.
    proof fn lemma_inv_wf(&self)
        requires
            self.inv(),
        ensures
            grid_wf(self.grid()),
    ;

    /// An empty starting board.
    fn empty() -> (b: Self)
        ensures
            b.inv(),
            b.grid() == empty_grid(),
    ;

    /// Returns the token at the given position, or None if the cell is empty.
    fn get(&self, pos: &Position) -> (r: Option<Token>)
        requires
            self.inv(),
            pos.inv(),
        ensures
            r == grid_get(self.grid(), pos.col.0 as int, pos.row.0 as int),
    ;

    /// Returns true if a token can be placed in the given column,
    /// i.e. the column is not full.
    fn can_place(&self, col: &column::Idx) -> (r: bool)
        requires
            self.inv(),
            col.inv(),
        ensures
            r == col_free(self.grid(), col.0 as int),
    ;

    /// Tries to place the given token in the given column.
    /// Returns `Some(position)` of the landing cell if successful, `None`
    /// (and leaves the board untouched) if the column is full.
    /// `token` should equal the current player, as given by `curr_player`.
    fn place(&mut self, col: &column::Idx, token: &Token) -> (r: Option<Position>)
        requires
            old(self).inv(),
            col.inv(),
        ensures
            final(self).inv(),
            col_free(old(self).grid(), col.0 as int) ==> final(self).grid() == grid_place(
                old(self).grid(),
                col.0 as int,
                *token,
            ) && r == Some(
                (Position {
                    col: *col,
                    row: FiniteIndex(old(self).grid()[col.0 as int].len() as usize),
                }),
            ),
            !col_free(old(self).grid(), col.0 as int) ==> r is None && *final(self) == *old(self),
    ;

    /// The canonical cache key of this board, as a machine integer.
    fn key(&self) -> (k: u64)
        requires
            self.inv(),
        ensures
            k as int == Self::canon(self.grid()),
    ;

    /// Compute the current player based on the number of tokens on the board.
    fn curr_player(&self) -> (t: Token)
        requires
            self.inv(),
        ensures
            t == curr_player_of(self.grid()),
    {
        let ghost g = self.grid();
        let mut red_count: usize = 0;
        let mut yellow_count: usize = 0;
        let mut c: usize = 0;
        while c < 7
            invariant
                self.inv(),
                g == self.grid(),
                c <= 7,
                yellow_count as int == cnt_cols(g, Token::Yellow, c as int),
                red_count as int == cnt_cols(g, Token::Red, c as int),
                yellow_count <= 6 * c,
                red_count <= 6 * c,
            decreases 7 - c,
        {
            let mut rw: usize = 0;
            while rw < 6
                invariant
                    self.inv(),
                    g == self.grid(),
                    c < 7,
                    rw <= 6,
                    yellow_count as int == cnt_cols(g, Token::Yellow, c as int) + cnt_rows(
                        g,
                        c as int,
                        Token::Yellow,
                        rw as int,
                    ),
                    red_count as int == cnt_cols(g, Token::Red, c as int) + cnt_rows(
                        g,
                        c as int,
                        Token::Red,
                        rw as int,
                    ),
                    yellow_count <= 6 * c + rw,
                    red_count <= 6 * c + rw,
                decreases 6 - rw,
            {
                let pos = Position { col: FiniteIndex(c), row: FiniteIndex(rw) };
                match self.get(&pos) {
                    Some(Token::Red) => {
                        red_count = red_count + 1;
                    },
                    Some(Token::Yellow) => {
                        yellow_count = yellow_count + 1;
                    },
                    None => {},
                }
                rw = rw + 1;
            }
            c = c + 1;
        }
        if red_count < yellow_count {
            Token::Red
        } else {
            Token::Yellow
        }
    }

    /// Read a board from its string representation: rows between `|`
    /// delimiters, top row first, replayed bottom-up per column. A trailing
    /// border line terminates parsing, so a rendered board reads back
    /// exactly; a malformed text is rejected instead of producing a board.
    fn read(string: &str) -> (r: Result<Self, ReadError>)
        ensures
            spec_read(string@) matches Ok(g) ==> r matches Ok(b) && b.inv() && b.grid() == g,
            spec_read(string@) matches Err(e) ==> r == Err::<Self, ReadError>(e),
    {
        let ghost sq = string@;
        let s_len = string.unicode_len();
        let mut segs: Vec<Vec<char>> = Vec::new();
        let mut cur: Vec<char> = Vec::new();
        proof {
            assert(segs_views(segs@) =~= Seq::<Seq<char>>::empty());
            assert(cur@ =~= Seq::<char>::empty());
        }
        let mut i: usize = 0;
        while i < s_len
            invariant
                s_len == sq.len(),
                sq == string@,
                i <= s_len,
                spec_split(sq) == split_acc(sq, i as int, cur@, segs_views(segs@)),
            decreases s_len - i,
        {
            let ch = string.get_char(i);
            if ch == '|' {
                let ghost old_segs = segs@;
                let ghost old_cur = cur@;
                segs.push(cur);
                cur = Vec::new();
                proof {
                    assert(segs_views(segs@) =~= segs_views(old_segs).push(old_cur));
                }
            } else {
                cur.push(ch);
            }
            i = i + 1;
        }
        let ghost old_segs = segs@;
        let ghost old_cur = cur@;
        segs.push(cur);
        let ghost sv = segs_views(segs@);
        proof {
            assert(segs_views(segs@) =~= segs_views(old_segs).push(old_cur));
            assert(sv == spec_split(sq));
            lemma_split_total(sq, 0, Seq::empty(), Seq::empty());
            assert(segs_total_from(sv, 0) <= sq.len());
        }
        let n = segs.len();
        proof {
            assert(sv.len() == n);
            lemma_segs_total_bounds(sv, n as int);
        }
        // the trailing border line terminates parsing: find it and discard
        // it together with everything after it
        let mut cut: usize = 0;
        while cut < n && !segment_is_border(&segs[cut])
            invariant
                n == segs.len(),
                sv == segs_views(segs@),
                cut <= n,
                sv.len() == n,
                border_cut(sv, 0) == border_cut(sv, cut as int),
            decreases n - cut,
        {
            cut = cut + 1;
        }
        proof {
            assert(cut as int == border_cut(sv, 0));
            lemma_segs_total_bounds(sv, cut as int);
        }
        let mut board = Self::empty();
        let mut diff: i128 = 0;
        let mut k = cut;
        while k > 0
            invariant
                board.inv(),
                n == segs.len(),
                k <= n,
                sv == segs_views(segs@),
                sv == spec_split(sq),
                sq == string@,
                sv.len() == n,
                segs_total_from(sv, 0) <= sq.len(),
                sq.len() == s_len,
                cut as int == border_cut(sv, 0),
                k <= cut,
                -segs_total_from(sv, k as int) <= diff,
                diff <= segs_total_from(sv, k as int),
                read_segs(sv, cut - 1, crate::grid::empty_grid(), 0) == read_segs(
                    sv,
                    k - 1,
                    board.grid(),
                    diff as int,
                ),
            decreases k,
        {
            k = k - 1;
            let seg = &segs[k];
            let ghost sg = seg@;
            proof {
                assert(sg == sv[k as int]);
                assert(segs_total_from(sv, k as int) == sg.len() + segs_total_from(
                    sv,
                    k as int + 1,
                ));
                lemma_segs_total_bounds(sv, k as int + 1);
                lemma_segs_total_bounds(sv, k as int);
            }
            // skip segments holding only whitespace
            let mut blank = true;
            let mut j: usize = 0;
            while j < seg.len()
                invariant
                    sg == seg@,
                    j <= sg.len(),
                    blank == (forall|x: int| 0 <= x < j ==> is_blank_char(#[trigger] sg[x])),
                decreases sg.len() - j,
            {
                let ch = seg[j];
                if !(ch == ' ' || ch == '\n' || ch == '\r' || ch == '\t') {
                    blank = false;
                }
                j = j + 1;
            }
            if !blank {
                proof {
                    assert(!is_blank(sg));
                }
                // replay the row, dropping each token into its column
                let ghost g_in = board.grid();
                let ghost d_in = diff as int;
                let mut j: usize = 0;
                while j < seg.len()
                    invariant
                        board.inv(),
                        sg == seg@,
                        sg == sv[k as int],
                        k < sv.len(),
                        sv == spec_split(sq),
                        sq == string@,
                        j <= sg.len(),
                        segs_total_from(sv, 0) <= sq.len(),
                        sq.len() == s_len,
                        -segs_total_from(sv, k as int + 1) <= d_in,
                        d_in <= segs_total_from(sv, k as int + 1),
                        segs_total_from(sv, k as int) == sg.len() + segs_total_from(
                            sv,
                            k as int + 1,
                        ),
                        segs_total_from(sv, k as int) <= segs_total_from(sv, 0),
                        0 <= segs_total_from(sv, k as int + 1),
                        d_in - j <= diff <= d_in + j,
                        read_seg(g_in, d_in, sg, 0) == read_seg(
                            board.grid(),
                            diff as int,
                            sg,
                            j as int,
                        ),
                        cut as int == border_cut(sv, 0),
                        read_segs(sv, cut - 1, crate::grid::empty_grid(), 0) == read_segs(
                            sv,
                            k as int,
                            g_in,
                            d_in,
                        ),
                        !is_blank(sg),
                    decreases sg.len() - j,
                {
                    let ch = seg[j];
                    if ch == 'Y' || ch == 'R' {
                        if j > 6 {
                            proof {
                                reveal_with_fuel(read_seg, 2);
                                assert(sg[j as int] == 'Y' || sg[j as int] == 'R');
                                assert(read_seg(board.grid(), diff as int, sg, j as int)
                                    == ReadState::Bad(ReadError::RowTooWide));
                                assert(read_seg(g_in, d_in, sg, 0) == ReadState::Bad(
                                    ReadError::RowTooWide,
                                ));
                                assert(spec_read(sq) == Err::<crate::grid::Grid, ReadError>(
                                    ReadError::RowTooWide,
                                ));
                            }
                            return Err(ReadError::RowTooWide);
                        }
                        let tok = if ch == 'Y' {
                            Token::Yellow
                        } else {
                            Token::Red
                        };
                        if ch == 'Y' {
                            diff = diff + 1;
                        } else {
                            diff = diff - 1;
                        }
                        let colx = FiniteIndex(j);
                        let _ = board.place(&colx, &tok);
                    } else if ch == '.' || ch == ' ' {
                    } else if ch == '+' || ch == '-' {
                        proof {
                            reveal_with_fuel(read_seg, 2);
                            assert(sg[j as int] == '+' || sg[j as int] == '-');
                            assert(read_seg(board.grid(), diff as int, sg, j as int)
                                == ReadState::Halted(board.grid(), diff as int));
                            assert(read_seg(g_in, d_in, sg, 0) == ReadState::Halted(
                                board.grid(),
                                diff as int,
                            ));
                            assert(read_segs(sv, cut - 1, crate::grid::empty_grid(), 0)
                                == ReadState::Halted(board.grid(), diff as int));
                            assert(spec_read(sq) == Ok::<crate::grid::Grid, ReadError>(
                                board.grid(),
                            ));
                        }
                        return Ok(board);
                    } else {
                        proof {
                            reveal_with_fuel(read_seg, 2);
                            assert(sg[j as int] != 'Y' && sg[j as int] != 'R' && sg[j as int]
                                != '.' && sg[j as int] != ' ' && sg[j as int] != '+'
                                && sg[j as int] != '-');
                            assert(read_seg(board.grid(), diff as int, sg, j as int)
                                == ReadState::Bad(ReadError::BadChar));
                            assert(read_seg(g_in, d_in, sg, 0) == ReadState::Bad(
                                ReadError::BadChar,
                            ));
                            assert(spec_read(sq) == Err::<crate::grid::Grid, ReadError>(
                                ReadError::BadChar,
                            ));
                        }
                        return Err(ReadError::BadChar);
                    }
                    j = j + 1;
                }
                proof {
                    assert(read_seg(g_in, d_in, sg, 0) == ReadState::Going(
                        board.grid(),
                        diff as int,
                    ));
                }
            } else {
                proof {
                    assert(is_blank(sg));
                }
            }
        }
        proof {
            assert(read_segs(sv, cut - 1, crate::grid::empty_grid(), 0) == ReadState::Going(
                board.grid(),
                diff as int,
            ));
        }
        if diff == 0 || diff == 1 {
            Ok(board)
        } else {
            Err(ReadError::Imbalanced)
        }
    }

    /// The string form of the board: rows between bars, top row first, the
    /// bottom row last, and a border line at the end.
    fn to_string(&self) -> (r: String)
        requires
            self.inv(),
        ensures
            r@ == spec_render(self.grid()),
    {
        let ghost g = self.grid();
        let mut out = String::new();
        out.append("\n");
        proof {
            reveal_strlit("\n");
            assert(out@ =~= seq!['\n']);
            assert(render_down(g, 5).take(0) =~= Seq::<char>::empty());
        }
        let mut rrow: usize = 6;
        while rrow > 0
            invariant
                self.inv(),
                g == self.grid(),
                rrow <= 6,
                out@ =~= seq!['\n'] + render_down(g, 5).take((6 - rrow) * 10),
            decreases rrow,
        {
            rrow = rrow - 1;
            let ghost pre = out@;
            out.append("|");
            proof {
                reveal_strlit("|");
                assert(out@ =~= pre + seq!['|']);
                assert(out@ =~= pre + seq!['|'] + row_cells(g, rrow as int).take(0));
            }
            let mut c: usize = 0;
            while c < 7
                invariant
                    self.inv(),
                    g == self.grid(),
                    rrow <= 5,
                    c <= 7,
                    out@ =~= pre + seq!['|'] + row_cells(g, rrow as int).take(c as int),
                decreases 7 - c,
            {
                let ghost before = out@;
                let pos = Position { col: FiniteIndex(c), row: FiniteIndex(rrow) };
                match self.get(&pos) {
                    Some(Token::Yellow) => {
                        out.append("Y");
                        proof {
                            reveal_strlit("Y");
                        }
                    },
                    Some(Token::Red) => {
                        out.append("R");
                        proof {
                            reveal_strlit("R");
                        }
                    },
                    None => {
                        out.append(" ");
                        proof {
                            reveal_strlit(" ");
                        }
                    },
                }
                proof {
                    assert(out@ =~= before.push(cell_char(g, c as int, rrow as int)));
                    assert(row_cells(g, rrow as int)[c as int] == cell_char(
                        g,
                        c as int,
                        rrow as int,
                    )) by {
                        if c == 0 {
                        } else if c == 1 {
                        } else if c == 2 {
                        } else if c == 3 {
                        } else if c == 4 {
                        } else if c == 5 {
                        } else {
                        }
                    }
                    assert(out@ =~= pre + seq!['|'] + row_cells(g, rrow as int).take(
                        c as int + 1,
                    ));
                }
                c = c + 1;
            }
            out.append("|\n");
            proof {
                reveal_strlit("|\n");
                assert(row_cells(g, rrow as int).take(7) =~= row_cells(g, rrow as int));
                assert(out@ =~= pre + render_row(g, rrow as int));
                lemma_render_take(g, rrow as int);
                assert(out@ =~= seq!['\n'] + render_down(g, 5).take((6 - rrow) * 10));
            }
        }
        proof {
            lemma_render_len(g, 5);
            assert(render_down(g, 5).take(60int) =~= render_down(g, 5));
        }
        out.append("+--------+\n");
        proof {
            reveal_strlit("+--------+\n");
            assert(out@ =~= spec_render(g));
        }
        out
    }
}

/// Each printed row takes ten characters, so the rows down from `r` take
/// ten times their number.
pub proof fn lemma_render_len(g: Grid, r: int)
    ensures
        render_down(g, r).len() == (if r < 0 {
            0int
        } else {
            10 * (r + 1)
        }),
    decreases r + 1,
{
    if r >= 0 {
        lemma_render_len(g, r - 1);
        assert(render_row(g, r).len() == 10);
    }
}

/// Cutting the printed rows after one more row extends the cut by exactly
/// that row's ten characters.
pub proof fn lemma_render_take(g: Grid, rrow: int)
    requires
        0 <= rrow <= 5,
    ensures
        render_down(g, 5).take((6 - rrow) * 10) =~= render_down(g, 5).take((5 - rrow) * 10)
            + render_row(g, rrow),
{
    lemma_render_split(g, 5, rrow);
}

/// The printed rows down from `top`, cut after the rows through `rrow`,
/// are the cut through the row above plus the printed row `rrow`.
proof fn lemma_render_split(g: Grid, top: int, rrow: int)
    requires
        0 <= rrow <= top,
    ensures
        render_down(g, top).take((top - rrow + 1) * 10) =~= render_down(g, top).take(
            (top - rrow) * 10,
        ) + render_row(g, rrow),
    decreases top - rrow,
{
    lemma_render_len(g, top);
    lemma_render_len(g, top - 1);
    lemma_render_len(g, rrow);
    lemma_render_len(g, rrow - 1);
    assert(render_row(g, top).len() == 10);
    assert(render_row(g, rrow).len() == 10);
    assert(render_down(g, top) =~= render_row(g, top) + render_down(g, top - 1));
    if rrow < top {
        lemma_render_split(g, top - 1, rrow);
        assert(render_down(g, top).take((top - rrow + 1) * 10) =~= render_row(g, top)
            + render_down(g, top - 1).take((top - rrow) * 10));
        assert(render_down(g, top).take((top - rrow) * 10) =~= render_row(g, top)
            + render_down(g, top - 1).take((top - rrow - 1) * 10));
        assert(render_row(g, top) + (render_down(g, top - 1).take((top - rrow - 1) * 10)
            + render_row(g, rrow)) =~= (render_row(g, top) + render_down(g, top - 1).take(
            (top - rrow - 1) * 10,
        )) + render_row(g, rrow));
        assert(render_down(g, top).take((top - rrow + 1) * 10) =~= render_down(g, top).take(
            (top - rrow) * 10,
        ) + render_row(g, rrow));
    } else {
        assert(render_down(g, top).take(10int) =~= render_row(g, top));
        assert(render_down(g, top).take(0int) =~= Seq::<char>::empty());
    }
}

/// Builds a board of this encoding by replaying a recorded move list.
/// Tells whether a segment is a border line: its first character that is
/// not whitespace is `+` or `-`.
fn segment_is_border(seg: &Vec<char>) -> (r: bool)
    ensures
        r == is_border(seg@),
{
    let ghost sg = seg@;
    proof {
        assert(sg.skip(0) =~= sg);
    }
    let mut j: usize = 0;
    while j < seg.len()
        invariant
            sg == seg@,
            j <= sg.len(),
            is_border(sg) == is_border(sg.skip(j as int)),
        decreases sg.len() - j,
    {
        let ch = seg[j];
        proof {
            assert(sg.skip(j as int).first() == sg[j as int]);
            assert(sg.skip(j as int).drop_first() =~= sg.skip(j as int + 1));
        }
        if !(ch == ' ' || ch == '\n' || ch == '\r' || ch == '\t') {
            return ch == '+' || ch == '-';
        }
        j = j + 1;
    }
    proof {
        assert(sg.skip(sg.len() as int).len() == 0);
    }
    false
}

pub fn from_moves<B: Board>(moves: &crate::board::moves::Moves) -> (b: B)
    requires
        moves.inv(),
    ensures
        b.inv(),
        b.grid() == moves.grid(),
{
    let ghost s = moves.moves@;
    proof {
        crate::board::moves::lemma_moves_model(moves);
    }
    let mut board = B::empty();
    let mut i: usize = 0;
    while i < moves.moves.len()
        invariant
            board.inv(),
            crate::board::moves::replay_ok(s),
            s == moves.moves@,
            i <= s.len(),
            board.grid() == crate::board::moves::moves_grid(s.take(i as int)),
        decreases s.len() - i,
    {
        let (col, token) = moves.moves[i];
        proof {
            crate::board::moves::lemma_replay_ok_prefix(s, i as int + 1);
            assert(s.take(i as int + 1).drop_last() =~= s.take(i as int));
            assert(s.take(i as int + 1).last() == s[i as int]);
            assert(col_free(
                crate::board::moves::moves_grid(s.take(i as int)),
                s[i as int].0.0 as int,
            ));
        }
        let placed = board.place(&col, &token);
        proof {
            assert(placed is Some);
        }
        i = i + 1;
    }
    proof {
        assert(s.take(s.len() as int) =~= s);
        crate::board::moves::lemma_moves_model(moves);
    }
    board
}

/// Trait for board implementations that have a cheap clone operation.
/// Must opt-in to this trait.
pub trait CloneBoard: Board {
    /// An identical copy of this board.
    fn duplicate(&self) -> (b: Self)
        requires
            self.inv(),
        ensures
            b.inv(),
            b.grid() == self.grid(),
    ;

    /// Clones the given board and places the given token in the given
    /// column, returning the new board and the landing cell if successful.
    /// `token` should equal the current player, as given by `curr_player`.
    fn clone_and_place(&self, col: &column::Idx, token: &Token) -> (r: Option<(Self, Position)>)
        requires
            self.inv(),
            col.inv(),
        ensures
            col_free(self.grid(), col.0 as int) ==> (r matches Some(bp) && bp.0.inv()
                && bp.0.grid() == grid_place(self.grid(), col.0 as int, *token) && bp.1 == (
            Position {
                col: *col,
                row: FiniteIndex(self.grid()[col.0 as int].len() as usize),
            })),
            !col_free(self.grid(), col.0 as int) ==> r is None,
    {
        // check if we can place first to avoid cloning unnecessarily
        if self.can_place(col) {
            let mut new_board = self.duplicate();
            if let Some(cell) = new_board.place(col, token) {
                Some((new_board, cell))
            } else {
                None
            }
        } else {
            None
        }
    }
}

/// Trait for board implementations that don't have a cheap clone operation
/// and instead place and unplace tokens on the same board.
pub trait MutBoard: Board {
    /// Removes the token at the given position, which must be the top of its
    /// column: the protocol only ever unplaces what the matching `place` of
    /// the same call frame just placed, making this its exact inverse.
    fn unplace(&mut self, pos: &Position)
        requires
            old(self).inv(),
            pos.inv(),
            pos.row.0 + 1 == old(self).grid()[pos.col.0 as int].len(),
        ensures
            final(self).inv(),
            final(self).grid() == grid_unplace(old(self).grid(), pos.col.0 as int),
    ;
}

/// Where a column stands in the fixed centre-first enumeration order
/// 3, 2, 4, 1, 5, 0, 6: central plays are tried first, alternating outward.
pub open spec fn centred_pos(c: int) -> int {
    if c == 3 {
        0
    } else if c == 2 {
        1
    } else if c == 4 {
        2
    } else if c == 1 {
        3
    } else if c == 5 {
        4
    } else if c == 0 {
        5
    } else {
        6
    }
}

/// Every possible subsequent board state after placing the given token in
/// each non-full column, tried centre-first.
pub fn next_boards<B: CloneBoard>(board: &B, token: &Token) -> (v: Vec<(B, Position)>)
    requires
        board.inv(),
    ensures
        forall|i: int|
            0 <= i < v@.len() ==> {
                let c = (#[trigger] v@[i]).1.col.0 as int;
                &&& v@[i].0.inv()
                &&& col_free(board.grid(), c)
                &&& v@[i].0.grid() == grid_place(board.grid(), c, *token)
                &&& v@[i].1.row.0 == board.grid()[c].len()
                &&& v@[i].1.inv()
            },
        forall|c: int|
            #![trigger grid_place(board.grid(), c, *token)]
            col_free(board.grid(), c) ==> exists|i: int|
                0 <= i < v@.len() && (#[trigger] v@[i]).1.col.0 == c,
        forall|i: int, j: int|
            0 <= i < v@.len() && 0 <= j < v@.len() && i != j ==> (#[trigger] v@[i]).1.col.0 != (
            #[trigger] v@[j]).1.col.0,
        forall|i: int, j: int|
            0 <= i < j < v@.len() ==> centred_pos((#[trigger] v@[i]).1.col.0 as int) < centred_pos(
                (#[trigger] v@[j]).1.col.0 as int,
            ),
{
    let ghost g = board.grid();
    // a simple optimisation to try the centre columns first
    let order: [usize; 7] = [3, 2, 4, 1, 5, 0, 6];
    let mut v: Vec<(B, Position)> = Vec::new();
    let mut k: usize = 0;
    while k < 7
        invariant
            board.inv(),
            g == board.grid(),
            k <= 7,
            order@ =~= seq![3usize, 2, 4, 1, 5, 0, 6],
            forall|i: int|
                0 <= i < v@.len() ==> {
                    let c = (#[trigger] v@[i]).1.col.0 as int;
                    &&& v@[i].0.inv()
                    &&& col_free(g, c)
                    &&& v@[i].0.grid() == grid_place(g, c, *token)
                    &&& v@[i].1.row.0 == g[c].len()
                    &&& v@[i].1.inv()
                },
            forall|m: int|
                0 <= m < k ==> (col_free(g, order@[m] as int) ==> exists|i: int|
                    0 <= i < v@.len() && (#[trigger] v@[i]).1.col.0 == order@[m]),
            forall|i: int, j: int|
                0 <= i < v@.len() && 0 <= j < v@.len() && i != j ==> (#[trigger] v@[i]).1.col.0
                    != (#[trigger] v@[j]).1.col.0,
            forall|i: int|
                0 <= i < v@.len() ==> exists|m: int|
                    0 <= m < k && order@[m] == (#[trigger] v@[i]).1.col.0,
            forall|i: int, j: int|
                0 <= i < j < v@.len() ==> centred_pos((#[trigger] v@[i]).1.col.0 as int)
                    < centred_pos((#[trigger] v@[j]).1.col.0 as int),
        decreases 7 - k,
    {
        let c = order[k];
        let colx = FiniteIndex(c);
        let ghost oldv = v@;
        match board.clone_and_place(&colx, token) {
            Some(bp) => {
                proof {
                    assert(col_free(g, c as int));
                }
                v.push(bp);
                proof {
                    assert(v@ == oldv.push(bp));
                    assert(v@[oldv.len() as int] == bp);
                    assert(bp.1.col.0 == c);
                    assert(order@[0] == 3 && order@[1] == 2 && order@[2] == 4 && order@[3] == 1
                        && order@[4] == 5 && order@[5] == 0 && order@[6] == 6);
                    assert forall|m: int|
                        0 <= m < k + 1 && col_free(g, order@[m] as int) implies exists|i: int|
                        0 <= i < v@.len() && (#[trigger] v@[i]).1.col.0 == order@[m] by {
                        if m < k {
                            let i = choose|i: int|
                                0 <= i < oldv.len() && (#[trigger] oldv[i]).1.col.0 == order@[m];
                            assert(v@[i].1.col.0 == order@[m]);
                        } else {
                            assert(v@[oldv.len() as int].1.col.0 == order@[m]);
                        }
                    }
                    assert(centred_pos(c as int) == k as int);
                    assert forall|i: int, j: int| 0 <= i < j < v@.len() implies centred_pos(
                        (#[trigger] v@[i]).1.col.0 as int,
                    ) < centred_pos((#[trigger] v@[j]).1.col.0 as int) by {
                        if j == oldv.len() {
                            let m = choose|m: int|
                                0 <= m < k && order@[m] == (#[trigger] oldv[i]).1.col.0;
                            assert(v@[i] == oldv[i]);
                            assert(centred_pos(order@[m] as int) == m);
                        } else {
                            assert(v@[i] == oldv[i]);
                            assert(v@[j] == oldv[j]);
                        }
                    }
                }
            },
            None => {
                proof {
                    assert(!col_free(g, c as int));
                }
            },
        }
        k = k + 1;
    }
    proof {
        assert forall|c: int|
            #![trigger grid_place(g, c, *token)]
            col_free(g, c) implies exists|i: int|
            0 <= i < v@.len() && (#[trigger] v@[i]).1.col.0 == c by {
            assert(0 <= c < 7);
            if c == 0 {
                assert(order@[5] == 0);
                assert(col_free(g, order@[5] as int));
            } else if c == 1 {
                assert(order@[3] == 1);
                assert(col_free(g, order@[3] as int));
            } else if c == 2 {
                assert(order@[1] == 2);
                assert(col_free(g, order@[1] as int));
            } else if c == 3 {
                assert(order@[0] == 3);
                assert(col_free(g, order@[0] as int));
            } else if c == 4 {
                assert(order@[2] == 4);
                assert(col_free(g, order@[2] as int));
            } else if c == 5 {
                assert(order@[4] == 5);
                assert(col_free(g, order@[4] as int));
            } else {
                assert(order@[6] == 6);
                assert(col_free(g, order@[6] as int));
            }
        }
    }
    v
}

/// Builds the left-right mirror image of a board: the same stacks, each in
/// the opposite column.
pub fn flipped<B: CloneBoard>(board: &B) -> (b: B)
    requires
        board.inv(),
    ensures
        b.inv(),
        b.grid() == mirror_grid(board.grid()),
{
    let ghost g = board.grid();
    proof {
        board.lemma_inv_wf();
    }
    let mut out = B::empty();
    let mut c: usize = 0;
    while c < 7
        invariant
            board.inv(),
            g == board.grid(),
            grid_wf(g),
            out.inv(),
            c <= 7,
            out.grid().len() == 7,
            forall|d: int|
                #![trigger out.grid()[d]]
                0 <= d < 7 ==> out.grid()[d] == (if d > 6 - c {
                    g[6 - d]
                } else {
                    Seq::<Token>::empty()
                }),
        decreases 7 - c,
    {
        let ghost len_c = g[c as int].len() as int;
        let mut rw: usize = 0;
        while rw < 6
            invariant
                board.inv(),
                g == board.grid(),
                grid_wf(g),
                out.inv(),
                c < 7,
                rw <= 6,
                len_c == g[c as int].len(),
                out.grid().len() == 7,
                forall|d: int|
                    #![trigger out.grid()[d]]
                    0 <= d < 7 ==> out.grid()[d] == (if d > 6 - c {
                        g[6 - d]
                    } else if d == 6 - c {
                        (if rw <= len_c {
                            g[c as int].take(rw as int)
                        } else {
                            g[c as int]
                        })
                    } else {
                        Seq::<Token>::empty()
                    }),
            decreases 6 - rw,
        {
            let pos = Position { col: FiniteIndex(c), row: FiniteIndex(rw) };
            match board.get(&pos) {
                Some(tok) => {
                    let ghost og = out.grid();
                    let target = FiniteIndex(6 - c);
                    proof {
                        assert(og[6 - c as int] == g[c as int].take(rw as int));
                        assert(og[6 - c as int].len() < 6);
                    }
                    let _ = out.place(&target, &tok);
                    proof {
                        assert(g[c as int].take(rw as int + 1) =~= g[c as int].take(
                            rw as int,
                        ).push(tok));
                        assert forall|d: int|
                            #![trigger out.grid()[d]]
                            0 <= d < 7 implies out.grid()[d] == (if d > 6 - (c as int) {
                            g[6 - d]
                        } else if d == 6 - (c as int) {
                            (if rw + 1 <= len_c {
                                g[c as int].take(rw as int + 1)
                            } else {
                                g[c as int]
                            })
                        } else {
                            Seq::<Token>::empty()
                        }) by {
                            if d != 6 - (c as int) {
                                assert(out.grid()[d] == og[d]);
                            }
                        }
                    }
                },
                None => {
                    proof {
                        assert(rw >= len_c);
                        if rw as int == len_c {
                            assert(g[c as int].take(rw as int) =~= g[c as int]);
                        }
                    }
                },
            }
            rw = rw + 1;
        }
        proof {
            assert(out.grid()[6 - c as int] == g[c as int]);
        }
        c = c + 1;
    }
    proof {
        assert(out.grid() =~~= mirror_grid(g));
    }
    out
}

/// Checks there is a win, a sequence of four same-colour tokens, that
/// includes the given position. The winning player is given by the colour of
/// the token at the position.
pub fn won_at<B: Board>(board: &B, pos: &Position) -> (r: bool)
    requires
        board.inv(),
        pos.inv(),
        grid_get(board.grid(), pos.col.0 as int, pos.row.0 as int) is Some,
    ensures
        r == wins_at(board.grid(), pos.col.0 as int, pos.row.0 as int),
{
    count_adjacent_at(board, pos).is_none()
}

/// For every direction (horizontal, vertical, and both diagonals),
/// calculates the length of the line of same tokens in that direction,
/// including the given position.
/// Returns None if a win is found (a row of four), else
/// Some((count of adjacent triples, count of adjacent pairs)).
pub fn count_adjacent_at<B: Board>(board: &B, pos: &Position) -> (r: Option<(usize, usize)>)
    requires
        board.inv(),
        pos.inv(),
        grid_get(board.grid(), pos.col.0 as int, pos.row.0 as int) is Some,
    ensures
        ({
            let g = board.grid();
            let col = pos.col.0 as int;
            let row = pos.row.0 as int;
            let t = grid_get(g, col, row).unwrap();
            &&& (r is None <==> wins_at(g, col, row))
            &&& (r is Some ==> r == Some(
                (
                    runs_of_len(g, col, row, t, 3) as usize,
                    runs_of_len(g, col, row, t, 2) as usize,
                ),
            ))
        }),
{
    let ghost g = board.grid();
    let ghost col = pos.col.0 as int;
    let ghost row = pos.row.0 as int;
    let t = match board.get(pos) {
        Some(t) => t,
        None => {
            // unreachable: the precondition says the cell is occupied
            proof {
                assert(false);
            }
            Token::Yellow
        },
    };
    let mut triples: usize = 0;
    let mut pairs: usize = 0;
    let c_h = count_line(board, pos, 1, 0, t);
    let c_v = count_line(board, pos, 0, 1, t);
    let c_d1 = count_line(board, pos, 1, 1, t);
    let c_d2 = count_line(board, pos, 1, -1, t);
    proof {
        lemma_wins_iff_runs(g, col, row, t);
    }
    if c_h == 4 || c_v == 4 || c_d1 == 4 || c_d2 == 4 {
        return None;
    }
    if c_h == 3 {
        triples = triples + 1;
    } else if c_h == 2 {
        pairs = pairs + 1;
    }
    if c_v == 3 {
        triples = triples + 1;
    } else if c_v == 2 {
        pairs = pairs + 1;
    }
    if c_d1 == 3 {
        triples = triples + 1;
    } else if c_d1 == 2 {
        pairs = pairs + 1;
    }
    if c_d2 == 3 {
        triples = triples + 1;
    } else if c_d2 == 2 {
        pairs = pairs + 1;
    }
    Some((triples, pairs))
}


/// Multiplying by a unit step: the three step values a direction component
/// can take.
proof fn lemma_mul_unit(k: int, d: int)
    ensures
        d == 1 ==> k * d == k,
        d == 0 ==> k * d == 0,
        d == -1 ==> k * d == -k,
{
    assert(d == 1 ==> k * d == k) by (nonlinear_arith);
    assert(d == 0 ==> k * d == 0) by (nonlinear_arith);
    assert(d == -1 ==> k * d == -k) by (nonlinear_arith);
}

/// Counts the length of the line of cells holding token `t` through the
/// given position in direction (dc, dr), both ways, capped at four.
fn count_line<B: Board>(board: &B, pos: &Position, dc: isize, dr: isize, t: Token) -> (r: usize)
    requires
        board.inv(),
        pos.inv(),
        -1 <= dc <= 1,
        -1 <= dr <= 1,
        !(dc == 0 && dr == 0),
        grid_get(board.grid(), pos.col.0 as int, pos.row.0 as int) == Some(t),
    ensures
        r as int == capped_run(
            board.grid(),
            pos.col.0 as int,
            pos.row.0 as int,
            dc as int,
            dr as int,
            t,
        ),
{
    let f = walk_line(board, pos, dc, dr, t);
    let b = walk_line(board, pos, -dc, -dr, t);
    proof {
        lemma_fwd_cells(
            board.grid(),
            pos.col.0 as int,
            pos.row.0 as int,
            dc as int,
            dr as int,
            t,
            6,
        );
        lemma_fwd_cells(
            board.grid(),
            pos.col.0 as int,
            pos.row.0 as int,
            -dc as int,
            -dr as int,
            t,
            6,
        );
    }
    let total = 1 + f + b;
    if total >= 4 {
        4
    } else {
        total
    }
}

/// Walks from the given position in direction (dc, dr), counting how many
/// consecutive cells hold token `t`; stops at the board edge or at the first
/// other cell.
fn walk_line<B: Board>(board: &B, pos: &Position, dc: isize, dr: isize, t: Token) -> (steps: usize)
    requires
        board.inv(),
        pos.inv(),
        -1 <= dc <= 1,
        -1 <= dr <= 1,
        !(dc == 0 && dr == 0),
    ensures
        steps as int == fwd_count(
            board.grid(),
            pos.col.0 as int,
            pos.row.0 as int,
            dc as int,
            dr as int,
            t,
            6,
        ),
{
    let ghost g = board.grid();
    let ghost col = pos.col.0 as int;
    let ghost row = pos.row.0 as int;
    proof {
        board.lemma_inv_wf();
    }
    let mut k: usize = 0;
    let mut cc: usize = pos.col.0;
    let mut cr: usize = pos.row.0;
    loop
        invariant
            board.inv(),
            g == board.grid(),
            grid_wf(g),
            -1 <= dc <= 1,
            -1 <= dr <= 1,
            !(dc == 0 && dr == 0),
            col == pos.col.0 as int,
            row == pos.row.0 as int,
            0 <= col <= 6,
            0 <= row <= 5,
            cc <= 6,
            cr <= 5,
            k <= 6,
            dc == 1 ==> cc as int == col + k,
            dc == 0 ==> cc as int == col,
            dc == -1 ==> cc as int == col - k,
            dr == 1 ==> cr as int == row + k,
            dr == 0 ==> cr as int == row,
            dr == -1 ==> cr as int == row - k,
            forall|j: int|
                1 <= j <= k ==> #[trigger] cell_at_step(g, col, row, dc as int, dr as int, j)
                    == Some(t),
        decreases 7 - k,
    {
        let nc_i: isize = cc as isize + dc;
        let nr_i: isize = cr as isize + dr;
        proof {
            lemma_mul_unit(k as int + 1, dc as int);
            lemma_mul_unit(k as int + 1, dr as int);
            assert(col + (k + 1) * dc == nc_i as int && row + (k + 1) * dr == nr_i as int);
        }
        if nc_i < 0 || nc_i > 6 || nr_i < 0 || nr_i > 5 {
            proof {
                assert(cell_at_step(g, col, row, dc as int, dr as int, k + 1) is None);
                conclude_walk(g, col, row, dc as int, dr as int, t, k as int);
            }
            return k;
        }
        let npos = Position { col: FiniteIndex(nc_i as usize), row: FiniteIndex(nr_i as usize) };
        let cell = board.get(&npos);
        let same = match cell {
            Some(x) => x == t,
            None => false,
        };
        if !same {
            proof {
                assert(cell_at_step(g, col, row, dc as int, dr as int, k + 1) != Some(t));
                conclude_walk(g, col, row, dc as int, dr as int, t, k as int);
            }
            return k;
        }
        proof {
            assert(k < 6) by {
                if dc == 1 {
                    assert(nc_i as int == col + (k + 1));
                } else if dc == -1 {
                    assert(nc_i as int == col - (k + 1));
                } else if dr == 1 {
                    assert(nr_i as int == row + (k + 1));
                } else {
                    assert(nr_i as int == row - (k + 1));
                }
            }
            assert(cell_at_step(g, col, row, dc as int, dr as int, k + 1) == Some(t));
        }
        k = k + 1;
        cc = nc_i as usize;
        cr = nr_i as usize;
    }
}

/// At the end of a walk of `k` matching steps whose next cell does not
/// match, the forward count is exactly `k`.
proof fn conclude_walk(g: Grid, col: int, row: int, dc: int, dr: int, t: Token, k: int)
    requires
        0 <= k <= 6,
        forall|j: int| 1 <= j <= k ==> #[trigger] cell_at_step(g, col, row, dc, dr, j) == Some(t),
        k < 6 ==> cell_at_step(g, col, row, dc, dr, k + 1) != Some(t),
    ensures
        fwd_count(g, col, row, dc, dr, t, 6) == k,
{
    lemma_fwd_at_least(g, col, row, dc, dr, t, 6, k);
    lemma_fwd_cells(g, col, row, dc, dr, t, 6);
    let f = fwd_count(g, col, row, dc, dr, t, 6);
    if f > k {
        assert(cell_at_step(g, col, row, dc, dr, k + 1) == Some(t));
    }
}

/// The bit standing for a token, executably.
fn token_bit(t: &Token) -> (b: u64)
    ensures
        b as int == tok_bit(*t),
{
    match t {
        Token::Yellow => 0,
        Token::Red => 1,
    }
}

/// Computes the code of one column of a board, reading it cell by cell from
/// the bottom.
fn col_key_of<B: Board>(b: &B, c: usize) -> (byte: u64)
    requires
        b.inv(),
        c <= 6,
    ensures
        byte as int == col_code(b.grid()[c as int]),
{
    let ghost g = b.grid();
    let ghost s = g[c as int];
    proof {
        b.lemma_inv_wf();
    }
    let mut byte: u64 = 1;
    let mut rw: usize = 0;
    loop
        invariant
            b.inv(),
            g == b.grid(),
            s == g[c as int],
            grid_wf(g),
            c <= 6,
            rw <= s.len(),
            rw <= 6,
            byte as int == col_code(s.take(rw as int)),
            byte < 128,
        ensures
            byte as int == col_code(s),
            byte < 128,
        decreases 6 - rw,
    {
        if rw >= 6 {
            proof {
                assert(rw == s.len());
                lemma_col_code_take_all(s);
            }
            break ;
        }
        let cell = b.get(&Position { col: FiniteIndex(c), row: FiniteIndex(rw) });
        match cell {
            Some(x) => {
                proof {
                    lemma_col_code_take(s, rw as int);
                    lemma_col_code_range(s.take(rw as int + 1));
                    lemma_pow2n_le(s.take(rw as int + 1).len() as int + 1, 7);
                    assert(pow2n(7) == 128) by {
                        reveal_with_fuel(pow2n, 8);
                    }
                }
                byte = byte * 2 + token_bit(&x);
                rw = rw + 1;
            },
            None => {
                proof {
                    assert(rw == s.len());
                    lemma_col_code_take_all(s);
                }
                break ;
            },
        }
    }
    byte
}

/// Computes the canonical integer code of the grid a board stands for.
pub fn grid_key_of<B: Board>(b: &B) -> (k: u64)
    requires
        b.inv(),
    ensures
        k as int == grid_code(b.grid()),
{
    let ghost g = b.grid();
    proof {
        b.lemma_inv_wf();
    }
    let mut k: u64 = 0;
    let mut c: usize = 0;
    while c < 7
        invariant
            b.inv(),
            g == b.grid(),
            grid_wf(g),
            c <= 7,
            k as int == grid_code_n(g, c as int),
            0 <= (k as int) && (k as int) < pow128(c as int),
        decreases 7 - c,
    {
        let byte = col_key_of(b, c);
        proof {
            lemma_col_code_range(g[c as int]);
            lemma_pow2n_le(g[c as int].len() as int + 1, 7);
            assert(pow2n(7) == 128) by {
                reveal_with_fuel(pow2n, 8);
            }
            lemma_grid_code_range(g, c as int + 1);
            lemma_pow128_le(c as int + 1, 7);
            assert(pow128(7) == 0x2_0000_0000_0000) by {
                reveal_with_fuel(pow128, 8);
            }
        }
        k = k * 128 + byte;
        c = c + 1;
    }
    k
}

/// Computes the canonical integer code of the mirror image of the grid a
/// board stands for.
pub fn mirror_key_of<B: Board>(b: &B) -> (k: u64)
    requires
        b.inv(),
    ensures
        k as int == grid_code(mirror_grid(b.grid())),
{
    let ghost g = b.grid();
    let ghost m = mirror_grid(g);
    proof {
        b.lemma_inv_wf();
        lemma_mirror_wf(g);
    }
    let mut k: u64 = 0;
    let mut c: usize = 0;
    while c < 7
        invariant
            b.inv(),
            g == b.grid(),
            m == mirror_grid(g),
            grid_wf(g),
            grid_wf(m),
            c <= 7,
            k as int == grid_code_n(m, c as int),
            0 <= (k as int) && (k as int) < pow128(c as int),
        decreases 7 - c,
    {
        let byte = col_key_of(b, 6 - c);
        proof {
            assert(m[c as int] == g[6 - c as int]);
            lemma_col_code_range(m[c as int]);
            lemma_pow2n_le(m[c as int].len() as int + 1, 7);
            assert(pow2n(7) == 128) by {
                reveal_with_fuel(pow2n, 8);
            }
            lemma_grid_code_range(m, c as int + 1);
            lemma_pow128_le(c as int + 1, 7);
            assert(pow128(7) == 0x2_0000_0000_0000) by {
                reveal_with_fuel(pow128, 8);
            }
        }
        k = k * 128 + byte;
        c = c + 1;
    }
    k
}

} // verus!
