//! Specification of winning lines and of same-token runs through a cell.

use vstd::prelude::*;
use crate::basic::Token;
use crate::grid::{Grid, cell_is, grid_get};

verus! {

/// The four line directions, as (column step, row step):
/// horizontal, vertical, and the two diagonals.
pub open spec fn dir_ok(dc: int, dr: int) -> bool {
    ||| (dc == 1 && dr == 0)
    ||| (dc == 0 && dr == 1)
    ||| (dc == 1 && dr == 1)
    ||| (dc == 1 && dr == -1)
}

/// Four consecutive cells holding token `t`, starting at (sc, sr) and
/// stepping by (dc, dr).
pub open spec fn line4(g: Grid, sc: int, sr: int, dc: int, dr: int, t: Token) -> bool {
    &&& cell_is(g, sc, sr, t)
    &&& cell_is(g, sc + dc, sr + dr, t)
    &&& cell_is(g, sc + 2 * dc, sr + 2 * dr, t)
    &&& cell_is(g, sc + 3 * dc, sr + 3 * dr, t)
}

/// The cell (col, row) is one of the four cells of the line starting at
/// (sc, sr) with step (dc, dr).
pub open spec fn on_line(col: int, row: int, sc: int, sr: int, dc: int, dr: int) -> bool {
    ||| (col == sc && row == sr)
    ||| (col == sc + dc && row == sr + dr)
    ||| (col == sc + 2 * dc && row == sr + 2 * dr)
    ||| (col == sc + 3 * dc && row == sr + 3 * dr)
}

/// A win through the cell (col, row): four consecutive cells in some
/// direction all hold the token of that cell, and the cell is among them.
pub open spec fn wins_at(g: Grid, col: int, row: int) -> bool {
    exists|sc: int, sr: int, dc: int, dr: int, t: Token|
        #[trigger] line4(g, sc, sr, dc, dr, t) && dir_ok(dc, dr) && grid_get(g, col, row) == Some(
            t,
        ) && on_line(col, row, sc, sr, dc, dr)
}

/// The cell `j` steps away from (col, row) in direction (dc, dr).
pub open spec fn cell_at_step(g: Grid, col: int, row: int, dc: int, dr: int, j: int) -> Option<
    Token,
> {
    grid_get(g, col + j * dc, row + j * dr)
}

/// How many consecutive cells hold token `t` strictly beyond (col, row) in
/// direction (dc, dr), counting at most `fuel` cells.
pub open spec fn fwd_count(
    g: Grid,
    col: int,
    row: int,
    dc: int,
    dr: int,
    t: Token,
    fuel: nat,
) -> int
    decreases fuel,
{
    if fuel == 0 {
        0
    } else if cell_is(g, col + dc, row + dr, t) {
        1 + fwd_count(g, col + dc, row + dr, dc, dr, t, (fuel - 1) as nat)
    } else {
        0
    }
}

/// The length of the maximal run of cells holding token `t` through
/// (col, row) along direction (dc, dr), both ways.
pub open spec fn dir_run(g: Grid, col: int, row: int, dc: int, dr: int, t: Token) -> int {
    1 + fwd_count(g, col, row, dc, dr, t, 6) + fwd_count(g, col, row, -dc, -dr, t, 6)
}

/// How many of the four directions carry a run of exactly `n` through the
/// cell (col, row) holding `t`.
pub open spec fn runs_of_len(g: Grid, col: int, row: int, t: Token, n: int) -> int {
    (if dir_run(g, col, row, 1, 0, t) == n {
        1int
    } else {
        0int
    }) + (if dir_run(g, col, row, 0, 1, t) == n {
        1int
    } else {
        0int
    }) + (if dir_run(g, col, row, 1, 1, t) == n {
        1int
    } else {
        0int
    }) + (if dir_run(g, col, row, 1, -1, t) == n {
        1int
    } else {
        0int
    })
}

/// A forward count names only cells that really hold the token: every step
/// from 1 up to the count lands on `t`, and the count stops either at the
/// fuel bound or just before a cell that does not hold `t`.
pub proof fn lemma_fwd_cells(g: Grid, col: int, row: int, dc: int, dr: int, t: Token, fuel: nat)
    ensures
        0 <= fwd_count(g, col, row, dc, dr, t, fuel) <= fuel,
        forall|j: int|
            1 <= j <= fwd_count(g, col, row, dc, dr, t, fuel) ==> #[trigger] cell_at_step(
                g,
                col,
                row,
                dc,
                dr,
                j,
            ) == Some(t),
        fwd_count(g, col, row, dc, dr, t, fuel) < fuel ==> cell_at_step(
            g,
            col,
            row,
            dc,
            dr,
            fwd_count(g, col, row, dc, dr, t, fuel) + 1,
        ) != Some(t),
    decreases fuel,
{
    let f = fwd_count(g, col, row, dc, dr, t, fuel);
    if fuel == 0 {
    } else if cell_is(g, col + dc, row + dr, t) {
        lemma_fwd_cells(g, col + dc, row + dr, dc, dr, t, (fuel - 1) as nat);
        let f1 = fwd_count(g, col + dc, row + dr, dc, dr, t, (fuel - 1) as nat);
        assert forall|j: int| 1 <= j <= f implies #[trigger] cell_at_step(g, col, row, dc, dr, j)
            == Some(t) by {
            if j == 1 {
                assert(col + 1 * dc == col + dc) by (nonlinear_arith);
                assert(row + 1 * dr == row + dr) by (nonlinear_arith);
            } else {
                assert(cell_at_step(g, col + dc, row + dr, dc, dr, j - 1) == Some(t));
                assert(col + dc + (j - 1) * dc == col + j * dc) by (nonlinear_arith);
                assert(row + dr + (j - 1) * dr == row + j * dr) by (nonlinear_arith);
            }
        }
        if f < fuel {
            assert(cell_at_step(g, col + dc, row + dr, dc, dr, f1 + 1) != Some(t));
            assert(col + dc + (f1 + 1) * dc == col + (f + 1) * dc) by (nonlinear_arith)
                requires
                    f == f1 + 1,
            ;
            assert(row + dr + (f1 + 1) * dr == row + (f + 1) * dr) by (nonlinear_arith)
                requires
                    f == f1 + 1,
            ;
        }
    } else {
        assert(col + 1 * dc == col + dc) by (nonlinear_arith);
        assert(row + 1 * dr == row + dr) by (nonlinear_arith);
        assert(cell_at_step(g, col, row, dc, dr, 1) != Some(t));
    }
}

/// If every step from 1 to `i` lands on the token, the forward count is at
/// least `i`.
pub proof fn lemma_fwd_at_least(
    g: Grid,
    col: int,
    row: int,
    dc: int,
    dr: int,
    t: Token,
    fuel: nat,
    i: int,
)
    requires
        0 <= i <= fuel,
        forall|j: int| 1 <= j <= i ==> #[trigger] cell_at_step(g, col, row, dc, dr, j) == Some(t),
    ensures
        fwd_count(g, col, row, dc, dr, t, fuel) >= i,
    decreases fuel,
{
    if i > 0 {
        assert(cell_at_step(g, col, row, dc, dr, 1) == Some(t));
        assert(col + 1 * dc == col + dc) by (nonlinear_arith);
        assert(row + 1 * dr == row + dr) by (nonlinear_arith);
        assert(cell_is(g, col + dc, row + dr, t));
        assert forall|j: int| 1 <= j <= i - 1 implies #[trigger] cell_at_step(
            g,
            col + dc,
            row + dr,
            dc,
            dr,
            j,
        ) == Some(t) by {
            assert(cell_at_step(g, col, row, dc, dr, j + 1) == Some(t));
            assert(col + (j + 1) * dc == col + dc + j * dc) by (nonlinear_arith);
            assert(row + (j + 1) * dr == row + dr + j * dr) by (nonlinear_arith);
        }
        lemma_fwd_at_least(g, col + dc, row + dr, dc, dr, t, (fuel - 1) as nat, i - 1);
    } else {
        lemma_fwd_cells(g, col, row, dc, dr, t, fuel);
    }
}

/// Stepping backwards in direction (dc, dr) is stepping forwards in the
/// opposite direction.
pub proof fn lemma_step_negate(g: Grid, col: int, row: int, dc: int, dr: int, j: int)
    ensures
        cell_at_step(g, col, row, dc, dr, -j) == cell_at_step(g, col, row, -dc, -dr, j),
{
    assert(col + (-j) * dc == col + j * (-dc)) by (nonlinear_arith);
    assert(row + (-j) * dr == row + j * (-dr)) by (nonlinear_arith);
}

/// A run of four or more through a cell along one direction is the same
/// thing as a window of four consecutive same-token cells containing it.
pub proof fn lemma_window_iff_run(g: Grid, col: int, row: int, dc: int, dr: int, t: Token)
    requires
        grid_get(g, col, row) == Some(t),
    ensures
        (exists|sc: int, sr: int|
            #[trigger] line4(g, sc, sr, dc, dr, t) && on_line(col, row, sc, sr, dc, dr))
            <==> dir_run(g, col, row, dc, dr, t) >= 4,
{
    let f = fwd_count(g, col, row, dc, dr, t, 6);
    let b = fwd_count(g, col, row, -dc, -dr, t, 6);
    lemma_fwd_cells(g, col, row, dc, dr, t, 6);
    lemma_fwd_cells(g, col, row, -dc, -dr, t, 6);
    assert forall|j: int| -b <= j <= f implies cell_at_step(g, col, row, dc, dr, j) == Some(
        t,
    ) by {
        if j < 0 {
            lemma_step_negate(g, col, row, dc, dr, -j);
        } else if j == 0 {
            assert(col + 0 * dc == col) by (nonlinear_arith);
            assert(row + 0 * dr == row) by (nonlinear_arith);
        }
    }
    if 1 + f + b >= 4 {
        // choose a window start offset k with k <= 0 and k + 3 <= f
        let k: int = if b >= 3 {
            -3
        } else {
            -b
        };
        assert(k + 3 <= f);
        let sc = col + k * dc;
        let sr = row + k * dr;
        assert(cell_at_step(g, col, row, dc, dr, k + 0) == Some(t));
        assert(cell_at_step(g, col, row, dc, dr, k + 1) == Some(t));
        assert(cell_at_step(g, col, row, dc, dr, k + 2) == Some(t));
        assert(cell_at_step(g, col, row, dc, dr, k + 3) == Some(t));
        assert(col + (k + 0) * dc == sc && row + (k + 0) * dr == sr) by (nonlinear_arith)
            requires
                sc == col + k * dc && sr == row + k * dr,
        ;
        assert(col + (k + 1) * dc == sc + dc && row + (k + 1) * dr == sr + dr) by (nonlinear_arith)
            requires
                sc == col + k * dc && sr == row + k * dr,
        ;
        assert(col + (k + 2) * dc == sc + 2 * dc && row + (k + 2) * dr == sr + 2 * dr)
            by (nonlinear_arith)
            requires
                sc == col + k * dc && sr == row + k * dr,
        ;
        assert(col + (k + 3) * dc == sc + 3 * dc && row + (k + 3) * dr == sr + 3 * dr)
            by (nonlinear_arith)
            requires
                sc == col + k * dc && sr == row + k * dr,
        ;
        assert(line4(g, sc, sr, dc, dr, t));
        assert(col == sc + (-k) * dc && row == sr + (-k) * dr) by (nonlinear_arith)
            requires
                sc == col + k * dc && sr == row + k * dr,
        ;
        assert(on_line(col, row, sc, sr, dc, dr)) by {
            if k == 0 {
                assert(col == sc && row == sr);
            } else if k == -1 {
                assert(col == sc + dc && row == sr + dr);
            } else if k == -2 {
                assert(col == sc + 2 * dc && row == sr + 2 * dr);
            } else {
                assert(col == sc + 3 * dc && row == sr + 3 * dr);
            }
        }
    }
    if exists|sc: int, sr: int|
        #[trigger] line4(g, sc, sr, dc, dr, t) && on_line(col, row, sc, sr, dc, dr) {
        let (sc, sr) = choose|sc: int, sr: int|
            #[trigger] line4(g, sc, sr, dc, dr, t) && on_line(col, row, sc, sr, dc, dr);
        // (col, row) is at one of the four offsets of the window
        if col == sc && row == sr {
            lemma_run_from_window(g, col, row, dc, dr, t, 0);
        } else if col == sc + dc && row == sr + dr {
            lemma_run_from_window(g, col, row, dc, dr, t, 1);
        } else if col == sc + 2 * dc && row == sr + 2 * dr {
            lemma_run_from_window(g, col, row, dc, dr, t, 2);
        } else {
            lemma_run_from_window(g, col, row, dc, dr, t, 3);
        }
    }
}

/// From a window of four same-token cells in which (col, row) sits at offset
/// `j`, the run through (col, row) has length at least four.
proof fn lemma_run_from_window(g: Grid, col: int, row: int, dc: int, dr: int, t: Token, j: int)
    requires
        0 <= j < 4,
        exists|sc: int, sr: int|
            #[trigger] line4(g, sc, sr, dc, dr, t) && col == sc + j * dc && row == sr + j * dr,
    ensures
        dir_run(g, col, row, dc, dr, t) >= 4,
{
    let (sc, sr) = choose|sc: int, sr: int|
        #[trigger] line4(g, sc, sr, dc, dr, t) && col == sc + j * dc && row == sr + j * dr;
    assert forall|m: int| 0 <= m < 4 implies cell_at_step(g, sc, sr, dc, dr, m) == Some(t) by {
        if m == 0 {
            assert(sc + 0 * dc == sc && sr + 0 * dr == sr) by (nonlinear_arith);
        } else if m == 1 {
            assert(sc + 1 * dc == sc + dc && sr + 1 * dr == sr + dr) by (nonlinear_arith);
        } else if m == 2 {
        } else {
        }
    }
    // cells ahead of (col, row): offsets 1 ..= 3 - j
    assert forall|m: int| 1 <= m <= 3 - j implies #[trigger] cell_at_step(g, col, row, dc, dr, m)
        == Some(t) by {
        assert(cell_at_step(g, sc, sr, dc, dr, j + m) == Some(t));
        assert(col + m * dc == sc + (j + m) * dc) by (nonlinear_arith)
            requires
                col == sc + j * dc,
        ;
        assert(row + m * dr == sr + (j + m) * dr) by (nonlinear_arith)
            requires
                row == sr + j * dr,
        ;
    }
    lemma_fwd_at_least(g, col, row, dc, dr, t, 6, 3 - j);
    // cells behind (col, row): offsets 1 ..= j in the opposite direction
    assert forall|m: int| 1 <= m <= j implies #[trigger] cell_at_step(g, col, row, -dc, -dr, m)
        == Some(t) by {
        assert(cell_at_step(g, sc, sr, dc, dr, j - m) == Some(t));
        lemma_step_negate(g, col, row, dc, dr, m);
        assert(col + (-m) * dc == sc + (j - m) * dc) by (nonlinear_arith)
            requires
                col == sc + j * dc,
        ;
        assert(row + (-m) * dr == sr + (j - m) * dr) by (nonlinear_arith)
            requires
                row == sr + j * dr,
        ;
    }
    lemma_fwd_at_least(g, col, row, -dc, -dr, t, 6, j);
    lemma_fwd_cells(g, col, row, dc, dr, t, 6);
    lemma_fwd_cells(g, col, row, -dc, -dr, t, 6);
}

/// A win through a cell is a run of four or more in one of the four
/// directions.
pub proof fn lemma_wins_iff_runs(g: Grid, col: int, row: int, t: Token)
    requires
        grid_get(g, col, row) == Some(t),
    ensures
        wins_at(g, col, row) <==> (dir_run(g, col, row, 1, 0, t) >= 4 || dir_run(
            g,
            col,
            row,
            0,
            1,
            t,
        ) >= 4 || dir_run(g, col, row, 1, 1, t) >= 4 || dir_run(g, col, row, 1, -1, t) >= 4),
{
    lemma_window_iff_run(g, col, row, 1, 0, t);
    lemma_window_iff_run(g, col, row, 0, 1, t);
    lemma_window_iff_run(g, col, row, 1, 1, t);
    lemma_window_iff_run(g, col, row, 1, -1, t);
    if wins_at(g, col, row) {
        let (sc, sr, dc, dr, t2) = choose|sc: int, sr: int, dc: int, dr: int, t2: Token|
            #[trigger] line4(g, sc, sr, dc, dr, t2) && dir_ok(dc, dr) && grid_get(g, col, row)
                == Some(t2) && on_line(col, row, sc, sr, dc, dr);
        assert(t2 == t);
    }
}

/// The run length through a cell in one direction, capped at four: what the
/// per-direction scan of the threat counter reports.
pub open spec fn capped_run(g: Grid, col: int, row: int, dc: int, dr: int, t: Token) -> int {
    let n = dir_run(g, col, row, dc, dr, t);
    if n >= 4 {
        4
    } else {
        n
    }
}

} // verus!
