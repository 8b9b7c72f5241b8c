//! The game-theoretic meaning of a bounded search: which player, if any,
//! can force a win within a given depth.

use vstd::prelude::*;
use crate::basic::Token;
use crate::grid::{
    Grid, col_free, grid_get, grid_place, grid_wf, lemma_mirror_get,
    lemma_mirror_mirror, lemma_mirror_place, lemma_mirror_wf, lemma_place_wf, mirror_grid,
};
use crate::wins::{dir_ok, line4, on_line, wins_at};

verus! {

/// Placing `t` in column `c` is legal and immediately completes a line of
/// four through the landing cell.
pub open spec fn winning_col(g: Grid, c: int, t: Token) -> bool {
    col_free(g, c) && wins_at(grid_place(g, c, t), c, g[c].len() as int)
}

/// The exact outcome of the bounded adversarial search from grid `g` with
/// `depth` plies remaining and `curr` to move:
/// - None when the horizon is exhausted or neither side can force a win;
/// - Some(curr) when the mover has an immediately winning column or a column
///   whose child position the mover still wins;
/// - Some(curr's opponent) when every legal move loses (also when there is no
///   legal move at all).
pub open spec fn spec_minimax(g: Grid, depth: nat, curr: Token) -> Option<Token>
    decreases depth,
{
    if depth == 0 {
        None
    } else if exists|c: int| #[trigger] winning_col(g, c, curr) {
        Some(curr)
    } else if exists|c: int|
        #![trigger grid_place(g, c, curr)]
        col_free(g, c) && spec_minimax(grid_place(g, c, curr), (depth - 1) as nat, curr.spec_next())
            == Some(curr) {
        Some(curr)
    } else if forall|c: int|
        #![trigger grid_place(g, c, curr)]
        col_free(g, c) ==> spec_minimax(grid_place(g, c, curr), (depth - 1) as nat, curr.spec_next())
            == Some(curr.spec_next()) {
        Some(curr.spec_next())
    } else {
        None
    }
}

/// The player to move after `count` tokens have been placed, when `p0` moves
/// on even counts.
pub open spec fn turn_of(p0: Token, count: int) -> Token {
    if count % 2 == 0 {
        p0
    } else {
        p0.spec_next()
    }
}

/// The bounded outcome is a function of the position, depth and mover
/// alone: any two solvers that return it — the value-duplication and the
/// in-place variants, any column enumeration order, with or without the
/// symmetry reducer or a cache — return the same outcome.
pub proof fn lemma_solvers_agree(
    g: Grid,
    depth: nat,
    curr: Token,
    r1: Option<Token>,
    r2: Option<Token>,
)
    requires
        r1 == spec_minimax(g, depth, curr),
        r2 == spec_minimax(g, depth, curr),
    ensures
        r1 == r2,
{
}

/// A win through a cell of the mirror image is a win through the flipped
/// cell of the original grid.
pub proof fn lemma_mirror_wins(g: Grid, col: int, row: int)
    requires
        grid_wf(g),
        0 <= col < 7,
    ensures
        wins_at(mirror_grid(g), col, row) == wins_at(g, 6 - col, row),
{
    lemma_mirror_wf(g);
    lemma_mirror_mirror(g);
    if wins_at(mirror_grid(g), col, row) {
        lemma_mirror_wins_fwd(g, col, row);
    }
    if wins_at(g, 6 - col, row) {
        lemma_mirror_wins_fwd(mirror_grid(g), 6 - col, row);
    }
}

/// One direction of the mirroring argument: a win in the mirror image maps
/// to a win in the original.
proof fn lemma_mirror_wins_fwd(g: Grid, col: int, row: int)
    requires
        grid_wf(g),
        0 <= col < 7,
        wins_at(mirror_grid(g), col, row),
    ensures
        wins_at(g, 6 - col, row),
{
    let m = mirror_grid(g);
    let (sc, sr, dc, dr, t) = choose|sc: int, sr: int, dc: int, dr: int, t: Token|
        #[trigger] line4(m, sc, sr, dc, dr, t) && dir_ok(dc, dr) && grid_get(m, col, row) == Some(
            t,
        ) && on_line(col, row, sc, sr, dc, dr);
    lemma_mirror_get(g, col, row);
    assert(grid_get(g, 6 - col, row) == Some(t));
    // each of the four cells of the line is in range, so it mirrors cleanly
    lemma_mirror_get(g, sc, sr);
    lemma_mirror_get(g, sc + dc, sr + dr);
    lemma_mirror_get(g, sc + 2 * dc, sr + 2 * dr);
    lemma_mirror_get(g, sc + 3 * dc, sr + 3 * dr);
    if dc == 0 {
        // a vertical line stays vertical in the flipped column
        let sc2 = 6 - sc;
        assert(line4(g, sc2, sr, dc, dr, t));
        assert(on_line(6 - col, row, sc2, sr, dc, dr));
        assert(wins_at(g, 6 - col, row));
    } else {
        // a horizontal or diagonal line reverses: it starts at the mirrored
        // far end and its row step flips sign
        let sc2 = 6 - sc - 3;
        let sr2 = sr + 3 * dr;
        assert(line4(g, sc2, sr2, 1, -dr, t)) by {
            assert(grid_get(g, sc2, sr2) == grid_get(m, sc + 3 * dc, sr + 3 * dr));
            assert(grid_get(g, sc2 + 1, sr2 + -dr) == grid_get(m, sc + 2 * dc, sr + 2 * dr));
            assert(grid_get(g, sc2 + 2, sr2 + 2 * -dr) == grid_get(m, sc + dc, sr + dr));
            assert(grid_get(g, sc2 + 3, sr2 + 3 * -dr) == grid_get(m, sc, sr));
        }
        assert(dir_ok(1, -dr));
        assert(on_line(6 - col, row, sc2, sr2, 1, -dr)) by {
            if col == sc && row == sr {
                assert(6 - col == sc2 + 3 && row == sr2 + 3 * -dr);
            } else if col == sc + dc && row == sr + dr {
                assert(6 - col == sc2 + 2 && row == sr2 + 2 * -dr);
            } else if col == sc + 2 * dc && row == sr + 2 * dr {
                assert(6 - col == sc2 + 1 && row == sr2 + -dr);
            } else {
                assert(6 - col == sc2 && row == sr2);
            }
        }
        assert(wins_at(g, 6 - col, row));
    }
}

/// Mirror invariance of the search outcome: a position and its left-right
/// mirror image have the same bounded minimax result, at every depth and for
/// either player to move.
pub proof fn lemma_mirror_minimax(g: Grid, depth: nat, curr: Token)
    requires
        grid_wf(g),
    ensures
        spec_minimax(mirror_grid(g), depth, curr) == spec_minimax(g, depth, curr),
    decreases depth, 1int,
{
    let m = mirror_grid(g);
    lemma_mirror_wf(g);
    if depth == 0 {
    } else {
        let next = curr.spec_next();
        // the three branch conditions agree between g and its mirror
        if exists|c: int| #[trigger] winning_col(m, c, curr) {
            let c = choose|c: int| #[trigger] winning_col(m, c, curr);
            lemma_mirror_child(g, depth, curr, c);
            assert(winning_col(g, 6 - c, curr));
        }
        if exists|c: int| #[trigger] winning_col(g, c, curr) {
            let c = choose|c: int| #[trigger] winning_col(g, c, curr);
            lemma_mirror_child(g, depth, curr, 6 - c);
            assert(winning_col(m, 6 - c, curr));
        }
        if exists|c: int|
            #![trigger grid_place(m, c, curr)]
            col_free(m, c) && spec_minimax(grid_place(m, c, curr), (depth - 1) as nat, next)
                == Some(curr) {
            let c = choose|c: int|
                #![trigger grid_place(m, c, curr)]
                col_free(m, c) && spec_minimax(grid_place(m, c, curr), (depth - 1) as nat, next)
                    == Some(curr);
            lemma_mirror_child(g, depth, curr, c);
            assert(col_free(g, 6 - c) && spec_minimax(
                grid_place(g, 6 - c, curr),
                (depth - 1) as nat,
                next,
            ) == Some(curr));
        }
        if exists|c: int|
            #![trigger grid_place(g, c, curr)]
            col_free(g, c) && spec_minimax(grid_place(g, c, curr), (depth - 1) as nat, next)
                == Some(curr) {
            let c = choose|c: int|
                #![trigger grid_place(g, c, curr)]
                col_free(g, c) && spec_minimax(grid_place(g, c, curr), (depth - 1) as nat, next)
                    == Some(curr);
            lemma_mirror_child(g, depth, curr, 6 - c);
            assert(col_free(m, 6 - c) && spec_minimax(
                grid_place(m, 6 - c, curr),
                (depth - 1) as nat,
                next,
            ) == Some(curr));
        }
        if forall|c: int|
            #![trigger grid_place(g, c, curr)]
            col_free(g, c) ==> spec_minimax(grid_place(g, c, curr), (depth - 1) as nat, next)
                == Some(next) {
            assert forall|c: int|
                #![trigger grid_place(m, c, curr)]
                col_free(m, c) implies spec_minimax(
                grid_place(m, c, curr),
                (depth - 1) as nat,
                next,
            ) == Some(next) by {
                lemma_mirror_child(g, depth, curr, c);
                assert(col_free(g, 6 - c));
                assert(spec_minimax(grid_place(g, 6 - c, curr), (depth - 1) as nat, next)
                    == Some(next));
            }
        }
        if forall|c: int|
            #![trigger grid_place(m, c, curr)]
            col_free(m, c) ==> spec_minimax(grid_place(m, c, curr), (depth - 1) as nat, next)
                == Some(next) {
            assert forall|c: int|
                #![trigger grid_place(g, c, curr)]
                col_free(g, c) implies spec_minimax(
                grid_place(g, c, curr),
                (depth - 1) as nat,
                next,
            ) == Some(next) by {
                lemma_mirror_child(g, depth, curr, 6 - c);
                assert(col_free(m, 6 - c));
                assert(spec_minimax(grid_place(m, 6 - c, curr), (depth - 1) as nat, next)
                    == Some(next));
            }
        }
    }
}

/// Relates one column of the mirror image to the flipped column of the
/// original: same legality, same immediate win, same child outcome.
pub proof fn lemma_mirror_child(g: Grid, depth: nat, curr: Token, c: int)
    requires
        grid_wf(g),
        depth > 0,
        0 <= c < 7,
    ensures
        col_free(mirror_grid(g), c) == col_free(g, 6 - c),
        winning_col(mirror_grid(g), c, curr) == winning_col(g, 6 - c, curr),
        col_free(g, 6 - c) ==> spec_minimax(
            grid_place(mirror_grid(g), c, curr),
            (depth - 1) as nat,
            curr.spec_next(),
        ) == spec_minimax(grid_place(g, 6 - c, curr), (depth - 1) as nat, curr.spec_next()),
    decreases depth, 0int,
{
    let m = mirror_grid(g);
    lemma_mirror_wf(g);
    assert(m[c] == g[6 - c]);
    if col_free(g, 6 - c) {
        lemma_mirror_place(g, c, curr);
        lemma_place_wf(g, 6 - c, curr);
        lemma_mirror_wins(grid_place(g, 6 - c, curr), c, g[6 - c].len() as int);
        assert(grid_place(g, 6 - c, curr)[6 - c].len() == g[6 - c].len() + 1);
        lemma_mirror_minimax(grid_place(g, 6 - c, curr), (depth - 1) as nat, curr.spec_next());
    }
}

} // verus!
