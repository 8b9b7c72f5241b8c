//! Solvers that try the centre columns first: central plays resolve
//! decisiveness fastest, maximising early short-circuits. The outcome is
//! provably the same as for any other column order.

use vstd::prelude::*;
use crate::basic::Token;
use crate::board::{won_at, Board, CloneBoard, MutBoard};
use crate::column;
use crate::game::{spec_minimax, winning_col};
use crate::grid::{
    col_free, grid_place, grid_wf, lemma_place_get, lemma_place_unplace, lemma_place_wf,
};

verus! {

/// Exhaustive bounded search over cheap copies, trying the centre columns
/// first. Returns the player who can force a win within `depth` plies, if
/// any: the same outcome as the plain column order, only reached faster.
pub fn minimax_sneaky_copy<B: CloneBoard>(board: &B, depth: usize, curr: Token) -> (r: Option<
    Token,
>)
    requires
        board.inv(),
    ensures
        r == spec_minimax(board.grid(), depth as nat, curr),
    decreases depth,
{
    if depth == 0 {
        return None;
    }
    let ghost g0 = board.grid();
    let ghost d1 = (depth - 1) as nat;
    let ghost next = curr.spec_next();
    proof {
        board.lemma_inv_wf();
    }
    let order: [usize; 7] = [3, 2, 4, 1, 5, 0, 6];
    let mut losing = true;
    let mut k: usize = 0;
    while k < 7
        invariant
            board.inv(),
            g0 == board.grid(),
            grid_wf(g0),
            1 <= depth,
            d1 == (depth - 1) as nat,
            next == curr.spec_next(),
            k <= 7,
            order@ =~= seq![3usize, 2, 4, 1, 5, 0, 6],
            forall|m: int|
                0 <= m < k ==> !winning_col(g0, #[trigger] order@[m] as int, curr),
            forall|m: int|
                0 <= m < k ==> !(col_free(g0, #[trigger] order@[m] as int) && spec_minimax(
                    grid_place(g0, order@[m] as int, curr),
                    d1,
                    next,
                ) == Some(curr)),
            losing <==> (forall|m: int|
                0 <= m < k && col_free(g0, #[trigger] order@[m] as int) ==> spec_minimax(
                    grid_place(g0, order@[m] as int, curr),
                    d1,
                    next,
                ) == Some(next)),
        decreases 7 - k,
    {
        let c = order[k];
        let colx = column::Idx::raw(c);
        match board.clone_and_place(&colx, &curr) {
            Some(bp) => {
                let (next_board, cell) = bp;
                proof {
                    assert(col_free(g0, c as int));
                    lemma_place_wf(g0, c as int, curr);
                    lemma_place_get(g0, c as int, curr);
                }
                if won_at(&next_board, &cell) {
                    proof {
                        assert(winning_col(g0, c as int, curr));
                        assert(spec_minimax(g0, depth as nat, curr) == Some(curr));
                    }
                    return Some(curr);
                }
                let sub = minimax_sneaky_copy(&next_board, depth - 1, curr.next());
                match sub {
                    Some(w) => {
                        if w == curr {
                            proof {
                                assert(col_free(g0, c as int) && spec_minimax(
                                    grid_place(g0, c as int, curr),
                                    d1,
                                    next,
                                ) == Some(curr));
                                assert(spec_minimax(g0, depth as nat, curr) == Some(curr));
                            }
                            return Some(curr);
                        }
                        proof {
                            assert(w == next);
                            assert(!winning_col(g0, c as int, curr));
                        }
                    },
                    None => {
                        losing = false;
                        proof {
                            assert(!winning_col(g0, c as int, curr));
                            assert(col_free(g0, c as int) && spec_minimax(
                                grid_place(g0, c as int, curr),
                                d1,
                                next,
                            ) != Some(next));
                        }
                    },
                }
            },
            None => {
                proof {
                    assert(!col_free(g0, c as int));
                }
            },
        }
        k = k + 1;
    }
    proof {
        conclude_order(g0, d1, depth as nat, next, curr, order@, losing);
    }
    if losing {
        Some(curr.next())
    } else {
        None
    }
}

/// Exhaustive bounded search mutating the board in place, trying the centre
/// columns first; every placement is unplaced again on every exit path.
/// Returns the player who can force a win within `depth` plies, if any.
pub fn minimax_sneaky_mut<B: MutBoard>(board: &mut B, depth: usize, curr: Token) -> (r: Option<
    Token,
>)
    requires
        old(board).inv(),
    ensures
        final(board).inv(),
        final(board).grid() == old(board).grid(),
        r == spec_minimax(old(board).grid(), depth as nat, curr),
    decreases depth,
{
    if depth == 0 {
        return None;
    }
    let ghost g0 = board.grid();
    let ghost d1 = (depth - 1) as nat;
    let ghost next = curr.spec_next();
    proof {
        board.lemma_inv_wf();
    }
    let order: [usize; 7] = [3, 2, 4, 1, 5, 0, 6];
    let mut losing = true;
    let mut k: usize = 0;
    while k < 7
        invariant
            board.inv(),
            board.grid() == g0,
            g0 == old(board).grid(),
            grid_wf(g0),
            1 <= depth,
            d1 == (depth - 1) as nat,
            next == curr.spec_next(),
            k <= 7,
            order@ =~= seq![3usize, 2, 4, 1, 5, 0, 6],
            forall|m: int|
                0 <= m < k ==> !winning_col(g0, #[trigger] order@[m] as int, curr),
            forall|m: int|
                0 <= m < k ==> !(col_free(g0, #[trigger] order@[m] as int) && spec_minimax(
                    grid_place(g0, order@[m] as int, curr),
                    d1,
                    next,
                ) == Some(curr)),
            losing <==> (forall|m: int|
                0 <= m < k && col_free(g0, #[trigger] order@[m] as int) ==> spec_minimax(
                    grid_place(g0, order@[m] as int, curr),
                    d1,
                    next,
                ) == Some(next)),
        decreases 7 - k,
    {
        let c = order[k];
        let colx = column::Idx::raw(c);
        if board.can_place(&colx) {
            let placed = board.place(&colx, &curr);
            match placed {
                Some(pos) => {
                    proof {
                        assert(col_free(g0, c as int));
                        lemma_place_wf(g0, c as int, curr);
                        lemma_place_get(g0, c as int, curr);
                        assert(pos.row.0 == g0[c as int].len());
                    }
                    if won_at(board, &pos) {
                        board.unplace(&pos);
                        proof {
                            lemma_place_unplace(g0, c as int, curr);
                            assert(winning_col(g0, c as int, curr));
                            assert(spec_minimax(g0, depth as nat, curr) == Some(curr));
                        }
                        return Some(curr);
                    }
                    let sub = minimax_sneaky_mut(board, depth - 1, curr.next());
                    board.unplace(&pos);
                    proof {
                        lemma_place_unplace(g0, c as int, curr);
                        assert(sub == spec_minimax(grid_place(g0, c as int, curr), d1, next));
                    }
                    match sub {
                        Some(w) => {
                            if w == curr {
                                proof {
                                    assert(col_free(g0, c as int) && spec_minimax(
                                        grid_place(g0, c as int, curr),
                                        d1,
                                        next,
                                    ) == Some(curr));
                                    assert(spec_minimax(g0, depth as nat, curr) == Some(curr));
                                }
                                return Some(curr);
                            }
                            proof {
                                assert(w == next);
                                assert(!winning_col(g0, c as int, curr));
                            }
                        },
                        None => {
                            losing = false;
                            proof {
                                assert(!winning_col(g0, c as int, curr));
                                assert(col_free(g0, c as int) && spec_minimax(
                                    grid_place(g0, c as int, curr),
                                    d1,
                                    next,
                                ) != Some(next));
                            }
                        },
                    }
                },
                None => {
                    proof {
                        assert(false);
                    }
                },
            }
        } else {
            proof {
                assert(!col_free(g0, c as int));
            }
        }
        k = k + 1;
    }
    proof {
        conclude_order(g0, d1, depth as nat, next, curr, order@, losing);
    }
    if losing {
        Some(curr.next())
    } else {
        None
    }
}

/// After every column of a full enumeration order has been examined with
/// neither an immediate win nor a winning child for the mover, the node's
/// outcome is the opponent exactly when every legal move lost.
proof fn conclude_order(
    g0: crate::grid::Grid,
    d1: nat,
    depth: nat,
    next: Token,
    curr: Token,
    order: Seq<usize>,
    losing: bool,
)
    requires
        grid_wf(g0),
        depth >= 1,
        d1 == (depth - 1) as nat,
        next == curr.spec_next(),
        order =~= seq![3usize, 2, 4, 1, 5, 0, 6],
        forall|m: int| 0 <= m < 7 ==> !winning_col(g0, #[trigger] order[m] as int, curr),
        forall|m: int|
            0 <= m < 7 ==> !(col_free(g0, #[trigger] order[m] as int) && spec_minimax(
                grid_place(g0, order[m] as int, curr),
                d1,
                next,
            ) == Some(curr)),
        losing <==> (forall|m: int|
            0 <= m < 7 && col_free(g0, #[trigger] order[m] as int) ==> spec_minimax(
                grid_place(g0, order[m] as int, curr),
                d1,
                next,
            ) == Some(next)),
    ensures
        spec_minimax(g0, depth, curr) == (if losing {
            Some(next)
        } else {
            None::<Token>
        }),
{
    assert(order[0] == 3 && order[1] == 2 && order[2] == 4 && order[3] == 1 && order[4] == 5
        && order[5] == 0 && order[6] == 6);
    assert forall|c: int| 0 <= c < 7 implies !(#[trigger] winning_col(g0, c, curr)) && !(col_free(
        g0,
        c,
    ) && spec_minimax(#[trigger] grid_place(g0, c, curr), d1, next) == Some(curr)) by {
        let m: int = if c == 0 {
            5
        } else if c == 1 {
            3
        } else if c == 2 {
            1
        } else if c == 3 {
            0
        } else if c == 4 {
            2
        } else if c == 5 {
            4
        } else {
            6
        };
        assert(order[m] as int == c);
        assert(!winning_col(g0, order[m] as int, curr));
        assert(!(col_free(g0, order[m] as int) && spec_minimax(
            grid_place(g0, order[m] as int, curr),
            d1,
            next,
        ) == Some(curr)));
    }
    assert(!exists|c: int| winning_col(g0, c, curr)) by {
        if exists|c: int| winning_col(g0, c, curr) {
            let c = choose|c: int| winning_col(g0, c, curr);
            assert(0 <= c < 7);
        }
    }
    assert(!exists|c: int|
        #![trigger grid_place(g0, c, curr)]
        col_free(g0, c) && spec_minimax(grid_place(g0, c, curr), d1, next) == Some(curr)) by {
        if exists|c: int|
            #![trigger grid_place(g0, c, curr)]
            col_free(g0, c) && spec_minimax(grid_place(g0, c, curr), d1, next) == Some(curr) {
            let c = choose|c: int|
                #![trigger grid_place(g0, c, curr)]
                col_free(g0, c) && spec_minimax(grid_place(g0, c, curr), d1, next) == Some(curr);
            assert(0 <= c < 7);
        }
    }
    if losing {
        assert forall|c: int|
            #![trigger grid_place(g0, c, curr)]
            col_free(g0, c) implies spec_minimax(grid_place(g0, c, curr), d1, next) == Some(
            next,
        ) by {
            let m: int = if c == 0 {
                5
            } else if c == 1 {
                3
            } else if c == 2 {
                1
            } else if c == 3 {
                0
            } else if c == 4 {
                2
            } else if c == 5 {
                4
            } else {
                6
            };
            assert(order[m] as int == c);
            assert(col_free(g0, order[m] as int));
            assert(spec_minimax(grid_place(g0, order[m] as int, curr), d1, next) == Some(next));
        }
        assert(spec_minimax(g0, depth, curr) == Some(next));
    } else {
        let m = choose|m: int|
            0 <= m < 7 && col_free(g0, #[trigger] order[m] as int) && spec_minimax(
                grid_place(g0, order[m] as int, curr),
                d1,
                next,
            ) != Some(next);
        assert(!(forall|c: int|
            #![trigger grid_place(g0, c, curr)]
            col_free(g0, c) ==> spec_minimax(grid_place(g0, c, curr), d1, next) == Some(next)))
            by {
            assert(col_free(g0, order[m] as int) && spec_minimax(
                grid_place(g0, order[m] as int, curr),
                d1,
                next,
            ) != Some(next));
        }
        assert(spec_minimax(g0, depth, curr) is None);
    }
}

} // verus!
