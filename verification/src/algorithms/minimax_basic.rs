//! The plain solvers: one mutating a single board in place, one working on
//! cheap copies. Both return exactly the bounded minimax outcome.

use vstd::prelude::*;
use crate::basic::Token;
use crate::board::{won_at, Board, CloneBoard, MutBoard};
use crate::column;
use crate::game::{spec_minimax, winning_col};
use crate::grid::{
    col_free, grid_place, grid_wf, lemma_place_get, lemma_place_unplace,
    lemma_place_wf,
};

verus! {

/// Exhaustive bounded search, mutating the board in place: every placement
/// is unplaced again on every exit path, so the board leaves exactly as it
/// came. Returns the player who can force a win within `depth` plies, if
/// any.
pub fn minimax_mut<B: MutBoard>(board: &mut B, depth: usize, curr: Token) -> (r: Option<Token>)
    requires
        old(board).inv(),
    ensures
        final(board).inv(),
        final(board).grid() == old(board).grid(),
        r == spec_minimax(old(board).grid(), depth as nat, curr),
    decreases depth,
{
    if depth == 0 {
        return None;
    }
    let ghost g0 = board.grid();
    let ghost d1 = (depth - 1) as nat;
    let ghost next = curr.spec_next();
    proof {
        board.lemma_inv_wf();
    }
    let mut losing = true;
    let mut i: usize = 0;
    while i < 7
        invariant
            board.inv(),
            board.grid() == g0,
            g0 == old(board).grid(),
            grid_wf(g0),
            1 <= depth,
            d1 == (depth - 1) as nat,
            next == curr.spec_next(),
            i <= 7,
            forall|c: int| 0 <= c < i ==> !winning_col(g0, c, curr),
            forall|c: int|
                #![trigger grid_place(g0, c, curr)]
                0 <= c < i ==> !(col_free(g0, c) && spec_minimax(grid_place(g0, c, curr), d1, next)
                    == Some(curr)),
            losing <==> (forall|c: int|
                #![trigger grid_place(g0, c, curr)]
                0 <= c < i && col_free(g0, c) ==> spec_minimax(grid_place(g0, c, curr), d1, next)
                    == Some(next)),
        decreases 7 - i,
    {
        let colx = column::Idx::raw(i);
        let placed = board.place(&colx, &curr);
        match placed {
            Some(pos) => {
                let ghost g1 = grid_place(g0, i as int, curr);
                proof {
                    assert(col_free(g0, i as int));
                    lemma_place_wf(g0, i as int, curr);
                    lemma_place_get(g0, i as int, curr);
                    assert(pos.row.0 == g0[i as int].len());
                }
                if won_at(board, &pos) {
                    board.unplace(&pos);
                    proof {
                        lemma_place_unplace(g0, i as int, curr);
                        assert(winning_col(g0, i as int, curr));
                        assert(spec_minimax(g0, depth as nat, curr) == Some(curr));
                    }
                    return Some(curr);
                }
                let sub = minimax_mut(board, depth - 1, curr.next());
                board.unplace(&pos);
                proof {
                    lemma_place_unplace(g0, i as int, curr);
                    assert(sub == spec_minimax(grid_place(g0, i as int, curr), d1, next));
                }
                match sub {
                    Some(w) => {
                        if w == curr {
                            proof {
                                assert(col_free(g0, i as int) && spec_minimax(
                                    grid_place(g0, i as int, curr),
                                    d1,
                                    next,
                                ) == Some(curr));
                                assert(spec_minimax(g0, depth as nat, curr) == Some(curr));
                            }
                            return Some(curr);
                        }
                        proof {
                            assert(w == next);
                            assert(!winning_col(g0, i as int, curr));
                        }
                    },
                    None => {
                        losing = false;
                        proof {
                            assert(!winning_col(g0, i as int, curr));
                            assert(col_free(g0, i as int) && spec_minimax(
                                grid_place(g0, i as int, curr),
                                d1,
                                next,
                            ) != Some(next));
                        }
                    },
                }
            },
            None => {
                proof {
                    assert(!col_free(g0, i as int));
                }
            },
        }
        i = i + 1;
    }
    proof {
        assert(!exists|c: int| winning_col(g0, c, curr)) by {
            if exists|c: int| winning_col(g0, c, curr) {
                let c = choose|c: int| winning_col(g0, c, curr);
                assert(0 <= c < 7);
            }
        }
        assert(!exists|c: int|
            #![trigger grid_place(g0, c, curr)]
            col_free(g0, c) && spec_minimax(grid_place(g0, c, curr), d1, next) == Some(curr)) by {
            if exists|c: int|
                #![trigger grid_place(g0, c, curr)]
                col_free(g0, c) && spec_minimax(grid_place(g0, c, curr), d1, next) == Some(curr) {
                let c = choose|c: int|
                    #![trigger grid_place(g0, c, curr)]
                    col_free(g0, c) && spec_minimax(grid_place(g0, c, curr), d1, next) == Some(
                        curr,
                    );
                assert(0 <= c < 7);
            }
        }
    }
    if losing {
        proof {
            assert forall|c: int|
                #![trigger grid_place(g0, c, curr)]
                col_free(g0, c) implies spec_minimax(grid_place(g0, c, curr), d1, next) == Some(
                next,
            ) by {
                assert(0 <= c < 7);
            }
            assert(spec_minimax(g0, depth as nat, curr) == Some(next));
        }
        Some(curr.next())
    } else {
        proof {
            assert(!(forall|c: int|
                #![trigger grid_place(g0, c, curr)]
                col_free(g0, c) ==> spec_minimax(grid_place(g0, c, curr), d1, next) == Some(
                    next,
                )));
            assert(spec_minimax(g0, depth as nat, curr) is None);
        }
        None
    }
}

/// Exhaustive bounded search over cheap copies: children are generated by
/// duplicating the board and mutating the copy, never the parent. Returns
/// the player who can force a win within `depth` plies, if any.
pub fn minimax_clone<B: CloneBoard>(board: B, depth: usize, curr: Token) -> (r: Option<Token>)
    requires
        board.inv(),
    ensures
        r == spec_minimax(board.grid(), depth as nat, curr),
    decreases depth,
{
    if depth == 0 {
        return None;
    }
    let ghost g0 = board.grid();
    let ghost d1 = (depth - 1) as nat;
    let ghost next = curr.spec_next();
    proof {
        board.lemma_inv_wf();
    }
    let mut losing = true;
    let mut i: usize = 0;
    while i < 7
        invariant
            board.inv(),
            g0 == board.grid(),
            grid_wf(g0),
            1 <= depth,
            d1 == (depth - 1) as nat,
            next == curr.spec_next(),
            i <= 7,
            forall|c: int| 0 <= c < i ==> !winning_col(g0, c, curr),
            forall|c: int|
                #![trigger grid_place(g0, c, curr)]
                0 <= c < i ==> !(col_free(g0, c) && spec_minimax(grid_place(g0, c, curr), d1, next)
                    == Some(curr)),
            losing <==> (forall|c: int|
                #![trigger grid_place(g0, c, curr)]
                0 <= c < i && col_free(g0, c) ==> spec_minimax(grid_place(g0, c, curr), d1, next)
                    == Some(next)),
        decreases 7 - i,
    {
        let colx = column::Idx::raw(i);
        match board.clone_and_place(&colx, &curr) {
            Some(bp) => {
                let (next_board, cell) = bp;
                proof {
                    assert(col_free(g0, i as int));
                    lemma_place_wf(g0, i as int, curr);
                    lemma_place_get(g0, i as int, curr);
                }
                if won_at(&next_board, &cell) {
                    proof {
                        assert(winning_col(g0, i as int, curr));
                        assert(spec_minimax(g0, depth as nat, curr) == Some(curr));
                    }
                    return Some(curr);
                }
                let sub = minimax_clone(next_board, depth - 1, curr.next());
                match sub {
                    Some(w) => {
                        if w == curr {
                            proof {
                                assert(col_free(g0, i as int) && spec_minimax(
                                    grid_place(g0, i as int, curr),
                                    d1,
                                    next,
                                ) == Some(curr));
                                assert(spec_minimax(g0, depth as nat, curr) == Some(curr));
                            }
                            return Some(curr);
                        }
                        proof {
                            assert(w == next);
                            assert(!winning_col(g0, i as int, curr));
                        }
                    },
                    None => {
                        losing = false;
                        proof {
                            assert(!winning_col(g0, i as int, curr));
                            assert(col_free(g0, i as int) && spec_minimax(
                                grid_place(g0, i as int, curr),
                                d1,
                                next,
                            ) != Some(next));
                        }
                    },
                }
            },
            None => {
                proof {
                    assert(!col_free(g0, i as int));
                }
            },
        }
        i = i + 1;
    }
    proof {
        assert(!exists|c: int| winning_col(g0, c, curr)) by {
            if exists|c: int| winning_col(g0, c, curr) {
                let c = choose|c: int| winning_col(g0, c, curr);
                assert(0 <= c < 7);
            }
        }
        assert(!exists|c: int|
            #![trigger grid_place(g0, c, curr)]
            col_free(g0, c) && spec_minimax(grid_place(g0, c, curr), d1, next) == Some(curr)) by {
            if exists|c: int|
                #![trigger grid_place(g0, c, curr)]
                col_free(g0, c) && spec_minimax(grid_place(g0, c, curr), d1, next) == Some(curr) {
                let c = choose|c: int|
                    #![trigger grid_place(g0, c, curr)]
                    col_free(g0, c) && spec_minimax(grid_place(g0, c, curr), d1, next) == Some(
                        curr,
                    );
                assert(0 <= c < 7);
            }
        }
    }
    if losing {
        proof {
            assert forall|c: int|
                #![trigger grid_place(g0, c, curr)]
                col_free(g0, c) implies spec_minimax(grid_place(g0, c, curr), d1, next) == Some(
                next,
            ) by {
                assert(0 <= c < 7);
            }
            assert(spec_minimax(g0, depth as nat, curr) == Some(next));
        }
        Some(curr.next())
    } else {
        proof {
            assert(!(forall|c: int|
                #![trigger grid_place(g0, c, curr)]
                col_free(g0, c) ==> spec_minimax(grid_place(g0, c, curr), d1, next) == Some(
                    next,
                )));
            assert(spec_minimax(g0, depth as nat, curr) is None);
        }
        None
    }
}

} // verus!
