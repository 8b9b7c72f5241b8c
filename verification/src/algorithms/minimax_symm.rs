//! The symmetry-reducing solver: tracks, incrementally, whether the board
//! remains a mirror image of itself about the centre column. While it does,
//! only the left half of the children need exploring; mirrored positions
//! share one game-theoretic outcome.

use vstd::prelude::*;
use crate::algorithms::cache::{cache_entries, cache_get, cache_insert, cache_new, decode_outcome,
    encode_outcome, outcome_of_code, OutcomeCache};
use crate::algorithms::minimax_cached::{cache_ok, minimax_cached_helper};
use crate::basic::{Position, Token};
use crate::board::{won_at, Board, CloneBoard};
use crate::column;
use crate::finite_index::FiniteIndex;
use crate::game::{
    lemma_mirror_child, spec_minimax, turn_of, winning_col,
};
use crate::grid::{
    col_free, grid_place, grid_unplace, grid_wf, lemma_len_cols_nonneg,
    lemma_place_count, lemma_place_get, lemma_place_unplace, lemma_place_wf,
    mirror_grid, token_count, Grid,
};

verus! {

broadcast use vstd::array::group_array_axioms;

/// Type to store the difference in height of each column with its mirror
/// partner, to efficiently detect when the board is symmetric:
/// the entry for pair `i` holds the height of column `6 - i` minus the
/// height of column `i`.
pub type SymmDiff = [isize; 3];

/// The overlapping cells of the column pair `(i, 6 - i)` agree.
pub open spec fn pair_consistent(g: Grid, i: int) -> bool {
    forall|r: int|
        0 <= r < g[i].len() && r < g[6 - i].len() ==> (#[trigger] g[i][r]) == g[6 - i][r]
}

/// Pair `i` of the delta is accurate: its columns still mirror each other
/// where they overlap, and the entry is their exact height difference.
pub open spec fn pair_tracked(g: Grid, d: Seq<isize>, i: int) -> bool {
    pair_consistent(g, i) && d[i] as int == g[6 - i].len() - g[i].len()
}

/// The board is still possibly symmetric, and the delta records each
/// mirrored pair's height difference exactly.
pub open spec fn diffs_ok(g: Grid, d: SymmDiff) -> bool {
    forall|i: int| 0 <= i < 3 ==> #[trigger] pair_tracked(g, d@, i)
}

/// A board whose delta is known and all zero is its own mirror image.
pub proof fn lemma_diffs_zero_symmetric(g: Grid, d: SymmDiff)
    requires
        grid_wf(g),
        diffs_ok(g, d),
        d@[0] == 0 && d@[1] == 0 && d@[2] == 0,
    ensures
        g == mirror_grid(g),
{
    assert forall|c: int| 0 <= c < 7 implies g[c] == mirror_grid(g)[c] by {
        if c != 3 {
            let i = if c < 3 {
                c
            } else {
                6 - c
            };
            assert(pair_tracked(g, d@, i));
            assert(g[i].len() == g[6 - i].len());
            assert(g[i] =~= g[6 - i]);
        }
    }
    assert(g =~~= mirror_grid(g));
}

/// Creates a symmetry delta for the given board by scanning the three
/// column pairs left of centre; None if some pair already holds differing
/// tokens, making the board irreversibly asymmetric for this branch.
pub fn make_diffs<B: Board>(board: &B) -> (r: Option<SymmDiff>)
    requires
        board.inv(),
    ensures
        r matches Some(d) ==> diffs_ok(board.grid(), d),
        r is None ==> !(forall|i: int| 0 <= i < 3 ==> pair_consistent(board.grid(), i)),
{
    let ghost g = board.grid();
    proof {
        board.lemma_inv_wf();
    }
    let mut diffs: [isize; 3] = [0, 0, 0];
    let mut col_l: usize = 0;
    while col_l < 3
        invariant
            board.inv(),
            g == board.grid(),
            grid_wf(g),
            col_l <= 3,
            forall|i: int| 0 <= i < col_l ==> #[trigger] pair_tracked(g, diffs@, i),
        decreases 3 - col_l,
    {
        let col_r = 6 - col_l;
        let ghost len_l = g[col_l as int].len() as int;
        let ghost len_r = g[col_r as int].len() as int;
        let mut cnt: isize = 0;
        let mut rw: usize = 0;
        let mut done = false;
        while rw < 6 && !done
            invariant
                board.inv(),
                g == board.grid(),
                grid_wf(g),
                col_l < 3,
                col_r == 6 - col_l,
                len_l == g[col_l as int].len(),
                len_r == g[col_r as int].len(),
                rw <= 6,
                cnt as int == (if rw <= len_r {
                    rw as int
                } else {
                    len_r
                }) - (if rw <= len_l {
                    rw as int
                } else {
                    len_l
                }),
                forall|r: int|
                    0 <= r < rw && r < len_l && r < len_r ==> (#[trigger] g[col_l as int][r])
                        == g[col_r as int][r],
                done ==> rw >= len_l && rw >= len_r,
                forall|i: int| 0 <= i < col_l ==> #[trigger] pair_tracked(g, diffs@, i),
            decreases 6 - rw + (if done {
                0int
            } else {
                1int
            }),
        {
            let pos_l = Position { col: FiniteIndex(col_l), row: FiniteIndex(rw) };
            let pos_r = Position { col: FiniteIndex(col_r), row: FiniteIndex(rw) };
            let token_l = board.get(&pos_l);
            let token_r = board.get(&pos_r);
            match (token_l, token_r) {
                (None, None) => {
                    done = true;
                },
                (None, Some(_)) => {
                    cnt = cnt + 1;
                    rw = rw + 1;
                },
                (Some(_), None) => {
                    cnt = cnt - 1;
                    rw = rw + 1;
                },
                (Some(a), Some(b)) => {
                    if a != b {
                        proof {
                            assert(g[col_l as int][rw as int] != g[col_r as int][rw as int]);
                            assert(!pair_consistent(g, col_l as int));
                        }
                        return None;
                    }
                    rw = rw + 1;
                },
            }
        }
        proof {
            assert(rw >= len_l && rw >= len_r);
            assert(cnt as int == len_r - len_l);
            assert(pair_consistent(g, col_l as int));
        }
        let ghost diffs0 = diffs@;
        diffs[col_l] = cnt;
        proof {
            assert(diffs@ =~= diffs0.update(col_l as int, cnt));
            assert forall|i: int| 0 <= i < col_l + 1 implies #[trigger] pair_tracked(
                g,
                diffs@,
                i,
            ) by {
                if i < col_l {
                    assert(pair_tracked(g, diffs0, i));
                    assert(diffs@[i] == diffs0[i]);
                } else {
                    assert(diffs@[i] == cnt);
                }
            }
        }
        col_l = col_l + 1;
    }
    Some(diffs)
}

/// Updates the delta for the token just placed at `cell`: placing in the
/// centre column never perturbs it; elsewhere the pair's counter moves by
/// one, and a mirror cell already occupied by a different token makes the
/// board irreversibly asymmetric (None).
pub fn next_diffs<B: Board>(board: &B, cell: &Position, diffs: SymmDiff) -> (r: Option<SymmDiff>)
    requires
        board.inv(),
        cell.inv(),
        cell.row.0 + 1 == board.grid()[cell.col.0 as int].len(),
        diffs_ok(grid_unplace(board.grid(), cell.col.0 as int), diffs),
    ensures
        r matches Some(d2) ==> diffs_ok(board.grid(), d2),
        r is None ==> !(forall|i: int| 0 <= i < 3 ==> pair_consistent(board.grid(), i)),
{
    let ghost g = board.grid();
    let ghost c = cell.col.0 as int;
    let ghost rw = cell.row.0 as int;
    let ghost pre = grid_unplace(g, c);
    proof {
        board.lemma_inv_wf();
        assert(g[c].len() >= 1);
        assert forall|x: int| 0 <= x < 7 && x != c implies g[x] == pre[x] by {}
        assert(pre[c] == g[c].drop_last());
        assert(pre[c].len() == g[c].len() - 1);
        assert forall|r: int| 0 <= r < pre[c].len() implies pre[c][r] == g[c][r] by {}
    }
    if cell.col.0 == 3 {
        proof {
            assert forall|i: int| 0 <= i < 3 implies #[trigger] pair_tracked(g, diffs@, i) by {
                assert(pair_tracked(pre, diffs@, i));
                assert(g[i] == pre[i] && g[6 - i] == pre[6 - i]);
            }
        }
        return Some(diffs);
    }
    let token = match board.get(cell) {
        Some(t) => t,
        None => {
            proof {
                assert(false);
            }
            Token::Yellow
        },
    };
    let flipped_cell = Position { col: cell.col.flipped(), row: cell.row };
    let ghost cf = 6 - c;
    let mirror_tok = board.get(&flipped_cell);
    match mirror_tok {
        Some(mt) => {
            if token != mt {
                proof {
                    let i = if c < 3 {
                        c
                    } else {
                        cf
                    };
                    assert(g[c][rw] != g[cf][rw]);
                    assert(rw < g[c].len() && rw < g[cf].len());
                    assert(!pair_consistent(g, i));
                }
                return None;
            }
        },
        None => {},
    }
    let i: usize = if cell.col.0 < 3 {
        cell.col.0
    } else {
        6 - cell.col.0
    };
    let mut d2 = diffs;
    proof {
        assert(pair_tracked(pre, diffs@, i as int));
        assert(pre[6 - i as int].len() <= 6 && pre[i as int].len() <= 6);
        assert(-6 <= diffs@[i as int] as int <= 6);
    }
    if cell.col.0 < 3 {
        d2[i] = diffs[i] - 1;
    } else {
        d2[i] = diffs[i] + 1;
    }
    proof {
        assert forall|j: int| 0 <= j < 3 implies #[trigger] pair_tracked(g, d2@, j) by {
            assert(pair_tracked(pre, diffs@, j));
            assert(pair_consistent(pre, j));
            if j != i {
                assert(g[j] == pre[j] && g[6 - j] == pre[6 - j]);
                assert(d2@[j] == diffs@[j]);
                assert forall|r: int|
                    0 <= r < g[j].len() && r < g[6 - j].len() implies (#[trigger] g[j][r]) == g[6
                        - j][r] by {
                    assert(pre[j][r] == pre[6 - j][r]);
                }
            } else {
                // the placed column is one of the pair; the other is untouched
                assert(c == j || c == 6 - j);
                assert forall|r: int|
                    0 <= r < g[j].len() && r < g[6 - j].len() implies (#[trigger] g[j][r]) == g[6
                        - j][r] by {
                    if r < pre[j].len() && r < pre[6 - j].len() {
                        assert(pre[j][r] == pre[6 - j][r]);
                    } else {
                        // only the newly placed cell can be the fresh overlap
                        assert(r == rw);
                        assert(g[c][rw] == g[cf][rw]);
                    }
                }
            }
        }
    }
    Some(d2)
}

/// Solves the position with a fresh transposition cache and, where the
/// board is still a mirror image of itself, symmetry-halved child
/// generation. Returns the player who can force a win within `depth` plies,
/// if any: exactly the outcome of the other solvers.
pub fn minimax_symm<B: CloneBoard>(board: B, depth: usize, curr: Token) -> (r: Option<Token>)
    requires
        board.inv(),
    ensures
        r == spec_minimax(board.grid(), depth as nat, curr),
{
    let mut cache = cache_new();
    proof {
        lemma_len_cols_nonneg(board.grid(), 7);
    }
    let ghost n = depth + token_count(board.grid());
    let ghost p0 = if token_count(board.grid()) % 2 == 0 {
        curr
    } else {
        curr.spec_next()
    };
    match make_diffs(&board) {
        Some(diffs) => minimax_symm_helper(board, depth, curr, &mut cache, diffs, Ghost(n), Ghost(p0)),
        None => minimax_cached_helper(board, depth, curr, &mut cache, Ghost(n), Ghost(p0)),
    }
}

/// The memoized recursion with symmetry tracking: while the delta is known
/// and all zero, mirrored placements are equivalent, so only columns up to
/// the centre are generated; a branch that breaks symmetry for good falls
/// back to the plain memoized search.
pub fn minimax_symm_helper<B: CloneBoard>(
    board: B,
    depth: usize,
    curr: Token,
    cache: &mut OutcomeCache,
    diffs: SymmDiff,
    Ghost(n): Ghost<int>,
    Ghost(p0): Ghost<Token>,
) -> (r: Option<Token>)
    requires
        board.inv(),
        cache_ok::<B>(cache_entries(*old(cache)), n, p0),
        n - token_count(board.grid()) == depth,
        0 <= token_count(board.grid()),
        curr == turn_of(p0, token_count(board.grid())),
        diffs_ok(board.grid(), diffs),
    ensures
        cache_ok::<B>(cache_entries(*final(cache)), n, p0),
        r == spec_minimax(board.grid(), depth as nat, curr),
        forall|k2: u64| #[trigger]
            cache_entries(*old(cache)).contains_key(k2) ==> cache_entries(
                *final(cache),
            ).contains_key(k2) && decode_outcome(cache_entries(*final(cache))[k2])
                == decode_outcome(cache_entries(*old(cache))[k2]),
        cache_entries(*old(cache)).contains_key(B::canon(board.grid()) as u64) ==> cache_entries(
            *final(cache),
        ) == cache_entries(*old(cache)),
        depth > 0 ==> cache_entries(*final(cache)).contains_key(B::canon(board.grid()) as u64)
            && decode_outcome(cache_entries(*final(cache))[B::canon(board.grid()) as u64]) == r,
    decreases depth,
{
    if depth == 0 {
        return None;
    }
    let ghost g0 = board.grid();
    let ghost d1 = (depth - 1) as nat;
    let ghost next = curr.spec_next();
    proof {
        board.lemma_inv_wf();
    }
    let k = board.key();
    match cache_get(cache, k) {
        Some(v) => {
            proof {
                assert(cache_entries(*cache).contains_key(k));
                let g2 = choose|g2: Grid|
                    grid_wf(g2) && B::canon(g2) == k as int && 0 <= token_count(g2) <= n
                        && decode_outcome(cache_entries(*cache)[k]) == spec_minimax(
                        g2,
                        (n - token_count(g2)) as nat,
                        turn_of(p0, token_count(g2)),
                    );
                B::lemma_canon(g2, g0, depth as nat, curr);
                assert(decode_outcome(v) == spec_minimax(g0, depth as nat, curr));
                B::lemma_canon_range(g0);
                assert(k == B::canon(g0) as u64);
            }
            return outcome_of_code(v);
        },
        None => {},
    }
    // while the delta is known and all zero, mirrored placements are
    // equivalent: enumerating through the centre column suffices
    let symmetric = diffs[0] == 0 && diffs[1] == 0 && diffs[2] == 0;
    let hi: usize = if symmetric {
        4
    } else {
        7
    };
    proof {
        if symmetric {
            lemma_diffs_zero_symmetric(g0, diffs);
        }
    }
    let mut out: Option<Token> = None;
    let mut losing = true;
    let mut i: usize = 0;
    while i < hi && out.is_none()
        invariant
            board.inv(),
            g0 == board.grid(),
            grid_wf(g0),
            1 <= depth,
            d1 == (depth - 1) as nat,
            next == curr.spec_next(),
            n - token_count(g0) == depth,
            0 <= token_count(g0),
            curr == turn_of(p0, token_count(g0)),
            diffs_ok(g0, diffs),
            symmetric ==> g0 == mirror_grid(g0),
            hi == (if symmetric {
                4int
            } else {
                7int
            }),
            i <= hi,
            k as int == B::canon(g0),
            !cache_entries(*old(cache)).contains_key(k),
            cache_ok::<B>(cache_entries(*cache), n, p0),
            forall|k2: u64| #[trigger]
                cache_entries(*old(cache)).contains_key(k2) ==> cache_entries(
                    *cache,
                ).contains_key(k2) && decode_outcome(cache_entries(*cache)[k2]) == decode_outcome(
                    cache_entries(*old(cache))[k2],
                ),
            out is Some ==> out == Some(curr) && spec_minimax(g0, depth as nat, curr) == Some(
                curr,
            ),
            out is None ==> forall|c: int| 0 <= c < i ==> !winning_col(g0, c, curr),
            out is None ==> forall|c: int|
                #![trigger grid_place(g0, c, curr)]
                0 <= c < i ==> !(col_free(g0, c) && spec_minimax(grid_place(g0, c, curr), d1, next)
                    == Some(curr)),
            out is None ==> (losing <==> (forall|c: int|
                #![trigger grid_place(g0, c, curr)]
                0 <= c < i && col_free(g0, c) ==> spec_minimax(grid_place(g0, c, curr), d1, next)
                    == Some(next))),
        decreases hi - i,
    {
        let colx = column::Idx::raw(i);
        match board.clone_and_place(&colx, &curr) {
            Some(bp) => {
                let (next_board, cell) = bp;
                proof {
                    assert(col_free(g0, i as int));
                    lemma_place_wf(g0, i as int, curr);
                    lemma_place_get(g0, i as int, curr);
                    lemma_place_count(g0, i as int, curr);
                }
                if won_at(&next_board, &cell) {
                    proof {
                        assert(winning_col(g0, i as int, curr));
                        assert(spec_minimax(g0, depth as nat, curr) == Some(curr));
                    }
                    out = Some(curr);
                } else {
                    proof {
                        lemma_place_unplace(g0, i as int, curr);
                    }
                    let d2 = next_diffs(&next_board, &cell, diffs);
                    let sub = match d2 {
                        Some(d2v) => minimax_symm_helper(
                            next_board,
                            depth - 1,
                            curr.next(),
                            cache,
                            d2v,
                            Ghost(n),
                            Ghost(p0),
                        ),
                        None => minimax_cached_helper(
                            next_board,
                            depth - 1,
                            curr.next(),
                            cache,
                            Ghost(n),
                            Ghost(p0),
                        ),
                    };
                    match sub {
                        Some(w) => {
                            if w == curr {
                                proof {
                                    assert(col_free(g0, i as int) && spec_minimax(
                                        grid_place(g0, i as int, curr),
                                        d1,
                                        next,
                                    ) == Some(curr));
                                    assert(spec_minimax(g0, depth as nat, curr) == Some(curr));
                                }
                                out = Some(curr);
                            } else {
                                proof {
                                    assert(w == next);
                                    assert(!winning_col(g0, i as int, curr));
                                }
                            }
                        },
                        None => {
                            losing = false;
                            proof {
                                assert(!winning_col(g0, i as int, curr));
                                assert(col_free(g0, i as int) && spec_minimax(
                                    grid_place(g0, i as int, curr),
                                    d1,
                                    next,
                                ) != Some(next));
                            }
                        },
                    }
                }
            },
            None => {
                proof {
                    assert(!col_free(g0, i as int));
                }
            },
        }
        i = i + 1;
    }
    if out.is_none() {
        proof {
            assert(i == hi);
            // when only the left half was generated, a mirrored column right
            // of centre behaves exactly as its partner on the left
            assert forall|c: int| 0 <= c < 7 implies !winning_col(g0, c, curr) && !(col_free(
                g0,
                c,
            ) && spec_minimax(#[trigger] grid_place(g0, c, curr), d1, next) == Some(curr)) by {
                if c < hi {
                } else {
                    assert(symmetric && 4 <= c < 7);
                    lemma_mirror_child(g0, depth as nat, curr, c);
                    assert(mirror_grid(g0) == g0);
                    assert(winning_col(g0, c, curr) == winning_col(g0, 6 - c, curr));
                    assert(col_free(g0, c) == col_free(g0, 6 - c));
                    if col_free(g0, c) {
                        assert(spec_minimax(grid_place(g0, c, curr), d1, next) == spec_minimax(
                            grid_place(g0, 6 - c, curr),
                            d1,
                            next,
                        ));
                    }
                    assert(0 <= 6 - c < hi);
                }
            }
            assert(!exists|c: int| winning_col(g0, c, curr)) by {
                if exists|c: int| winning_col(g0, c, curr) {
                    let c = choose|c: int| winning_col(g0, c, curr);
                    assert(0 <= c < 7);
                }
            }
            assert(!exists|c: int|
                #![trigger grid_place(g0, c, curr)]
                col_free(g0, c) && spec_minimax(grid_place(g0, c, curr), d1, next) == Some(
                    curr,
                )) by {
                if exists|c: int|
                    #![trigger grid_place(g0, c, curr)]
                    col_free(g0, c) && spec_minimax(grid_place(g0, c, curr), d1, next) == Some(
                        curr,
                    ) {
                    let c = choose|c: int|
                        #![trigger grid_place(g0, c, curr)]
                        col_free(g0, c) && spec_minimax(grid_place(g0, c, curr), d1, next)
                            == Some(curr);
                    assert(0 <= c < 7);
                }
            }
        }
        if losing {
            proof {
                assert forall|c: int|
                    #![trigger grid_place(g0, c, curr)]
                    col_free(g0, c) implies spec_minimax(grid_place(g0, c, curr), d1, next)
                    == Some(next) by {
                    assert(0 <= c < 7);
                    if c < hi {
                    } else {
                        lemma_mirror_child(g0, depth as nat, curr, c);
                        assert(0 <= 6 - c < hi);
                        assert(col_free(g0, 6 - c));
                        assert(spec_minimax(grid_place(g0, 6 - c, curr), d1, next) == Some(next));
                        assert(spec_minimax(grid_place(g0, c, curr), d1, next) == spec_minimax(
                            grid_place(g0, 6 - c, curr),
                            d1,
                            next,
                        ));
                    }
                }
                assert(spec_minimax(g0, depth as nat, curr) == Some(next));
            }
            out = Some(curr.next());
        } else {
            proof {
                assert(!(forall|c: int|
                    #![trigger grid_place(g0, c, curr)]
                    col_free(g0, c) ==> spec_minimax(grid_place(g0, c, curr), d1, next) == Some(
                        next,
                    )));
                assert(spec_minimax(g0, depth as nat, curr) is None);
            }
        }
    }
    let code = encode_outcome(out);
    let ghost pre = cache_entries(*cache);
    cache_insert(cache, k, code);
    proof {
        B::lemma_canon_range(g0);
        assert(k == B::canon(g0) as u64);
        assert(cache_entries(*cache) == pre.insert(k, code));
        assert forall|k2: u64| #[trigger]
            cache_entries(*old(cache)).contains_key(k2) implies cache_entries(
            *cache,
        ).contains_key(k2) && decode_outcome(cache_entries(*cache)[k2]) == decode_outcome(
            cache_entries(*old(cache))[k2],
        ) by {
            assert(k2 != k);
            assert(pre.contains_key(k2));
            assert(cache_entries(*cache)[k2] == pre[k2]);
        }
        assert forall|k2: u64| #[trigger]
            cache_entries(*cache).contains_key(k2) implies exists|g: Grid|
            grid_wf(g) && B::canon(g) == k2 as int && 0 <= token_count(g) <= n && decode_outcome(
                cache_entries(*cache)[k2],
            ) == spec_minimax(
                g,
                (n - token_count(g)) as nat,
                turn_of(p0, token_count(g)),
            ) by {
            if k2 == k {
                assert(grid_wf(g0) && B::canon(g0) == k as int && 0 <= token_count(g0) <= n
                    && decode_outcome(cache_entries(*cache)[k]) == spec_minimax(
                    g0,
                    (n - token_count(g0)) as nat,
                    turn_of(p0, token_count(g0)),
                ));
            } else {
                assert(pre.contains_key(k2));
                assert(cache_entries(*cache)[k2] == pre[k2]);
            }
        }
    }
    out
}

} // verus!
