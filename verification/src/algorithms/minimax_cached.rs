//! The memoized solver: identical positions reached by different move
//! orders are explored once, their outcome cached under the canonical key.

use vstd::prelude::*;
use crate::algorithms::cache::{
    cache_entries, cache_get, cache_insert, cache_new, decode_outcome, encode_outcome,
    outcome_of_code, OutcomeCache,
};
use crate::basic::Token;
use crate::board::{won_at, Board, CloneBoard};
use crate::column;
use crate::game::{spec_minimax, turn_of, winning_col};
use crate::grid::{
    col_free, grid_place, grid_wf, lemma_len_cols_nonneg, lemma_place_count, lemma_place_get,
    lemma_place_wf, token_count, Grid,
};

verus! {

/// The cache only ever holds truths: every entry decodes to the exact
/// bounded outcome of some position carrying that canonical key, at the
/// depth that remains for that position under the budget `n`, for the
/// player whose turn it is there.
pub open spec fn cache_ok<B: Board>(m: Map<u64, u8>, n: int, p0: Token) -> bool {
    forall|k: u64| #[trigger]
        m.contains_key(k) ==> exists|g: Grid|
            grid_wf(g) && B::canon(g) == k as int && 0 <= token_count(g) <= n && decode_outcome(
                m[k],
            ) == spec_minimax(
                g,
                (n - token_count(g)) as nat,
                turn_of(p0, token_count(g)),
            )
}

/// Solves the position with a fresh transposition cache, discarded at
/// return. Returns the player who can force a win within `depth` plies, if
/// any.
pub fn minimax_cached<B: CloneBoard>(board: B, depth: usize, curr: Token) -> (r: Option<Token>)
    requires
        board.inv(),
    ensures
        r == spec_minimax(board.grid(), depth as nat, curr),
{
    let mut cache = cache_new();
    proof {
        lemma_len_cols_nonneg(board.grid(), 7);
    }
    let ghost n = depth + token_count(board.grid());
    let ghost p0 = if token_count(board.grid()) % 2 == 0 {
        curr
    } else {
        curr.spec_next()
    };
    minimax_cached_helper(board, depth, curr, &mut cache, Ghost(n), Ghost(p0))
}

/// The memoized recursion: consults the cache before expanding a node and
/// stores each fully determined outcome before returning. The ghost budget
/// `n` fixes, for every position, the depth remaining under it, so one cache
/// serves the whole search.
pub fn minimax_cached_helper<B: CloneBoard>(
    board: B,
    depth: usize,
    curr: Token,
    cache: &mut OutcomeCache,
    Ghost(n): Ghost<int>,
    Ghost(p0): Ghost<Token>,
) -> (r: Option<Token>)
    requires
        board.inv(),
        cache_ok::<B>(cache_entries(*old(cache)), n, p0),
        n - token_count(board.grid()) == depth,
        0 <= token_count(board.grid()),
        curr == turn_of(p0, token_count(board.grid())),
    ensures
        cache_ok::<B>(cache_entries(*final(cache)), n, p0),
        r == spec_minimax(board.grid(), depth as nat, curr),
        forall|k2: u64| #[trigger]
            cache_entries(*old(cache)).contains_key(k2) ==> cache_entries(
                *final(cache),
            ).contains_key(k2) && decode_outcome(cache_entries(*final(cache))[k2])
                == decode_outcome(cache_entries(*old(cache))[k2]),
        cache_entries(*old(cache)).contains_key(B::canon(board.grid()) as u64) ==> cache_entries(
            *final(cache),
        ) == cache_entries(*old(cache)),
        depth > 0 ==> cache_entries(*final(cache)).contains_key(B::canon(board.grid()) as u64)
            && decode_outcome(cache_entries(*final(cache))[B::canon(board.grid()) as u64]) == r,
    decreases depth,
{
    if depth == 0 {
        return None;
    }
    let ghost g0 = board.grid();
    let ghost d1 = (depth - 1) as nat;
    let ghost next = curr.spec_next();
    proof {
        board.lemma_inv_wf();
    }
    let k = board.key();
    match cache_get(cache, k) {
        Some(v) => {
            proof {
                assert(cache_entries(*cache).contains_key(k));
                let g2 = choose|g2: Grid|
                    grid_wf(g2) && B::canon(g2) == k as int && 0 <= token_count(g2) <= n
                        && decode_outcome(cache_entries(*cache)[k]) == spec_minimax(
                        g2,
                        (n - token_count(g2)) as nat,
                        turn_of(p0, token_count(g2)),
                    );
                B::lemma_canon(g2, g0, depth as nat, curr);
                assert(token_count(g2) == token_count(g0));
                assert(decode_outcome(v) == spec_minimax(g2, depth as nat, curr));
                assert(decode_outcome(v) == spec_minimax(g0, depth as nat, curr));
                B::lemma_canon_range(g0);
                assert(k == B::canon(g0) as u64);
            }
            return outcome_of_code(v);
        },
        None => {},
    }
    let mut out: Option<Token> = None;
    let mut losing = true;
    let mut i: usize = 0;
    while i < 7 && out.is_none()
        invariant
            board.inv(),
            g0 == board.grid(),
            grid_wf(g0),
            1 <= depth,
            d1 == (depth - 1) as nat,
            next == curr.spec_next(),
            n - token_count(g0) == depth,
            0 <= token_count(g0),
            curr == turn_of(p0, token_count(g0)),
            i <= 7,
            k as int == B::canon(g0),
            !cache_entries(*old(cache)).contains_key(k),
            cache_ok::<B>(cache_entries(*cache), n, p0),
            forall|k2: u64| #[trigger]
                cache_entries(*old(cache)).contains_key(k2) ==> cache_entries(
                    *cache,
                ).contains_key(k2) && decode_outcome(cache_entries(*cache)[k2]) == decode_outcome(
                    cache_entries(*old(cache))[k2],
                ),
            out is Some ==> out == Some(curr) && spec_minimax(g0, depth as nat, curr) == Some(
                curr,
            ),
            out is None ==> forall|c: int| 0 <= c < i ==> !winning_col(g0, c, curr),
            out is None ==> forall|c: int|
                #![trigger grid_place(g0, c, curr)]
                0 <= c < i ==> !(col_free(g0, c) && spec_minimax(grid_place(g0, c, curr), d1, next)
                    == Some(curr)),
            out is None ==> (losing <==> (forall|c: int|
                #![trigger grid_place(g0, c, curr)]
                0 <= c < i && col_free(g0, c) ==> spec_minimax(grid_place(g0, c, curr), d1, next)
                    == Some(next))),
        decreases 7 - i,
    {
        let colx = column::Idx::raw(i);
        match board.clone_and_place(&colx, &curr) {
            Some(bp) => {
                let (next_board, cell) = bp;
                proof {
                    assert(col_free(g0, i as int));
                    lemma_place_wf(g0, i as int, curr);
                    lemma_place_get(g0, i as int, curr);
                    lemma_place_count(g0, i as int, curr);
                }
                if won_at(&next_board, &cell) {
                    proof {
                        assert(winning_col(g0, i as int, curr));
                        assert(spec_minimax(g0, depth as nat, curr) == Some(curr));
                    }
                    out = Some(curr);
                } else {
                    let sub = minimax_cached_helper(
                        next_board,
                        depth - 1,
                        curr.next(),
                        cache,
                        Ghost(n),
                        Ghost(p0),
                    );
                    match sub {
                        Some(w) => {
                            if w == curr {
                                proof {
                                    assert(col_free(g0, i as int) && spec_minimax(
                                        grid_place(g0, i as int, curr),
                                        d1,
                                        next,
                                    ) == Some(curr));
                                    assert(spec_minimax(g0, depth as nat, curr) == Some(curr));
                                }
                                out = Some(curr);
                            } else {
                                proof {
                                    assert(w == next);
                                    assert(!winning_col(g0, i as int, curr));
                                }
                            }
                        },
                        None => {
                            losing = false;
                            proof {
                                assert(!winning_col(g0, i as int, curr));
                                assert(col_free(g0, i as int) && spec_minimax(
                                    grid_place(g0, i as int, curr),
                                    d1,
                                    next,
                                ) != Some(next));
                            }
                        },
                    }
                }
            },
            None => {
                proof {
                    assert(!col_free(g0, i as int));
                }
            },
        }
        i = i + 1;
    }
    if out.is_none() {
        proof {
            assert(i == 7);
            assert(!exists|c: int| winning_col(g0, c, curr)) by {
                if exists|c: int| winning_col(g0, c, curr) {
                    let c = choose|c: int| winning_col(g0, c, curr);
                    assert(0 <= c < 7);
                }
            }
            assert(!exists|c: int|
                #![trigger grid_place(g0, c, curr)]
                col_free(g0, c) && spec_minimax(grid_place(g0, c, curr), d1, next) == Some(
                    curr,
                )) by {
                if exists|c: int|
                    #![trigger grid_place(g0, c, curr)]
                    col_free(g0, c) && spec_minimax(grid_place(g0, c, curr), d1, next) == Some(
                        curr,
                    ) {
                    let c = choose|c: int|
                        #![trigger grid_place(g0, c, curr)]
                        col_free(g0, c) && spec_minimax(grid_place(g0, c, curr), d1, next)
                            == Some(curr);
                    assert(0 <= c < 7);
                }
            }
        }
        if losing {
            proof {
                assert forall|c: int|
                    #![trigger grid_place(g0, c, curr)]
                    col_free(g0, c) implies spec_minimax(grid_place(g0, c, curr), d1, next)
                    == Some(next) by {
                    assert(0 <= c < 7);
                }
                assert(spec_minimax(g0, depth as nat, curr) == Some(next));
            }
            out = Some(curr.next());
        } else {
            proof {
                assert(!(forall|c: int|
                    #![trigger grid_place(g0, c, curr)]
                    col_free(g0, c) ==> spec_minimax(grid_place(g0, c, curr), d1, next) == Some(
                        next,
                    )));
                assert(spec_minimax(g0, depth as nat, curr) is None);
            }
        }
    }
    let code = encode_outcome(out);
    let ghost pre = cache_entries(*cache);
    cache_insert(cache, k, code);
    proof {
        B::lemma_canon_range(g0);
        assert(k == B::canon(g0) as u64);
        assert(cache_entries(*cache) == pre.insert(k, code));
        assert forall|k2: u64| #[trigger]
            cache_entries(*old(cache)).contains_key(k2) implies cache_entries(
            *cache,
        ).contains_key(k2) && decode_outcome(cache_entries(*cache)[k2]) == decode_outcome(
            cache_entries(*old(cache))[k2],
        ) by {
            assert(k2 != k);
            assert(pre.contains_key(k2));
            assert(cache_entries(*cache)[k2] == pre[k2]);
        }
        assert forall|k2: u64| #[trigger]
            cache_entries(*cache).contains_key(k2) implies exists|g: Grid|
            grid_wf(g) && B::canon(g) == k2 as int && 0 <= token_count(g) <= n && decode_outcome(
                cache_entries(*cache)[k2],
            ) == spec_minimax(
                g,
                (n - token_count(g)) as nat,
                turn_of(p0, token_count(g)),
            ) by {
            if k2 == k {
                assert(grid_wf(g0) && B::canon(g0) == k as int && 0 <= token_count(g0) <= n
                    && decode_outcome(cache_entries(*cache)[k]) == spec_minimax(
                    g0,
                    (n - token_count(g0)) as nat,
                    turn_of(p0, token_count(g0)),
                ));
            } else {
                assert(pre.contains_key(k2));
                assert(cache_entries(*cache)[k2] == pre[k2]);
            }
        }
    }
    out
}

/// A cache hit is sound: whatever position put the entry there shares the
/// canonical key, hence the token count, hence the remaining depth and the
/// turn — and, by the canonical-key obligation, the outcome.
pub proof fn lemma_cache_hit<B: Board>(
    m: Map<u64, u8>,
    k: u64,
    g0: Grid,
    n: int,
    p0: Token,
    depth: nat,
    curr: Token,
)
    requires
        cache_ok::<B>(m, n, p0),
        m.contains_key(k),
        grid_wf(g0),
        B::canon(g0) == k as int,
        n - token_count(g0) == depth,
        0 <= token_count(g0),
        curr == turn_of(p0, token_count(g0)),
    ensures
        decode_outcome(m[k]) == spec_minimax(g0, depth, curr),
{
    let g2 = choose|g2: Grid|
        grid_wf(g2) && B::canon(g2) == k as int && 0 <= token_count(g2) <= n && decode_outcome(
            m[k],
        ) == spec_minimax(g2, (n - token_count(g2)) as nat, turn_of(p0, token_count(g2)));
    B::lemma_canon(g2, g0, depth, curr);
}

/// Inserting a fully determined outcome under its position's canonical key
/// keeps the cache truthful.
pub proof fn lemma_cache_insert_ok<B: Board>(
    pre: Map<u64, u8>,
    k: u64,
    code: u8,
    g0: Grid,
    n: int,
    p0: Token,
)
    requires
        cache_ok::<B>(pre, n, p0),
        grid_wf(g0),
        B::canon(g0) == k as int,
        0 <= token_count(g0) <= n,
        decode_outcome(code) == spec_minimax(
            g0,
            (n - token_count(g0)) as nat,
            turn_of(p0, token_count(g0)),
        ),
    ensures
        cache_ok::<B>(pre.insert(k, code), n, p0),
{
    let m2 = pre.insert(k, code);
    assert forall|k2: u64| #[trigger] m2.contains_key(k2) implies exists|g: Grid|
        grid_wf(g) && B::canon(g) == k2 as int && 0 <= token_count(g) <= n && decode_outcome(
            m2[k2],
        ) == spec_minimax(g, (n - token_count(g)) as nat, turn_of(p0, token_count(g))) by {
        if k2 == k {
            assert(grid_wf(g0) && B::canon(g0) == k as int && 0 <= token_count(g0) <= n
                && decode_outcome(m2[k]) == spec_minimax(
                g0,
                (n - token_count(g0)) as nat,
                turn_of(p0, token_count(g0)),
            ));
        } else {
            assert(pre.contains_key(k2));
            assert(m2[k2] == pre[k2]);
        }
    }
}

} // verus!
