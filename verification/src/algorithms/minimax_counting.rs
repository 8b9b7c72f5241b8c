//! The memoized solver with heuristic move ordering: not-yet-tried children
//! are ranked by the threat counter (lines of three ahead of lines of two)
//! so short-circuits trigger earlier. The ordering never changes which
//! outcome is returned, only the time to reach it.

use vstd::prelude::*;
use std::collections::HashMap;
use crate::algorithms::heap::{heap_contents, heap_new, heap_pop, heap_push};
use crate::algorithms::cache::{decode_outcome, encode_outcome, outcome_of_code};
use crate::algorithms::minimax_cached::{cache_ok, lemma_cache_hit, lemma_cache_insert_ok};
use crate::basic::Token;
use crate::board::{count_adjacent_at, Board, CloneBoard};
use crate::column;
use crate::game::{spec_minimax, turn_of, winning_col};
use crate::grid::{
    col_free, grid_place, grid_wf, lemma_len_cols_nonneg, lemma_place_count, lemma_place_get,
    lemma_place_wf, token_count, Grid,
};

verus! {

broadcast use vstd::multiset::group_multiset_axioms;

/// An item sitting in the ordering queue stands for a sensible child: a
/// legal, not immediately winning column of the position being expanded.
pub open spec fn queue_item_ok(g0: Grid, curr: Token, x: (u64, u64)) -> bool {
    x.1 < 7 && col_free(g0, x.1 as int) && !winning_col(g0, x.1 as int, curr)
}

/// Solves the position with a fresh transposition cache and heuristic child
/// ordering. Returns the player who can force a win within `depth` plies,
/// if any: exactly the outcome of the other solvers.
pub fn minimax_counting<B: CloneBoard>(board: B, depth: usize, curr: Token) -> (r: Option<Token>)
    requires
        board.inv(),
    ensures
        r == spec_minimax(board.grid(), depth as nat, curr),
{
    let mut cache: HashMap<u64, u8> = HashMap::new();
    proof {
        lemma_len_cols_nonneg(board.grid(), 7);
    }
    let ghost n = depth + token_count(board.grid());
    let ghost p0 = if token_count(board.grid()) % 2 == 0 {
        curr
    } else {
        curr.spec_next()
    };
    minimax_counting_helper(board, depth, curr, &mut cache, Ghost(n), Ghost(p0))
}

/// The memoized recursion with heuristic ordering: children are generated,
/// scored by the threat counter, and explored best-first from a priority
/// queue; outcomes are cached as in the plain memoized search.
pub fn minimax_counting_helper<B: CloneBoard>(
    board: B,
    depth: usize,
    curr: Token,
    cache: &mut HashMap<u64, u8>,
    Ghost(n): Ghost<int>,
    Ghost(p0): Ghost<Token>,
) -> (r: Option<Token>)
    requires
        board.inv(),
        cache_ok::<B>(old(cache)@, n, p0),
        n - token_count(board.grid()) == depth,
        0 <= token_count(board.grid()),
        curr == turn_of(p0, token_count(board.grid())),
    ensures
        cache_ok::<B>(final(cache)@, n, p0),
        r == spec_minimax(board.grid(), depth as nat, curr),
        forall|k2: u64| #[trigger]
            old(cache)@.contains_key(k2) ==> final(cache)@.contains_key(k2) && decode_outcome(
                final(cache)@[k2],
            ) == decode_outcome(old(cache)@[k2]),
        old(cache)@.contains_key(B::canon(board.grid()) as u64) ==> final(cache)@ == old(cache)@,
        depth > 0 ==> final(cache)@.contains_key(B::canon(board.grid()) as u64)
            && decode_outcome(final(cache)@[B::canon(board.grid()) as u64]) == r,
    decreases depth,
{
    if depth == 0 {
        return None;
    }
    let ghost g0 = board.grid();
    let ghost d1 = (depth - 1) as nat;
    let ghost next = curr.spec_next();
    proof {
        board.lemma_inv_wf();
    }
    let k = board.key();
    match cache.get(&k) {
        Some(vref) => {
            let v = *vref;
            proof {
                assert(cache@.contains_key(k) && cache@[k] == v);
                lemma_cache_hit::<B>(cache@, k, g0, n, p0, depth as nat, curr);
                B::lemma_canon_range(g0);
                assert(k == B::canon(g0) as u64);
            }
            return outcome_of_code(v);
        },
        None => {},
    }
    // generate every child, ranked by the threat heuristic; a child that is
    // already a win settles the node at once
    let mut nexts = heap_new(column::COUNT);
    let mut i: usize = 0;
    while i < 7
        invariant
            board.inv(),
            g0 == board.grid(),
            grid_wf(g0),
            1 <= depth,
            d1 == (depth - 1) as nat,
            next == curr.spec_next(),
            n - token_count(g0) == depth,
            0 <= token_count(g0),
            curr == turn_of(p0, token_count(g0)),
            i <= 7,
            k as int == B::canon(g0),
            cache@ == old(cache)@,
            !old(cache)@.contains_key(k),
            cache_ok::<B>(cache@, n, p0),
            forall|x: (u64, u64)|
                heap_contents(nexts).count(x) > 0 ==> #[trigger] queue_item_ok(g0, curr, x),
            forall|c: int| 0 <= c < i ==> !winning_col(g0, c, curr),
            forall|c: int|
                0 <= c < i && col_free(g0, c) ==> exists|x: (u64, u64)|
                    heap_contents(nexts).count(x) > 0 && (#[trigger] queue_item_ok(g0, curr, x))
                        && x.1 == c,
        decreases 7 - i,
    {
        let colx = column::Idx::raw(i);
        match board.clone_and_place(&colx, &curr) {
            Some(bp) => {
                let (next_board, cell) = bp;
                proof {
                    assert(col_free(g0, i as int));
                    lemma_place_wf(g0, i as int, curr);
                    lemma_place_get(g0, i as int, curr);
                }
                match count_adjacent_at(&next_board, &cell) {
                    // found a win: the mover plays it and the node is settled
                    None => {
                        proof {
                            assert(winning_col(g0, i as int, curr));
                            assert(spec_minimax(g0, depth as nat, curr) == Some(curr));
                        }
                        let code = encode_outcome(Some(curr));
                        proof {
                            lemma_cache_insert_ok::<B>(cache@, k, code, g0, n, p0);
                            B::lemma_canon_range(g0);
                            assert(k == B::canon(g0) as u64);
                        }
                        let ghost pre = cache@;
                        cache.insert(k, code);
                        proof {
                            assert(cache@ == pre.insert(k, code));
                            assert forall|k2: u64| #[trigger]
                                old(cache)@.contains_key(k2) implies cache@.contains_key(k2)
                                && decode_outcome(cache@[k2]) == decode_outcome(
                                old(cache)@[k2],
                            ) by {
                                assert(k2 != k);
                                assert(cache@[k2] == pre[k2]);
                            }
                        }
                        return Some(curr);
                    },
                    // rank the child: triples ahead of pairs
                    Some(info) => {
                        let (triples, pairs) = info;
                        let prio: u64 = (triples as u64) * 16 + (pairs as u64);
                        let item = (prio, i as u64);
                        let ghost pre_ms = heap_contents(nexts);
                        heap_push(&mut nexts, item);
                        proof {
                            assert(heap_contents(nexts) == pre_ms.insert(item));
                            assert(queue_item_ok(g0, curr, item));
                            assert forall|c: int|
                                0 <= c < i + 1 && col_free(g0, c) implies exists|x: (u64, u64)|
                                heap_contents(nexts).count(x) > 0 && (#[trigger] queue_item_ok(
                                    g0,
                                    curr,
                                    x,
                                )) && x.1 == c by {
                                if c < i {
                                    let x = choose|x: (u64, u64)|
                                        pre_ms.count(x) > 0 && (#[trigger] queue_item_ok(
                                            g0,
                                            curr,
                                            x,
                                        )) && x.1 == c;
                                    assert(heap_contents(nexts).count(x) > 0);
                                } else {
                                    assert(heap_contents(nexts).count(item) > 0 && item.1 == c);
                                }
                            }
                        }
                    },
                }
            },
            None => {
                proof {
                    assert(!col_free(g0, i as int));
                }
            },
        }
        i = i + 1;
    }
    // explore the ranked children best-first
    let mut out: Option<Token> = None;
    let mut losing = true;
    let mut finished = false;
    let ghost done: Set<int> = Set::empty();
    let mut done_cols = Ghost(done);
    while !finished && out.is_none()
        invariant
            board.inv(),
            g0 == board.grid(),
            grid_wf(g0),
            1 <= depth,
            d1 == (depth - 1) as nat,
            next == curr.spec_next(),
            n - token_count(g0) == depth,
            0 <= token_count(g0),
            curr == turn_of(p0, token_count(g0)),
            k as int == B::canon(g0),
            !old(cache)@.contains_key(k),
            cache_ok::<B>(cache@, n, p0),
            forall|k2: u64| #[trigger]
                old(cache)@.contains_key(k2) ==> cache@.contains_key(k2) && decode_outcome(
                    cache@[k2],
                ) == decode_outcome(old(cache)@[k2]),
            forall|x: (u64, u64)|
                heap_contents(nexts).count(x) > 0 ==> #[trigger] queue_item_ok(g0, curr, x),
            forall|c: int| 0 <= c < 7 ==> !winning_col(g0, c, curr),
            out is None ==> forall|c: int|
                #![trigger col_free(g0, c)]
                0 <= c < 7 && col_free(g0, c) ==> done_cols@.contains(c) || exists|x: (u64, u64)|
                    heap_contents(nexts).count(x) > 0 && (#[trigger] queue_item_ok(g0, curr, x))
                        && x.1 == c,
            out is None ==> forall|c: int|
                #![trigger done_cols@.contains(c)]
                done_cols@.contains(c) ==> col_free(g0, c) && spec_minimax(
                    grid_place(g0, c, curr),
                    d1,
                    next,
                ) != Some(curr),
            out is None ==> (losing <==> (forall|c: int|
                #![trigger done_cols@.contains(c)]
                done_cols@.contains(c) ==> spec_minimax(grid_place(g0, c, curr), d1, next)
                    == Some(next))),
            out is Some ==> out == Some(curr) && spec_minimax(g0, depth as nat, curr) == Some(
                curr,
            ),
            finished ==> heap_contents(nexts).len() == 0,
        decreases heap_contents(nexts).len() + (if finished {
            0int
        } else {
            1int
        }),
    {
        let ghost pre_ms = heap_contents(nexts);
        match heap_pop(&mut nexts) {
            None => {
                finished = true;
            },
            Some(m) => {
                proof {
                    assert(pre_ms.count(m) > 0);
                    assert(queue_item_ok(g0, curr, m));
                }
                let c = m.1 as usize;
                let colx = column::Idx::raw(c);
                match board.clone_and_place(&colx, &curr) {
                    Some(bp) => {
                        let (next_board, _cell) = bp;
                        proof {
                            lemma_place_wf(g0, c as int, curr);
                            lemma_place_count(g0, c as int, curr);
                        }
                        let sub = minimax_counting_helper(
                            next_board,
                            depth - 1,
                            curr.next(),
                            cache,
                            Ghost(n),
                            Ghost(p0),
                        );
                        match sub {
                            Some(w) => {
                                if w == curr {
                                    proof {
                                        assert(col_free(g0, c as int) && spec_minimax(
                                            grid_place(g0, c as int, curr),
                                            d1,
                                            next,
                                        ) == Some(curr));
                                        assert(spec_minimax(g0, depth as nat, curr) == Some(
                                            curr,
                                        ));
                                    }
                                    out = Some(curr);
                                } else {
                                    proof {
                                        assert(w == next);
                                        done_cols@ = done_cols@.insert(c as int);
                                    }
                                }
                            },
                            None => {
                                losing = false;
                                proof {
                                    done_cols@ = done_cols@.insert(c as int);
                                }
                            },
                        }
                        proof {
                            if out is None {
                                assert(done_cols@.contains(c as int));
                                assert forall|c2: int|
                                    #![trigger col_free(g0, c2)]
                                    0 <= c2 < 7 && col_free(g0, c2) implies done_cols@.contains(
                                    c2,
                                ) || exists|x: (u64, u64)|
                                    heap_contents(nexts).count(x) > 0 && (
                                    #[trigger] queue_item_ok(g0, curr, x)) && x.1 == c2 by {
                                    if !done_cols@.contains(c2) {
                                        assert(c2 != c);
                                        let x = choose|x: (u64, u64)|
                                            pre_ms.count(x) > 0 && (#[trigger] queue_item_ok(
                                                g0,
                                                curr,
                                                x,
                                            )) && x.1 == c2;
                                        assert(x != m);
                                        assert(heap_contents(nexts).count(x) > 0);
                                    }
                                }
                            }
                        }
                    },
                    None => {
                        proof {
                            assert(false);
                        }
                    },
                }
            },
        }
    }
    if out.is_none() {
        proof {
            assert(heap_contents(nexts).len() == 0);
            assert forall|c: int| 0 <= c < 7 && col_free(g0, c) implies done_cols@.contains(
                c,
            ) by {
                if !done_cols@.contains(c) {
                    let x = choose|x: (u64, u64)|
                        heap_contents(nexts).count(x) > 0 && (#[trigger] queue_item_ok(
                            g0,
                            curr,
                            x,
                        )) && x.1 == c;
                    assert(heap_contents(nexts).count(x) <= heap_contents(nexts).len());
                }
            }
            assert(!exists|c: int| winning_col(g0, c, curr)) by {
                if exists|c: int| winning_col(g0, c, curr) {
                    let c = choose|c: int| winning_col(g0, c, curr);
                    assert(0 <= c < 7);
                }
            }
            assert(!exists|c: int|
                #![trigger grid_place(g0, c, curr)]
                col_free(g0, c) && spec_minimax(grid_place(g0, c, curr), d1, next) == Some(
                    curr,
                )) by {
                if exists|c: int|
                    #![trigger grid_place(g0, c, curr)]
                    col_free(g0, c) && spec_minimax(grid_place(g0, c, curr), d1, next) == Some(
                        curr,
                    ) {
                    let c = choose|c: int|
                        #![trigger grid_place(g0, c, curr)]
                        col_free(g0, c) && spec_minimax(grid_place(g0, c, curr), d1, next)
                            == Some(curr);
                    assert(0 <= c < 7);
                    assert(done_cols@.contains(c));
                }
            }
        }
        if losing {
            proof {
                assert forall|c: int|
                    #![trigger grid_place(g0, c, curr)]
                    col_free(g0, c) implies spec_minimax(grid_place(g0, c, curr), d1, next)
                    == Some(next) by {
                    assert(0 <= c < 7);
                    assert(done_cols@.contains(c));
                }
                assert(spec_minimax(g0, depth as nat, curr) == Some(next));
            }
            out = Some(curr.next());
        } else {
            proof {
                let c = choose|c: int|
                    #![trigger done_cols@.contains(c)]
                    done_cols@.contains(c) && spec_minimax(grid_place(g0, c, curr), d1, next)
                        != Some(next);
                assert(col_free(g0, c));
                assert(!(forall|c2: int|
                    #![trigger grid_place(g0, c2, curr)]
                    col_free(g0, c2) ==> spec_minimax(grid_place(g0, c2, curr), d1, next)
                        == Some(next))) by {
                    assert(col_free(g0, c) && spec_minimax(grid_place(g0, c, curr), d1, next)
                        != Some(next));
                }
                assert(spec_minimax(g0, depth as nat, curr) is None);
            }
        }
    }
    let code = encode_outcome(out);
    proof {
        lemma_cache_insert_ok::<B>(cache@, k, code, g0, n, p0);
        B::lemma_canon_range(g0);
        assert(k == B::canon(g0) as u64);
    }
    let ghost pre = cache@;
    cache.insert(k, code);
    proof {
        assert(cache@ == pre.insert(k, code));
        assert forall|k2: u64| #[trigger]
            old(cache)@.contains_key(k2) implies cache@.contains_key(k2) && decode_outcome(
            cache@[k2],
        ) == decode_outcome(old(cache)@[k2]) by {
            assert(k2 != k);
            assert(pre.contains_key(k2));
            assert(cache@[k2] == pre[k2]);
        }
    }
    out
}

} // verus!
