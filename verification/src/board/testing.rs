//! Checks of the board capability set, written once for every encoding:
//! each is a verified function, so the checks are certainties rather than
//! samples, and the runtime tests re-run them per encoding.

use vstd::prelude::*;
use crate::basic::{Position, Token};
use crate::board::{won_at, Board, MutBoard};
use crate::column;
use crate::finite_index::FiniteIndex;
use crate::grid::{
    cell_is, count_tok, curr_player_of, empty_grid, lemma_empty_count_tok, lemma_place_count_tok,
    lemma_place_unplace,
};
use crate::wins::{line4, on_line, wins_at};

verus! {

/// A fresh board has no token anywhere.
pub fn empty_is_empty<B: Board>() {
    let empty = B::empty();
    let mut c: usize = 0;
    while c < 7
        invariant
            empty.inv(),
            empty.grid() == empty_grid(),
            c <= 7,
        decreases 7 - c,
    {
        let mut rw: usize = 0;
        while rw < 6
            invariant
                empty.inv(),
                empty.grid() == empty_grid(),
                c < 7,
                rw <= 6,
            decreases 6 - rw,
        {
            let got = empty.get(&Position { col: FiniteIndex(c), row: FiniteIndex(rw) });
            assert(got is None);
            rw = rw + 1;
        }
        c = c + 1;
    }
}

/// Placing succeeds exactly six times per column, and a seventh cannot;
/// along the way, the current player alternates with the token parity.
pub fn cannot_place_in_full_column<B: Board>() {
    let mut board = B::empty();
    let mut curr = Token::START;
    proof {
        lemma_empty_count_tok(Token::Yellow);
        lemma_empty_count_tok(Token::Red);
    }
    let mut c: usize = 0;
    while c < 7
        invariant
            board.inv(),
            board.grid().len() == 7,
            c <= 7,
            forall|x: int| 0 <= x < c ==> board.grid()[x].len() == 6,
            forall|x: int| c <= x < 7 ==> board.grid()[x].len() == 0,
            count_tok(board.grid(), Token::Yellow) == count_tok(board.grid(), Token::Red) + (
            if curr == Token::Yellow {
                0int
            } else {
                1int
            }),
        decreases 7 - c,
    {
        let colx = column::Idx::raw(c);
        let mut k: usize = 0;
        while k < 6
            invariant
                board.inv(),
                board.grid().len() == 7,
                c < 7,
                k <= 6,
                colx.0 == c,
                board.grid()[c as int].len() == k,
                forall|x: int| 0 <= x < c ==> board.grid()[x].len() == 6,
                forall|x: int| c < x < 7 ==> board.grid()[x].len() == 0,
                count_tok(board.grid(), Token::Yellow) == count_tok(board.grid(), Token::Red) + (
                if curr == Token::Yellow {
                    0int
                } else {
                    1int
                }),
            decreases 6 - k,
        {
            let can = board.can_place(&colx);
            assert(can);
            let player = board.curr_player();
            assert(curr == player) by {
                assert(curr_player_of(board.grid()) == curr);
            }
            let ghost g0 = board.grid();
            let placed = board.place(&colx, &curr);
            assert(placed is Some);
            proof {
                lemma_place_count_tok(g0, c as int, curr, Token::Yellow);
                lemma_place_count_tok(g0, c as int, curr, Token::Red);
            }
            curr = curr.next();
            k = k + 1;
        }
        let can = board.can_place(&colx);
        assert(!can);
        c = c + 1;
    }
}

/// A bottom row of four Yellow tokens is a win through its fourth cell,
/// found by the detector.
pub fn won_at_basic<B: Board>() {
    let mut board = B::empty();
    let yellow = Token::Yellow;
    let red = Token::Red;
    let ghost g0 = empty_grid();
    // bottom row: Yellow in columns 0 to 3
    let _ = board.place(&column::Idx::raw(0), &yellow);
    let _ = board.place(&column::Idx::raw(1), &yellow);
    let _ = board.place(&column::Idx::raw(2), &yellow);
    let _ = board.place(&column::Idx::raw(3), &yellow);
    // a row of Red above it in columns 0 to 2
    let _ = board.place(&column::Idx::raw(0), &red);
    let _ = board.place(&column::Idx::raw(1), &red);
    let _ = board.place(&column::Idx::raw(2), &red);
    let ghost g = board.grid();
    proof {
        assert(cell_is(g, 0, 0, yellow) && cell_is(g, 1, 0, yellow) && cell_is(g, 2, 0, yellow)
            && cell_is(g, 3, 0, yellow));
        assert(line4(g, 0, 0, 1, 0, yellow));
        assert(on_line(3, 0, 0, 0, 1, 0));
        assert(wins_at(g, 3, 0));
    }
    let won = won_at(&board, &Position { col: FiniteIndex(3), row: FiniteIndex(0) });
    assert(won);
}

/// Unplacing immediately after a successful place restores the board's
/// exact abstract state: the two operations are inverse.
pub fn place_unplace_eq<B: MutBoard>() {
    let mut board = B::empty();
    let mut token = Token::START;
    let mut round: usize = 0;
    while round < 6
        invariant
            board.inv(),
            board.grid().len() == 7,
            round <= 6,
            forall|x: int| 0 <= x < 7 ==> board.grid()[x].len() == round,
        decreases 6 - round,
    {
        let mut c: usize = 0;
        while c < 7
            invariant
                board.inv(),
                board.grid().len() == 7,
                round < 6,
                c <= 7,
                forall|x: int| 0 <= x < c ==> board.grid()[x].len() == round + 1,
                forall|x: int| c <= x < 7 ==> board.grid()[x].len() == round,
            decreases 7 - c,
        {
            let ghost g0 = board.grid();
            let colx = column::Idx::raw(c);
            let placed = board.place(&colx, &token);
            assert(placed is Some);
            let pos = match placed {
                Some(p) => p,
                None => {
                    proof {
                        assert(false);
                    }
                    Position { col: colx, row: FiniteIndex(0) }
                },
            };
            board.unplace(&pos);
            proof {
                lemma_place_unplace(g0, c as int, token);
            }
            assert(board.grid() == g0);
            let replaced = board.place(&colx, &token);
            assert(replaced is Some);
            token = token.next();
            c = c + 1;
        }
        round = round + 1;
    }
}

} // verus!
