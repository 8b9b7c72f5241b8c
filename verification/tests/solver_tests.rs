//! Solver tests: fixed positions with known outcomes, and the agreement of
//! every solver variant on the same positions.

use connect_four::algorithms::minimax_basic::{minimax_clone, minimax_mut};
use connect_four::algorithms::minimax_cached::minimax_cached;
use connect_four::algorithms::minimax_counting::minimax_counting;
use connect_four::algorithms::minimax_sneaky::{minimax_sneaky_copy, minimax_sneaky_mut};
use connect_four::algorithms::minimax_symm::minimax_symm;
use connect_four::algorithms::testing::assert_output;
use connect_four::basic::Token;
use connect_four::board::array_board::ArrayBoard;
use connect_four::board::bit_board::BitBoard;
use connect_four::board::symm_board::SymmBoard;
use connect_four::board::{Board, CloneBoard, MutBoard};
use connect_four::test_positions::{easy_0, easy_1, easy_2, hard_2, medium_0, medium_1, Position};

fn run_mut<B: MutBoard>(pos: Position) -> bool {
    assert_output::<B, _>(pos, |mut b: B, d| {
        let curr = b.curr_player();
        minimax_mut(&mut b, d, curr)
    })
}

fn run_clone<B: CloneBoard>(pos: Position) -> bool {
    assert_output::<B, _>(pos, |b: B, d| {
        let curr = b.curr_player();
        minimax_clone(b, d, curr)
    })
}

fn run_sneaky_copy<B: CloneBoard>(pos: Position) -> bool {
    assert_output::<B, _>(pos, |b: B, d| {
        let curr = b.curr_player();
        minimax_sneaky_copy(&b, d, curr)
    })
}

fn run_sneaky_mut<B: MutBoard>(pos: Position) -> bool {
    assert_output::<B, _>(pos, |mut b: B, d| {
        let curr = b.curr_player();
        minimax_sneaky_mut(&mut b, d, curr)
    })
}

fn run_cached<B: CloneBoard>(pos: Position) -> bool {
    assert_output::<B, _>(pos, |b: B, d| {
        let curr = b.curr_player();
        minimax_cached(b, d, curr)
    })
}

fn run_counting<B: CloneBoard>(pos: Position) -> bool {
    assert_output::<B, _>(pos, |b: B, d| {
        let curr = b.curr_player();
        minimax_counting(b, d, curr)
    })
}

fn run_symm<B: CloneBoard>(pos: Position) -> bool {
    assert_output::<B, _>(pos, |b: B, d| {
        let curr = b.curr_player();
        minimax_symm(b, d, curr)
    })
}

#[test]
fn array_board_on_easy_positions() {
    assert!(run_mut::<ArrayBoard>(easy_0()), "Incorrect result.");
    assert!(run_mut::<ArrayBoard>(easy_1()), "Incorrect result.");
    assert!(run_mut::<ArrayBoard>(easy_2()), "Incorrect result.");
    assert!(run_clone::<ArrayBoard>(easy_0()), "Incorrect result.");
    assert!(run_clone::<ArrayBoard>(easy_1()), "Incorrect result.");
    assert!(run_clone::<ArrayBoard>(easy_2()), "Incorrect result.");
}

#[test]
fn bit_board_on_easy_positions() {
    assert!(run_mut::<BitBoard>(easy_0()), "Incorrect result.");
    assert!(run_mut::<BitBoard>(easy_1()), "Incorrect result.");
    assert!(run_mut::<BitBoard>(easy_2()), "Incorrect result.");
    assert!(run_sneaky_copy::<BitBoard>(easy_0()), "Incorrect result.");
    assert!(run_sneaky_copy::<BitBoard>(easy_1()), "Incorrect result.");
    assert!(run_sneaky_copy::<BitBoard>(easy_2()), "Incorrect result.");
    assert!(run_sneaky_mut::<BitBoard>(easy_0()), "Incorrect result.");
    assert!(run_sneaky_mut::<BitBoard>(easy_1()), "Incorrect result.");
    assert!(run_sneaky_mut::<BitBoard>(easy_2()), "Incorrect result.");
}

#[test]
fn symm_board_on_easy_positions() {
    assert!(run_clone::<SymmBoard>(easy_0()), "Incorrect result.");
    assert!(run_clone::<SymmBoard>(easy_1()), "Incorrect result.");
    assert!(run_clone::<SymmBoard>(easy_2()), "Incorrect result.");
}

#[test]
fn cached_on_easy_positions() {
    assert!(run_cached::<ArrayBoard>(easy_0()), "Incorrect result.");
    assert!(run_cached::<BitBoard>(easy_1()), "Incorrect result.");
    assert!(run_cached::<SymmBoard>(easy_2()), "Incorrect result.");
}

#[test]
fn counting_on_easy_positions() {
    assert!(run_counting::<ArrayBoard>(easy_0()), "Incorrect result.");
    assert!(run_counting::<BitBoard>(easy_1()), "Incorrect result.");
    assert!(run_counting::<SymmBoard>(easy_2()), "Incorrect result.");
}

#[test]
fn symm_on_easy_positions() {
    assert!(run_symm::<ArrayBoard>(easy_0()), "Incorrect result.");
    assert!(run_symm::<BitBoard>(easy_1()), "Incorrect result.");
    assert!(run_symm::<SymmBoard>(easy_2()), "Incorrect result.");
}

#[test]
fn cached_on_medium_positions() {
    assert!(run_cached::<BitBoard>(medium_0()), "Incorrect result.");
    assert!(run_cached::<SymmBoard>(medium_1()), "Incorrect result.");
}

#[test]
fn symm_on_medium_positions() {
    assert!(run_symm::<SymmBoard>(medium_0()), "Incorrect result.");
    assert!(run_symm::<BitBoard>(medium_1()), "Incorrect result.");
}

#[test]
fn counting_on_medium_position() {
    assert!(run_counting::<BitBoard>(medium_0()), "Incorrect result.");
}

// the empty starting position holds no forced win within six plies
#[test]
fn empty_board_depth_six_is_undetermined() {
    let board = BitBoard::empty();
    let outcome = minimax_cached(board, 6, Token::Yellow);
    assert_eq!(outcome, None);
}

// a thirty-five-ply forced win reports nothing at shallow depths
#[test]
fn hard_position_reports_nothing_early() {
    let pos = hard_2();
    let board = BitBoard::read(pos.board).unwrap();
    let curr = board.curr_player();
    let outcome = minimax_symm(board, 12, curr);
    assert_eq!(outcome, None);
}

// every solver variant agrees on the same positions
#[test]
fn variants_agree_on_outcomes() {
    for pos in [easy_0(), easy_1(), easy_2()] {
        let board = BitBoard::read(pos.board).unwrap();
        let curr = board.curr_player();
        let mut mutable = board;
        let a = minimax_mut(&mut mutable, pos.depth, curr);
        let b = minimax_clone(board, pos.depth, curr);
        let c = minimax_sneaky_copy(&board, pos.depth, curr);
        let mut mutable2 = board;
        let d = minimax_sneaky_mut(&mut mutable2, pos.depth, curr);
        let e = minimax_cached(board, pos.depth, curr);
        let f = minimax_counting(board, pos.depth, curr);
        let g = minimax_symm(board, pos.depth, curr);
        assert_eq!(a, b);
        assert_eq!(b, c);
        assert_eq!(c, d);
        assert_eq!(d, e);
        assert_eq!(e, f);
        assert_eq!(f, g);
        assert_eq!(a, pos.winner);
    }
}

// the in-place variants leave the board exactly as it came
#[test]
fn mut_variants_restore_the_board() {
    let pos = easy_1();
    let board = BitBoard::read(pos.board).unwrap();
    let curr = board.curr_player();
    let mut working = board;
    minimax_mut(&mut working, pos.depth, curr);
    assert_eq!(working, board);
    minimax_sneaky_mut(&mut working, pos.depth, curr);
    assert_eq!(working, board);
}
