//! Board capability tests, run against every encoding.

use connect_four::basic::{Position, Token};
use connect_four::board::array_board::ArrayBoard;
use connect_four::board::bit_board::BitBoard;
use connect_four::board::count_bit_board::CountBitBoard;
use connect_four::board::moves::Moves;
use connect_four::board::moves_board::MovesBoard;
use connect_four::board::from_moves;
use connect_four::board::symm_board::SymmBoard;
use connect_four::board::symmetric_bit_board::SymmetricBitBoard;
use connect_four::board::testing::{
    cannot_place_in_full_column, empty_is_empty, place_unplace_eq, won_at_basic,
};
use connect_four::board::{flipped, next_boards, won_at, Board, CloneBoard, MutBoard};
use connect_four::column::Idx as ColIdx;
use connect_four::finite_index::FiniteIndex;
use connect_four::row::Idx as RowIdx;

fn won_at_horizontal<B: MutBoard>() {
    let mut board = B::empty();

    for c in 0..4usize {
        let col = ColIdx::raw(c);
        board.place(&col, &Token::Red);
    }

    let cell = Position {
        col: ColIdx::try_new(3).unwrap(),
        row: RowIdx::try_new(0).unwrap(),
    };
    assert!(won_at(&board, &cell));
}

#[test]
fn test() {
    won_at_horizontal::<ArrayBoard>();
}

#[test]
fn test_symmetry() {
    let mut board_a = SymmBoard::empty();
    let mut board_b = SymmBoard::empty();
    let token = Token::START;
    for _ in 0..6 {
        for c in 0..7usize {
            let col = ColIdx::raw(c);
            board_a.place(&col, &token).unwrap();
            board_b.place(&col.flipped(), &token).unwrap();

            assert_eq!(board_a, board_b, "Symmetric SymmBoards are not equal");
            assert_eq!(
                board_a.key(),
                board_b.key(),
                "Symmetric SymmBoards have different hashes"
            );
        }
    }
}

fn board_suite<B: MutBoard>() {
    empty_is_empty::<B>();
    cannot_place_in_full_column::<B>();
    won_at_basic::<B>();
    place_unplace_eq::<B>();
}

#[test]
fn array_board_suite() {
    board_suite::<ArrayBoard>();
}

#[test]
fn bit_board_suite() {
    board_suite::<BitBoard>();
}

#[test]
fn symm_board_suite() {
    board_suite::<SymmBoard>();
}

#[test]
fn symmetric_bit_board_suite() {
    board_suite::<SymmetricBitBoard>();
}

#[test]
fn count_bit_board_suite() {
    board_suite::<CountBitBoard>();
}

#[test]
fn moves_suite() {
    board_suite::<Moves>();
}

#[test]
fn moves_board_suite() {
    board_suite::<MovesBoard>();
}

#[test]
fn from_moves_replays_the_move_list() {
    let mut record = Moves::empty();
    let mut token = Token::START;
    for c in [3usize, 3, 2, 4, 2] {
        record.place(&ColIdx::raw(c), &token).unwrap();
        token = token.next();
    }
    let board: BitBoard = from_moves(&record);
    for c in 0..7usize {
        for r in 0..6usize {
            let pos = Position { col: FiniteIndex(c), row: FiniteIndex(r) };
            assert_eq!(board.get(&pos), record.get(&pos));
        }
    }
    assert_eq!(board.curr_player(), record.curr_player());
}

#[test]
fn moves_board_force_place_lands_on_top() {
    let mut board = MovesBoard::empty();
    let pos = board.force_place(&ColIdx::raw(5), &Token::Yellow);
    assert_eq!(pos.col.0, 5);
    assert_eq!(pos.row.0, 0);
    let pos2 = board.force_place(&ColIdx::raw(5), &Token::Red);
    assert_eq!(pos2.row.0, 1);
    assert_eq!(board.count_in_column(&ColIdx::raw(5)), 2);
}

fn curr_player_alternates<B: Board>() {
    let mut board = B::empty();
    let mut curr = Token::START;
    for c in 0..7usize {
        let col = ColIdx::raw(c);
        for _ in 0..6 {
            assert!(board.can_place(&col));
            assert_eq!(curr, board.curr_player());
            let pos = board.place(&col, &curr);
            assert!(pos.is_some());
            curr = curr.next();
        }
        assert!(!board.can_place(&col));
    }
}

#[test]
fn array_board_curr_player() {
    curr_player_alternates::<ArrayBoard>();
}

#[test]
fn bit_board_curr_player() {
    curr_player_alternates::<BitBoard>();
}

// the empty board: no cell occupied, every column placeable, Yellow to move
fn empty_board_state<B: Board>() {
    let board = B::empty();
    for c in 0..7usize {
        for r in 0..6usize {
            assert!(board
                .get(&Position { col: FiniteIndex(c), row: FiniteIndex(r) })
                .is_none());
        }
        assert!(board.can_place(&ColIdx::raw(c)));
    }
    assert_eq!(board.curr_player(), Token::Yellow);
}

#[test]
fn empty_board_state_all() {
    empty_board_state::<ArrayBoard>();
    empty_board_state::<BitBoard>();
    empty_board_state::<SymmBoard>();
    empty_board_state::<SymmetricBitBoard>();
    empty_board_state::<CountBitBoard>();
}

fn won_at_read<B: Board>() {
    let board = B::read(
        "|       |
         |       |
         |       |
         |RRR    |
         |YYYY   |",
    )
    .unwrap();
    let cell = Position { col: ColIdx::raw(3), row: RowIdx::raw(0) };
    assert!(won_at(&board, &cell));
    assert_eq!(board.get(&cell), Some(Token::Yellow));
}

#[test]
fn won_at_read_all() {
    won_at_read::<ArrayBoard>();
    won_at_read::<BitBoard>();
    won_at_read::<SymmBoard>();
    won_at_read::<CountBitBoard>();
}

#[test]
fn place_unplace_restores_exactly() {
    let mut board = ArrayBoard::empty();
    let mut token = Token::START;
    for _ in 0..6 {
        for c in 0..7usize {
            let col = ColIdx::raw(c);
            let before = board;
            let pos = board.place(&col, &token).unwrap();
            board.unplace(&pos);
            assert_eq!(board, before);
            board.place(&col, &token);
            token = token.next();
        }
    }
}

#[test]
fn place_unplace_restores_exactly_bits() {
    let mut board = BitBoard::empty();
    let mut token = Token::START;
    for _ in 0..6 {
        for c in 0..7usize {
            let col = ColIdx::raw(c);
            let before = board;
            let pos = board.place(&col, &token).unwrap();
            board.unplace(&pos);
            assert_eq!(board, before);
            board.place(&col, &token);
            token = token.next();
        }
    }
}

#[test]
fn mirrored_boards_compare_and_hash_equal_only_then() {
    // a board and its mirror compare equal and share the key
    let mut a = SymmBoard::empty();
    let mut b = SymmBoard::empty();
    a.place(&ColIdx::raw(0), &Token::Yellow).unwrap();
    b.place(&ColIdx::raw(6), &Token::Yellow).unwrap();
    assert_eq!(a, b);
    assert_eq!(a.key(), b.key());
    // genuinely distinct, non-mirrored boards do neither
    let mut cboard = SymmBoard::empty();
    cboard.place(&ColIdx::raw(1), &Token::Yellow).unwrap();
    assert!(a != cboard);
    assert!(a.key() != cboard.key());
}

#[test]
fn next_boards_skips_full_columns() {
    let mut board = BitBoard::empty();
    let mut token = Token::START;
    for _ in 0..6 {
        board.place(&ColIdx::raw(2), &token).unwrap();
        token = token.next();
    }
    let children = next_boards(&board, &token);
    assert_eq!(children.len(), 6);
    for (child, cell) in &children {
        assert!(cell.col.0 != 2);
        assert_eq!(child.get(cell), Some(token));
    }
}

#[test]
fn flipped_mirrors_every_cell() {
    let board = BitBoard::read(
        "|.......|
         |.......|
         |.......|
         |..Y....|
         |..RY...|
         |.YRR..Y|",
    )
    .unwrap();
    let mirror = flipped(&board);
    for c in 0..7usize {
        for r in 0..6usize {
            let here = Position { col: FiniteIndex(c), row: FiniteIndex(r) };
            let there = Position { col: FiniteIndex(6 - c), row: FiniteIndex(r) };
            assert_eq!(board.get(&here), mirror.get(&there));
        }
    }
}

#[test]
fn read_rejects_bad_character() {
    let r = ArrayBoard::read("|..x....|");
    assert!(r.is_err());
}

#[test]
fn read_rejects_imbalanced_counts() {
    let r = ArrayBoard::read("|YY.....|");
    assert!(r.is_err());
}

#[test]
fn read_accepts_balanced_board() {
    let r = ArrayBoard::read("|YR.....|");
    assert!(r.is_ok());
}

// display then read is the identity: a rendered board reads back exactly
#[test]
fn read_back_rendered_board() {
    let mut board = BitBoard::empty();
    let mut token = Token::START;
    for c in [3usize, 3, 2, 0, 6, 2, 1] {
        board.place(&ColIdx::raw(c), &token).unwrap();
        token = token.next();
    }
    let rendered = board.to_string();
    let back = BitBoard::read(rendered.as_str()).unwrap();
    assert_eq!(back, board);
    let empty_back = SymmBoard::read(SymmBoard::empty().to_string().as_str()).unwrap();
    assert_eq!(empty_back, SymmBoard::empty());
}

#[test]
fn to_string_renders_rows_top_down() {
    let mut board = ArrayBoard::empty();
    board.place(&ColIdx::raw(0), &Token::Yellow).unwrap();
    board.place(&ColIdx::raw(1), &Token::Red).unwrap();
    let expected = "\n|       |\n|       |\n|       |\n|       |\n|       |\n|YR     |\n+--------+\n";
    assert_eq!(board.to_string(), expected);
}
