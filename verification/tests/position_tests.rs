//! Tests of positions, bounded indices, and the packed columns.

use connect_four::basic::{Position, Token};
use connect_four::board::bit_col::BitCol;
use connect_four::column::Idx as ColIdx;
use connect_four::finite_index::FiniteIndex;
use connect_four::row::Idx as RowIdx;

#[test]
fn finite_index_saturates() {
    let i: ColIdx = FiniteIndex(3);
    assert_eq!(i.add(10).0, 6);
    assert_eq!(i.sub(10).0, 0);
    assert_eq!(i.shift(-2).0, 1);
    assert_eq!(i.shift(9).0, 6);
    assert_eq!(i.shift(-9).0, 0);
    assert_eq!(ColIdx::raw(5).0, 5);
    assert!(ColIdx::try_new(6).is_some());
    assert!(ColIdx::try_new(7).is_none());
}

#[test]
fn column_flipped_mirrors() {
    assert_eq!(ColIdx::raw(0).flipped().0, 6);
    assert_eq!(ColIdx::raw(3).flipped().0, 3);
    assert_eq!(ColIdx::raw(5).flipped().0, 1);
}

#[test]
fn row_neighbourhood_caps_at_edges() {
    let pos = Position { col: FiniteIndex(1), row: FiniteIndex(2) };
    let around: Vec<Position> = pos.row_neighbourhood();
    let cols: Vec<usize> = around.iter().map(|p| p.col.0).collect();
    assert_eq!(cols, vec![0, 1, 2, 3, 4]);
    for p in &around {
        assert_eq!(p.row.0, 2);
    }
}

#[test]
fn col_neighbourhood_caps_at_edges() {
    let pos = Position { col: FiniteIndex(4), row: FiniteIndex(5) };
    let around: Vec<Position> = pos.col_neighbourhood();
    let rows: Vec<usize> = around.iter().map(|p| p.row.0).collect();
    assert_eq!(rows, vec![2, 3, 4, 5]);
}

#[test]
fn diag1_neighbourhood_runs_bottom_left_to_top_right() {
    let pos = Position { col: FiniteIndex(2), row: FiniteIndex(1) };
    let around: Vec<Position> = pos.diag1_neighbourhood();
    let cells: Vec<(usize, usize)> = around.iter().map(|p| (p.col.0, p.row.0)).collect();
    assert_eq!(cells, vec![(1, 0), (2, 1), (3, 2), (4, 3), (5, 4)]);
}

#[test]
fn diag2_neighbourhood_runs_top_left_to_bottom_right() {
    let pos = Position { col: FiniteIndex(2), row: FiniteIndex(1) };
    let around: Vec<Position> = pos.diag2_neighbourhood();
    let cells: Vec<(usize, usize)> = around.iter().map(|p| (p.col.0, p.row.0)).collect();
    assert_eq!(cells, vec![(0, 3), (1, 2), (2, 1), (3, 0)]);
}

#[test]
fn position_flipped_and_symm_pair() {
    let pos = Position { col: FiniteIndex(1), row: FiniteIndex(4) };
    assert_eq!(pos.flipped().col.0, 5);
    assert_eq!(pos.flipped().row.0, 4);
    let (left, right) = pos.symm_pair().unwrap();
    assert_eq!(left.col.0, 1);
    assert_eq!(right.col.0, 5);
    let centre = Position { col: FiniteIndex(3), row: FiniteIndex(0) };
    assert!(centre.symm_pair().is_none());
    let far = Position { col: FiniteIndex(6), row: FiniteIndex(0) };
    let (left2, right2) = far.symm_pair().unwrap();
    assert_eq!(left2.col.0, 0);
    assert_eq!(right2.col.0, 6);
}

#[test]
fn bit_col_pushes_and_pops() {
    let mut col = BitCol::empty();
    assert!(col.is_empty());
    assert_eq!(col.count(), 0);
    assert_eq!(col.as_u8(), 0b1);
    col.force_push(&Token::Yellow);
    col.force_push(&Token::Red);
    assert_eq!(col.count(), 2);
    assert_eq!(col.as_u8(), 0b101);
    assert_eq!(col.get(0), Some(Token::Yellow));
    assert_eq!(col.get(1), Some(Token::Red));
    assert_eq!(col.get(2), None);
    col.force_pop();
    assert_eq!(col.count(), 1);
    assert_eq!(col.as_u8(), 0b10);
    for _ in 0..5 {
        col.force_push(&Token::Yellow);
    }
    assert!(col.is_full());
}

#[test]
fn token_next_alternates() {
    assert_eq!(Token::Yellow.next(), Token::Red);
    assert_eq!(Token::Red.next(), Token::Yellow);
    assert_eq!(Token::START, Token::Yellow);
}
