//! An exact solver for 7x6 connect-four positions within a bounded search
//! depth: board encodings, win detection, symmetry reduction, transposition
//! caching, and the recursive minimax search itself.

pub mod algorithms;
pub mod basic;
pub mod board;
pub mod column;
pub mod finite_index;
pub mod game;
pub mod grid;
pub mod wins;
pub mod row;
pub mod test_positions;
pub mod text;
