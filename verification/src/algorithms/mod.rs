//! The solvers: recursive exhaustive adversarial search over a board, in
//! several variants that differ only in running time, never in outcome.

pub mod cache;
pub mod heap;
pub mod minimax_basic;
pub mod minimax_cached;
pub mod minimax_counting;
pub mod minimax_sneaky;
pub mod minimax_symm;
pub mod testing;
