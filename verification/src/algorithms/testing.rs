//! Runs a solver against a fixed test position and reports whether its
//! outcome matches the one the position owes.

use vstd::prelude::*;
use crate::basic::Token;
use crate::board::Board;
use crate::test_positions::Position;
use crate::text::spec_read;

verus! {

/// Reads the position's board, runs the solver on it at the position's
/// depth, and tells whether the outcome is the expected one.
pub fn assert_output<B: Board, F: FnOnce(B, usize) -> Option<Token>>(pos: Position, f: F) -> (ok:
    bool)
    requires
        spec_read(pos.board@) is Ok,
        forall|b: B, d: usize| b.inv() ==> #[trigger] call_requires(f, (b, d)),
    ensures
        ok ==> exists|b: B, r: Option<Token>|
            b.inv() && b.grid() == spec_read(pos.board@).unwrap() && #[trigger] call_ensures(
                f,
                (b, pos.depth),
                r,
            ) && r == pos.winner,
        !ok ==> exists|b: B, r: Option<Token>|
            b.inv() && b.grid() == spec_read(pos.board@).unwrap() && #[trigger] call_ensures(
                f,
                (b, pos.depth),
                r,
            ) && r != pos.winner,
{
    let board = match B::read(pos.board) {
        Ok(b) => b,
        Err(_) => {
            proof {
                assert(false);
            }
            B::empty()
        },
    };
    let ghost gb = board;
    let winner = f(board, pos.depth);
    match (winner, pos.winner) {
        (None, None) => true,
        (Some(a), Some(b)) => a == b,
        _ => false,
    }
}

} // verus!
