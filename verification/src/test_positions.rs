//! Fixed test positions: board texts with their known bounded outcomes.

use vstd::prelude::*;
use crate::basic::Token;

verus! {

/// A test position: a board text, the exact outcome owed at the given
/// depth, and that depth.
pub struct Position {
    pub board: &'static str,
    pub winner: Option<Token>,
    pub depth: usize,
}

/// Yellow completes a bottom row of four at once.
pub fn easy_0() -> (r: Position)
    ensures
        r.winner == Some(Token::Yellow),
        r.depth == 1,
{
    Position {
        board: "|.......|
                |.......|
                |.......|
                |.......|
                |RRRR...|
                |YYYY...|",
        winner: Some(Token::Yellow),
        depth: 1,
    }
}

/// A nearly full board where Yellow forces a win within ten plies.
pub fn easy_1() -> (r: Position)
    ensures
        r.winner == Some(Token::Yellow),
        r.depth == 10,
{
    Position {
        board: "|RRY.R.Y|
                |YYR.Y.R|
                |RYR.R.R|
                |YRRYY.Y|
                |RRYRY.Y|
                |YYRYR.Y|",
        winner: Some(Token::Yellow),
        depth: 10,
    }
}

/// A nearly full board where Red forces a win within eleven plies.
pub fn easy_2() -> (r: Position)
    ensures
        r.winner == Some(Token::Red),
        r.depth == 11,
{
    Position {
        board: "|RRY.R..|
                |YYR.Y..|
                |RYR.R..|
                |YRRYYY.|
                |RRYRYR.|
                |YYRYRYY|",
        winner: Some(Token::Red),
        depth: 11,
    }
}

/// A middlegame position that stays undetermined to depth twenty.
pub fn medium_0() -> (r: Position)
    ensures
        r.winner == None::<Token>,
        r.depth == 20,
{
    Position {
        board: "|.......|
                |Y.Y.R..|
                |R.Y.R..|
                |YRR.Y..|
                |YRYYR..|
                |YYRYR.R|",
        winner: None,
        depth: 20,
    }
}

/// A middlegame position where Red forces a win within twenty-four plies.
pub fn medium_1() -> (r: Position)
    ensures
        r.winner == Some(Token::Red),
        r.depth == 24,
{
    Position {
        board: "|.......|
                |..Y.Y..|
                |..Y.R..|
                |..RRY..|
                |.RYRR.Y|
                |YYRYR.R|",
        winner: Some(Token::Red),
        depth: 24,
    }
}

/// A sparse opening position whose forced win for Red lies exactly
/// thirty-five plies out: no shallower search may report a result.
pub fn hard_2() -> (r: Position)
    ensures
        r.winner == Some(Token::Red),
        r.depth == 35,
{
    Position {
        board: "|.......|
                |.......|
                |..Y....|
                |..RY...|
                |..YR...|
                |..RY...|",
        winner: Some(Token::Red),
        depth: 35,
    }
}

} // verus!
