//! One column of the bit-packed boards, stored as a byte.

use vstd::prelude::*;
use crate::basic::Token;
use crate::grid::{col_code, lemma_col_code_range, lemma_pow2n_le, pow2n, tok_bit};

verus! {

/// The bit standing for a token in the packed encoding: Yellow is 0, Red 1.
pub open spec fn spec_token_to_bit(token: Token) -> int {
    tok_bit(token)
}

/// Converts a token to its bit.
pub fn token_to_bit(token: &Token) -> (b: u8)
    ensures
        b as int == spec_token_to_bit(*token),
{
    match token {
        Token::Yellow => 0,
        Token::Red => 1,
    }
}

/// Converts a bit back to its token: zero is Yellow, anything else Red.
pub fn bit_to_token(bit: u8) -> (t: Token)
    ensures
        bit == 0 ==> t == Token::Yellow,
        bit != 0 ==> t == Token::Red,
{
    match bit {
        0 => Token::Yellow,
        _ => Token::Red,
    }
}

/// The token stack a column byte stands for: a leading 1 bit followed by
/// one bit per token, bottom to top (the top token is the least significant
/// bit).
pub open spec fn col_of_code(b: int) -> Seq<Token>
    decreases b,
{
    if b < 2 {
        Seq::empty()
    } else {
        col_of_code(b / 2).push(
            if b % 2 == 1 {
                Token::Red
            } else {
                Token::Yellow
            },
        )
    }
}

/// Decoding a byte and re-encoding the stack gives the byte back: the byte
/// is exactly the column code of its stack.
pub proof fn lemma_col_of_code_code(b: int)
    requires
        1 <= b,
    ensures
        col_code(col_of_code(b)) == b,
    decreases b,
{
    if b >= 2 {
        lemma_col_of_code_code(b / 2);
        assert(col_of_code(b).drop_last() =~= col_of_code(b / 2));
    }
}

/// The stack of a byte below 128 holds at most 6 tokens.
pub proof fn lemma_col_of_code_len(b: int)
    requires
        1 <= b < 128,
    ensures
        col_of_code(b).len() <= 6,
        pow2n(col_of_code(b).len() as int) <= b < pow2n(col_of_code(b).len() as int + 1),
{
    lemma_col_of_code_code(b);
    lemma_col_code_range(col_of_code(b));
    if col_of_code(b).len() > 6 {
        lemma_pow2n_le(7, col_of_code(b).len() as int);
        assert(pow2n(7) == 128) by {
            reveal_with_fuel(pow2n, 8);
        }
    }
}

/// A column of the BitBoard, stored as a u8.
/// Formatted with a leading 1 bit, followed by the rows from bottom to top:
/// the top token is the LSB and the bottom token is the MSB after the
/// leading 1.
#[derive(Clone, Copy, Debug, PartialEq, Eq, Hash)]
pub struct BitCol(pub u8);

impl BitCol {
    /// The token stack this column stands for.
    pub open spec fn view(self) -> Seq<Token> {
        col_of_code(self.0 as int)
    }

    /// A valid column byte: the leading marker bit is present and the stack
    /// fits the board.
    pub open spec fn inv(self) -> bool {
        1 <= self.0 < 128
    }

    /// An empty column: just the marker bit.
    pub fn empty() -> (r: Self)
        ensures
            r.inv(),
            r.view() == Seq::<Token>::empty(),
    {
        BitCol(0b00000001)
    }

    /// Counts the number of tokens in the column.
    /// Also the bit index of the leading one.
    pub fn count(&self) -> (r: usize)
        requires
            self.inv(),
        ensures
            r == self.view().len(),
    {
        proof {
            lemma_col_of_code_len(self.0 as int);
            reveal_with_fuel(pow2n, 8);
        }
        if self.0 >= 64 {
            6
        } else if self.0 >= 32 {
            5
        } else if self.0 >= 16 {
            4
        } else if self.0 >= 8 {
            3
        } else if self.0 >= 4 {
            2
        } else if self.0 >= 2 {
            1
        } else {
            0
        }
    }

    /// The column holds no token.
    pub fn is_empty(&self) -> (r: bool)
        requires
            self.inv(),
        ensures
            r == (self.view().len() == 0),
    {
        self.count() == 0
    }

    /// The column holds six tokens: no more fit.
    pub fn is_full(&self) -> (r: bool)
        requires
            self.inv(),
        ensures
            r == (self.view().len() >= 6),
    {
        self.count() >= 6
    }

    /// Gets the token at the given row in the column (0 is the bottom), or
    /// None above the stack.
    pub fn get(&self, row: usize) -> (r: Option<Token>)
        requires
            self.inv(),
            row <= 5,
        ensures
            row < self.view().len() ==> r == Some(self.view()[row as int]),
            row >= self.view().len() ==> r is None,
    {
        let ghost s = self.view();
        let n = self.count();
        if n > row {
            proof {
                lemma_col_of_code_len(self.0 as int);
                assert(self.0 >= 2) by {
                    if self.0 < 2 {
                        assert(col_of_code(self.0 as int) =~= Seq::<Token>::empty());
                    }
                }
                assert(s.take(n as int) =~= s);
            }
            // walk down from the top until the wanted row is the top bit
            let mut copy = self.0;
            let mut steps: usize = 0;
            let target = n - 1 - row;
            while steps < target
                invariant
                    s == col_of_code(self.0 as int),
                    n == s.len(),
                    row < n <= 6,
                    target == n - 1 - row,
                    steps <= target,
                    col_of_code(copy as int) =~= s.take(n - steps),
                    copy >= 2,
                decreases target - steps,
            {
                proof {
                    assert(copy / 2 == copy as int / 2);
                    assert(col_of_code(copy as int).drop_last() =~= col_of_code(copy as int / 2));
                    assert(s.take(n - steps).drop_last() =~= s.take(n - steps - 1));
                    assert(n - steps - 1 >= row + 1 >= 1);
                    assert(col_of_code(copy as int / 2).len() == n - steps - 1);
                    assert(col_of_code(copy as int / 2) != Seq::<Token>::empty());
                    assert(copy as int / 2 >= 2) by {
                        if copy as int / 2 < 2 {
                            assert(col_of_code(copy as int / 2) =~= Seq::<Token>::empty());
                        }
                    }
                }
                copy = copy / 2;
                steps = steps + 1;
            }
            proof {
                assert(col_of_code(copy as int) =~= s.take(row + 1));
                assert(s.take(row + 1).last() == s[row as int]);
            }
            Some(bit_to_token(copy % 2))
        } else {
            None
        }
    }

    /// Pop the top token from the column.
    /// The column must not be empty.
    pub fn force_pop(&mut self)
        requires
            old(self).inv(),
            old(self).view().len() >= 1,
        ensures
            final(self).inv(),
            final(self).view() == old(self).view().drop_last(),
    {
        let b0 = self.0;
        proof {
            assert(b0 >= 2) by {
                if b0 < 2 {
                    assert(col_of_code(b0 as int) =~= Seq::<Token>::empty());
                }
            }
            assert(b0 >> 1u8 == b0 / 2) by (bit_vector);
        }
        self.0 = b0 >> 1;
    }

    /// Push a token onto the column.
    /// The column must not be full.
    pub fn force_push(&mut self, token: &Token)
        requires
            old(self).inv(),
            old(self).view().len() < 6,
        ensures
            final(self).inv(),
            final(self).view() == old(self).view().push(*token),
    {
        proof {
            lemma_col_of_code_len(self.0 as int);
            assert(pow2n(6) == 64) by {
                reveal_with_fuel(pow2n, 8);
            }
            lemma_pow2n_le(self.view().len() as int + 1, 6);
            assert(self.0 < 64);
        }
        let token_bit = token_to_bit(token);
        let old_b = self.0;
        proof {
            assert(old_b < 64 && token_bit <= 1 ==> ((old_b << 1u8) | token_bit) == old_b * 2
                + token_bit) by (bit_vector);
        }
        self.0 = (old_b << 1) | token_bit;
        proof {
            assert(self.0 as int == old_b as int * 2 + token_bit as int);
            assert(self.0 as int / 2 == old_b as int);
            assert(self.0 as int % 2 == token_bit as int);
            assert(col_of_code(self.0 as int) =~= col_of_code(old_b as int).push(*token));
        }
    }

    /// Returns the underlying u8 value of the column.
    pub fn as_u8(&self) -> (r: u8)
        ensures
            r == self.0,
    {
        self.0
    }
}

} // verus!
