//! The mathematical model of a board: a sequence of 7 columns, each the
//! sequence of tokens stacked in it from the bottom up.

use vstd::prelude::*;
use crate::basic::Token;

verus! {

/// The abstract value of a board: 7 columns, each a stack of tokens
/// (index 0 is the bottom of the column).
pub type Grid = Seq<Seq<Token>>;

/// A well-formed grid: exactly 7 columns, none holding more than 6 tokens.
pub open spec fn grid_wf(g: Grid) -> bool {
    &&& g.len() == 7
    &&& forall|c: int| 0 <= c < 7 ==> g[c].len() <= 6
}

/// The grid with no tokens placed.
pub open spec fn empty_grid() -> Grid {
    Seq::new(7, |c: int| Seq::empty())
}

/// The token at the given cell, or None if the cell is empty or out of range.
pub open spec fn grid_get(g: Grid, col: int, row: int) -> Option<Token> {
    if 0 <= col < g.len() && 0 <= row < g[col].len() {
        Some(g[col][row])
    } else {
        None
    }
}

/// The cell at (col, row) holds token `t`.
pub open spec fn cell_is(g: Grid, col: int, row: int, t: Token) -> bool {
    grid_get(g, col, row) == Some(t)
}

/// A token can be placed in the column: it is within range and not full.
pub open spec fn col_free(g: Grid, col: int) -> bool {
    0 <= col < 7 && g[col].len() < 6
}

/// The grid after appending token `t` atop column `col`.
pub open spec fn grid_place(g: Grid, col: int, t: Token) -> Grid {
    g.update(col, g[col].push(t))
}

/// The grid after removing the topmost token of column `col`.
pub open spec fn grid_unplace(g: Grid, col: int) -> Grid {
    g.update(col, g[col].drop_last())
}

/// Unplacing immediately after placing restores the exact original grid:
/// `place` and `unplace` on the same column are inverse operations.
pub proof fn lemma_place_unplace(g: Grid, col: int, t: Token)
    requires
        grid_wf(g),
        0 <= col < 7,
    ensures
        grid_unplace(grid_place(g, col, t), col) == g,
{
    assert(g[col].push(t).drop_last() =~= g[col]);
    assert(grid_unplace(grid_place(g, col, t), col) =~~= g);
}

/// Placing preserves well-formedness.
pub proof fn lemma_place_wf(g: Grid, col: int, t: Token)
    requires
        grid_wf(g),
        col_free(g, col),
    ensures
        grid_wf(grid_place(g, col, t)),
{
}

/// How placing changes each cell: the landing cell gains the token and
/// every other cell is unchanged.
pub proof fn lemma_place_get(g: Grid, col: int, t: Token)
    requires
        grid_wf(g),
        col_free(g, col),
    ensures
        grid_get(grid_place(g, col, t), col, g[col].len() as int) == Some(t),
        forall|c: int, r: int|
            !(c == col && r == g[col].len()) ==> grid_get(grid_place(g, col, t), c, r)
                == grid_get(g, c, r),
{
}

// ---------------------------------------------------------------------------
// Token counting
// ---------------------------------------------------------------------------
/// The total number of tokens in the first `n` columns.
pub open spec fn len_cols(g: Grid, n: int) -> int
    decreases n,
{
    if n <= 0 {
        0
    } else {
        len_cols(g, n - 1) + g[n - 1].len()
    }
}

/// The total number of tokens on the board.
pub open spec fn token_count(g: Grid) -> int {
    len_cols(g, 7)
}

/// Column sums are never negative.
pub proof fn lemma_len_cols_nonneg(g: Grid, n: int)
    ensures
        len_cols(g, n) >= 0,
    decreases n,
{
    if n > 0 {
        lemma_len_cols_nonneg(g, n - 1);
    }
}

/// Grids equal on their first `n` columns have the same partial count.
pub proof fn lemma_len_cols_congruence(g1: Grid, g2: Grid, n: int)
    requires
        forall|c: int| 0 <= c < n ==> g1[c].len() == g2[c].len(),
    ensures
        len_cols(g1, n) == len_cols(g2, n),
    decreases n,
{
    if n > 0 {
        lemma_len_cols_congruence(g1, g2, n - 1);
    }
}

/// Placing a token increases the count by exactly one.
pub proof fn lemma_place_count(g: Grid, col: int, t: Token)
    requires
        grid_wf(g),
        col_free(g, col),
    ensures
        token_count(grid_place(g, col, t)) == token_count(g) + 1,
    decreases 7int,
{
    let g2 = grid_place(g, col, t);
    lemma_len_cols_split(g, col);
    lemma_len_cols_split(g2, col);
    lemma_len_cols_congruence(g2, g, col);
    assert(len_cols(g2, col + 1) == len_cols(g, col + 1) + 1);
    lemma_len_cols_above(g, g2, col + 1, 7);
}

/// Columns equal from `m` on contribute the same amount to the counts.
proof fn lemma_len_cols_above(g1: Grid, g2: Grid, m: int, n: int)
    requires
        m <= n,
        forall|c: int| m <= c < n ==> g1[c].len() == g2[c].len(),
    ensures
        len_cols(g1, n) - len_cols(g1, m) == len_cols(g2, n) - len_cols(g2, m),
    decreases n - m,
{
    if n > m {
        lemma_len_cols_above(g1, g2, m, n - 1);
    }
}

/// The count up to `col + 1` is the count up to `col` plus that column.
proof fn lemma_len_cols_split(g: Grid, col: int)
    requires
        col >= 0,
    ensures
        len_cols(g, col + 1) == len_cols(g, col) + g[col].len(),
{
}

/// The empty grid holds no tokens.
pub proof fn lemma_empty_count(n: int)
    requires
        0 <= n <= 7,
    ensures
        len_cols(empty_grid(), n) == 0,
    decreases n,
{
    if n > 0 {
        lemma_empty_count(n - 1);
    }
}

// ---------------------------------------------------------------------------
// Counting tokens of one colour (for the current-player computation)
// ---------------------------------------------------------------------------
/// How many of the bottom `n` cells of column `c` hold token `t`.
pub open spec fn cnt_rows(g: Grid, c: int, t: Token, n: int) -> int
    decreases n,
{
    if n <= 0 {
        0
    } else {
        cnt_rows(g, c, t, n - 1) + if grid_get(g, c, n - 1) == Some(t) {
            1int
        } else {
            0int
        }
    }
}

/// How many cells of the first `n` columns hold token `t`.
pub open spec fn cnt_cols(g: Grid, t: Token, n: int) -> int
    decreases n,
{
    if n <= 0 {
        0
    } else {
        cnt_cols(g, t, n - 1) + cnt_rows(g, n - 1, t, 6)
    }
}

/// How many cells of the whole board hold token `t`.
pub open spec fn count_tok(g: Grid, t: Token) -> int {
    cnt_cols(g, t, 7)
}

/// The player whose turn it is, derived from the token counts:
/// Yellow unless strictly fewer Red than Yellow tokens are on the board.
pub open spec fn curr_player_of(g: Grid) -> Token {
    if count_tok(g, Token::Red) < count_tok(g, Token::Yellow) {
        Token::Red
    } else {
        Token::Yellow
    }
}

/// Placing a token does not change the colour counts of other columns.
proof fn lemma_place_cnt_rows_other(g: Grid, col: int, t: Token, c2: int, t2: Token, n: int)
    requires
        grid_wf(g),
        col_free(g, col),
        c2 != col,
    ensures
        cnt_rows(grid_place(g, col, t), c2, t2, n) == cnt_rows(g, c2, t2, n),
    decreases n,
{
    if n > 0 {
        lemma_place_cnt_rows_other(g, col, t, c2, t2, n - 1);
        lemma_place_get(g, col, t);
    }
}

/// Placing a token adds exactly its own colour to its column's count, once
/// the count reaches the landing row.
proof fn lemma_place_cnt_rows_same(g: Grid, col: int, t: Token, t2: Token, n: int)
    requires
        grid_wf(g),
        col_free(g, col),
    ensures
        cnt_rows(grid_place(g, col, t), col, t2, n) == cnt_rows(g, col, t2, n) + (if n
            > g[col].len() && t2 == t {
            1int
        } else {
            0int
        }),
    decreases n,
{
    if n > 0 {
        lemma_place_cnt_rows_same(g, col, t, t2, n - 1);
        lemma_place_get(g, col, t);
        if n - 1 == g[col].len() {
            assert(grid_get(g, col, n - 1) is None);
        }
    }
}

/// Placing a token raises exactly its own colour's count by one.
pub proof fn lemma_place_count_tok(g: Grid, col: int, t: Token, t2: Token)
    requires
        grid_wf(g),
        col_free(g, col),
    ensures
        count_tok(grid_place(g, col, t), t2) == count_tok(g, t2) + (if t2 == t {
            1int
        } else {
            0int
        }),
{
    lemma_place_cnt_cols(g, col, t, t2, 7);
}

/// The per-column colour counts of a placement, summed over the first `n`
/// columns.
proof fn lemma_place_cnt_cols(g: Grid, col: int, t: Token, t2: Token, n: int)
    requires
        grid_wf(g),
        col_free(g, col),
    ensures
        cnt_cols(grid_place(g, col, t), t2, n) == cnt_cols(g, t2, n) + (if col < n && t2 == t {
            1int
        } else {
            0int
        }),
    decreases n,
{
    if n > 0 {
        lemma_place_cnt_cols(g, col, t, t2, n - 1);
        if n - 1 == col {
            lemma_place_cnt_rows_same(g, col, t, t2, 6);
        } else {
            lemma_place_cnt_rows_other(g, col, t, n - 1, t2, 6);
        }
    }
}

/// The empty grid holds no token of either colour.
pub proof fn lemma_empty_count_tok(t: Token)
    ensures
        count_tok(empty_grid(), t) == 0,
{
    lemma_empty_cnt_cols(t, 7);
}

/// No column of the empty grid holds a token.
proof fn lemma_empty_cnt_cols(t: Token, n: int)
    requires
        0 <= n <= 7,
    ensures
        cnt_cols(empty_grid(), t, n) == 0,
    decreases n,
{
    if n > 0 {
        lemma_empty_cnt_cols(t, n - 1);
        lemma_empty_cnt_rows(t, n - 1, 6);
    }
}

/// No cell of the empty grid holds a token.
proof fn lemma_empty_cnt_rows(t: Token, c: int, n: int)
    requires
        0 <= c < 7,
    ensures
        cnt_rows(empty_grid(), c, t, n) == 0,
    decreases n,
{
    if n > 0 {
        lemma_empty_cnt_rows(t, c, n - 1);
    }
}

// ---------------------------------------------------------------------------
// Canonical integer codes
// ---------------------------------------------------------------------------
/// The bit standing for a token: Yellow is 0, Red is 1.
pub open spec fn tok_bit(t: Token) -> int {
    match t {
        Token::Yellow => 0,
        Token::Red => 1,
    }
}

/// The code of one column: a leading 1 bit followed by one bit per token,
/// bottom to top. Columns of at most 6 tokens get codes in [1, 128).
pub open spec fn col_code(s: Seq<Token>) -> int
    decreases s.len(),
{
    if s.len() == 0 {
        1
    } else {
        2 * col_code(s.drop_last()) + tok_bit(s.last())
    }
}

/// Powers of two.
pub open spec fn pow2n(n: int) -> int
    decreases n,
{
    if n <= 0 {
        1
    } else {
        2 * pow2n(n - 1)
    }
}

/// Powers of 128.
pub open spec fn pow128(n: int) -> int
    decreases n,
{
    if n <= 0 {
        1
    } else {
        128 * pow128(n - 1)
    }
}

/// Powers of two grow monotonically.
pub proof fn lemma_pow2n_le(a: int, b: int)
    requires
        a <= b,
    ensures
        pow2n(a) <= pow2n(b),
    decreases b - a,
{
    if a < b {
        lemma_pow2n_le(a, b - 1);
        lemma_pow2n_pos(b - 1);
    }
}

/// Powers of two are positive.
pub proof fn lemma_pow2n_pos(n: int)
    ensures
        pow2n(n) >= 1,
    decreases n,
{
    if n > 0 {
        lemma_pow2n_pos(n - 1);
    }
}

/// A column code lies in [2^len, 2^(len+1)): its magnitude reveals the
/// column height.
pub proof fn lemma_col_code_range(s: Seq<Token>)
    ensures
        pow2n(s.len() as int) <= col_code(s) < pow2n(s.len() as int + 1),
    decreases s.len(),
{
    if s.len() > 0 {
        lemma_col_code_range(s.drop_last());
    }
}

/// Distinct columns have distinct codes.
pub proof fn lemma_col_code_injective(s1: Seq<Token>, s2: Seq<Token>)
    requires
        col_code(s1) == col_code(s2),
    ensures
        s1 == s2,
    decreases s1.len(),
{
    lemma_col_code_range(s1);
    lemma_col_code_range(s2);
    if s1.len() < s2.len() {
        lemma_pow2n_le(s1.len() as int + 1, s2.len() as int);
        assert(false);
    }
    if s2.len() < s1.len() {
        lemma_pow2n_le(s2.len() as int + 1, s1.len() as int);
        assert(false);
    }
    if s1.len() == 0 {
        assert(s1 =~= s2);
    } else {
        assert(tok_bit(s1.last()) == tok_bit(s2.last()) && col_code(s1.drop_last()) == col_code(
            s2.drop_last(),
        )) by {
            assert(tok_bit(s1.last()) == 0 || tok_bit(s1.last()) == 1);
            assert(tok_bit(s2.last()) == 0 || tok_bit(s2.last()) == 1);
        }
        assert(s1.last() == s2.last());
        lemma_col_code_injective(s1.drop_last(), s2.drop_last());
        assert forall|i: int| 0 <= i < s1.len() implies s1[i] == s2[i] by {
            if i < s1.len() - 1 {
                assert(s1.drop_last()[i] == s2.drop_last()[i]);
            } else {
                assert(s1[i] == s1.last());
                assert(s2[i] == s2.last());
            }
        }
        assert(s1 =~= s2);
    }
}

/// The code of the first `n` columns, in base 128.
pub open spec fn grid_code_n(g: Grid, n: int) -> int
    decreases n,
{
    if n <= 0 {
        0
    } else {
        grid_code_n(g, n - 1) * 128 + col_code(g[n - 1])
    }
}

/// The canonical integer code of a whole grid: 7 base-128 digits, one per
/// column. It is injective on well-formed grids and fits in 49 bits.
pub open spec fn grid_code(g: Grid) -> int {
    grid_code_n(g, 7)
}

/// Codes of well-formed grids lie below 128^n.
pub proof fn lemma_grid_code_range(g: Grid, n: int)
    requires
        grid_wf(g),
        0 <= n <= 7,
    ensures
        0 <= grid_code_n(g, n) < pow128(n),
    decreases n,
{
    if n > 0 {
        lemma_grid_code_range(g, n - 1);
        let a = grid_code_n(g, n - 1);
        let c = col_code(g[n - 1]);
        lemma_col_code_range(g[n - 1]);
        lemma_pow2n_le(g[n - 1].len() as int + 1, 7);
        assert(pow2n(7) == 128) by {
            reveal_with_fuel(pow2n, 8);
        }
        assert(pow2n(0) == 1);
        lemma_pow2n_le(0, g[n - 1].len() as int);
        assert(1 <= c < 128);
        assert(a * 128 + c < pow128(n - 1) * 128) by (nonlinear_arith)
            requires
                a < pow128(n - 1) && c < 128 && a >= 0,
        ;
        assert(a * 128 + c >= 0) by (nonlinear_arith)
            requires
                a >= 0 && c >= 0,
        ;
    }
}

/// Equal grid codes mean equal columns.
proof fn lemma_grid_code_inj_n(g1: Grid, g2: Grid, n: int)
    requires
        grid_wf(g1),
        grid_wf(g2),
        0 <= n <= 7,
        grid_code_n(g1, n) == grid_code_n(g2, n),
    ensures
        forall|c: int| 0 <= c < n ==> g1[c] == g2[c],
    decreases n,
{
    if n > 0 {
        let a1 = grid_code_n(g1, n - 1);
        let a2 = grid_code_n(g2, n - 1);
        let c1 = col_code(g1[n - 1]);
        let c2 = col_code(g2[n - 1]);
        lemma_col_code_range(g1[n - 1]);
        lemma_col_code_range(g2[n - 1]);
        lemma_pow2n_le(g1[n - 1].len() as int + 1, 7);
        lemma_pow2n_le(g2[n - 1].len() as int + 1, 7);
        assert(pow2n(7) == 128) by {
            reveal_with_fuel(pow2n, 8);
        }
        assert(pow2n(0) == 1);
        lemma_pow2n_le(0, g1[n - 1].len() as int);
        lemma_pow2n_le(0, g2[n - 1].len() as int);
        assert(a1 == a2 && c1 == c2) by (nonlinear_arith)
            requires
                a1 * 128 + c1 == a2 * 128 + c2 && 0 <= c1 < 128 && 0 <= c2 < 128,
        ;
        lemma_col_code_injective(g1[n - 1], g2[n - 1]);
        lemma_grid_code_inj_n(g1, g2, n - 1);
    }
}

/// The grid code is injective: well-formed grids with equal codes are equal.
pub proof fn lemma_grid_code_injective(g1: Grid, g2: Grid)
    requires
        grid_wf(g1),
        grid_wf(g2),
        grid_code(g1) == grid_code(g2),
    ensures
        g1 == g2,
{
    lemma_grid_code_inj_n(g1, g2, 7);
    assert(g1 =~~= g2);
}

// ---------------------------------------------------------------------------
// Mirroring
// ---------------------------------------------------------------------------
/// The left-right mirror image of a grid about the centre column.
pub open spec fn mirror_grid(g: Grid) -> Grid {
    Seq::new(7, |c: int| g[6 - c])
}

/// Mirroring preserves well-formedness.
pub proof fn lemma_mirror_wf(g: Grid)
    requires
        grid_wf(g),
    ensures
        grid_wf(mirror_grid(g)),
{
}

/// Mirroring twice restores the grid.
pub proof fn lemma_mirror_mirror(g: Grid)
    requires
        grid_wf(g),
    ensures
        mirror_grid(mirror_grid(g)) == g,
{
    assert(mirror_grid(mirror_grid(g)) =~~= g);
}

/// Mirroring preserves the token count.
pub proof fn lemma_mirror_count(g: Grid)
    requires
        grid_wf(g),
    ensures
        token_count(mirror_grid(g)) == token_count(g),
{
    reveal_with_fuel(len_cols, 8);
    let m = mirror_grid(g);
    assert(token_count(m) == m[0].len() + m[1].len() + m[2].len() + m[3].len() + m[4].len()
        + m[5].len() + m[6].len());
    assert(token_count(g) == g[0].len() + g[1].len() + g[2].len() + g[3].len() + g[4].len()
        + g[5].len() + g[6].len());
}

/// Mirroring relates cells by flipping the column index.
pub proof fn lemma_mirror_get(g: Grid, col: int, row: int)
    requires
        grid_wf(g),
        0 <= col < 7,
    ensures
        grid_get(mirror_grid(g), col, row) == grid_get(g, 6 - col, row),
{
}

/// Placing in the mirror is mirroring the placement in the flipped column.
pub proof fn lemma_mirror_place(g: Grid, col: int, t: Token)
    requires
        grid_wf(g),
        0 <= col < 7,
    ensures
        grid_place(mirror_grid(g), col, t) == mirror_grid(grid_place(g, 6 - col, t)),
{
    assert(grid_place(mirror_grid(g), col, t) =~~= mirror_grid(grid_place(g, 6 - col, t)));
}

/// The canonical code of a grid up to mirroring: the smaller of the codes of
/// the grid and of its mirror image. Mirrored grids share it; nothing else
/// collides on it.
pub open spec fn symm_code(g: Grid) -> int {
    let a = grid_code(g);
    let b = grid_code(mirror_grid(g));
    if a <= b {
        a
    } else {
        b
    }
}

/// Equal symmetry codes mean equal grids up to mirroring.
pub proof fn lemma_symm_code_characterises(g1: Grid, g2: Grid)
    requires
        grid_wf(g1),
        grid_wf(g2),
    ensures
        symm_code(g1) == symm_code(g2) <==> (g1 == g2 || g1 == mirror_grid(g2)),
{
    lemma_mirror_wf(g1);
    lemma_mirror_wf(g2);
    lemma_mirror_mirror(g1);
    lemma_mirror_mirror(g2);
    if symm_code(g1) == symm_code(g2) {
        if grid_code(g1) <= grid_code(mirror_grid(g1)) {
            if grid_code(g2) <= grid_code(mirror_grid(g2)) {
                lemma_grid_code_injective(g1, g2);
            } else {
                lemma_grid_code_injective(g1, mirror_grid(g2));
            }
        } else {
            if grid_code(g2) <= grid_code(mirror_grid(g2)) {
                lemma_grid_code_injective(mirror_grid(g1), g2);
                assert(g1 == mirror_grid(g2));
            } else {
                lemma_grid_code_injective(mirror_grid(g1), mirror_grid(g2));
                assert(g1 == g2);
            }
        }
    }
}

/// Powers of 128 are positive and grow monotonically.
pub proof fn lemma_pow128_le(a: int, b: int)
    requires
        a <= b,
    ensures
        1 <= pow128(a) || a < 0,
        pow128(a) <= pow128(b),
    decreases b - a,
{
    lemma_pow128_pos(a);
    lemma_pow128_pos(b);
    if a < b {
        lemma_pow128_le(a, b - 1);
    }
}

/// Powers of 128 are positive.
pub proof fn lemma_pow128_pos(n: int)
    ensures
        pow128(n) >= 1,
    decreases n,
{
    if n > 0 {
        lemma_pow128_pos(n - 1);
    }
}

/// Extending a prefix by one token doubles its code and adds the token bit.
pub proof fn lemma_col_code_take(s: Seq<Token>, n: int)
    requires
        0 <= n < s.len(),
    ensures
        col_code(s.take(n + 1)) == 2 * col_code(s.take(n)) + tok_bit(s[n]),
{
    assert(s.take(n + 1).drop_last() =~= s.take(n));
    assert(s.take(n + 1).last() == s[n]);
}

/// The full prefix of a column is the column.
pub proof fn lemma_col_code_take_all(s: Seq<Token>)
    ensures
        col_code(s.take(s.len() as int)) == col_code(s),
{
    assert(s.take(s.len() as int) =~= s);
}

} // verus!
