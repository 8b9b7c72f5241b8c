//! The textual board format: rows between `|` delimiters, top row first, a
//! `Y` or `R` per occupied cell, `.` or a space per empty cell, and an
//! optional trailing border line beginning with `+` or `-`. Reading replays
//! the rows bottom-up so each column's stacking order is reconstructed
//! exactly.

use vstd::prelude::*;
use crate::basic::Token;
use crate::grid::{
    col_free, count_tok, empty_grid, grid_get, grid_place, grid_wf, lemma_empty_count_tok,
    lemma_place_count_tok, Grid,
};

verus! {

/// Why a board text was rejected.
#[derive(Clone, Copy, PartialEq, Eq, Structural, Debug)]
pub enum ReadError {
    /// A character that is not a token, a blank, a delimiter or a border.
    BadChar,
    /// A token placed beyond the seventh column of a row.
    RowTooWide,
    /// The Yellow and Red counts differ by more than one.
    Imbalanced,
}

/// The state of the reader: still going, stopped at a border line, or
/// failed.
pub enum ReadState {
    /// Still reading, with the board so far and the Yellow-minus-Red count.
    Going(Grid, int),
    /// A border character ended the board representation early.
    Halted(Grid, int),
    /// The text is rejected.
    Bad(ReadError),
}

/// Splits a character sequence at every `|`, keeping empty pieces.
pub open spec fn split_acc(s: Seq<char>, i: int, cur: Seq<char>, acc: Seq<Seq<char>>) -> Seq<
    Seq<char>,
>
    decreases s.len() - i,
{
    if i < 0 || i >= s.len() {
        acc.push(cur)
    } else if s[i] == '|' {
        split_acc(s, i + 1, Seq::empty(), acc.push(cur))
    } else {
        split_acc(s, i + 1, cur.push(s[i]), acc)
    }
}

/// The segments of a board text: the pieces between `|` delimiters.
pub open spec fn spec_split(s: Seq<char>) -> Seq<Seq<char>> {
    split_acc(s, 0, Seq::empty(), Seq::empty())
}

/// A whitespace character, as the reader skips them.
pub open spec fn is_blank_char(c: char) -> bool {
    c == ' ' || c == '\n' || c == '\r' || c == '\t'
}

/// A segment holding only whitespace: not a row, skipped entirely.
pub open spec fn is_blank(seg: Seq<char>) -> bool {
    forall|i: int| 0 <= i < seg.len() ==> is_blank_char(#[trigger] seg[i])
}

/// Reads one row segment from character `j` on: tokens are dropped into the
/// column given by their position in the row, blanks are skipped, a border
/// character halts, anything else is rejected.
pub open spec fn read_seg(g: Grid, diff: int, seg: Seq<char>, j: int) -> ReadState
    decreases seg.len() - j,
{
    if j < 0 || j >= seg.len() {
        ReadState::Going(g, diff)
    } else if seg[j] == 'Y' {
        if j > 6 {
            ReadState::Bad(ReadError::RowTooWide)
        } else if col_free(g, j) {
            read_seg(grid_place(g, j, Token::Yellow), diff + 1, seg, j + 1)
        } else {
            read_seg(g, diff + 1, seg, j + 1)
        }
    } else if seg[j] == 'R' {
        if j > 6 {
            ReadState::Bad(ReadError::RowTooWide)
        } else if col_free(g, j) {
            read_seg(grid_place(g, j, Token::Red), diff - 1, seg, j + 1)
        } else {
            read_seg(g, diff - 1, seg, j + 1)
        }
    } else if seg[j] == '.' || seg[j] == ' ' {
        read_seg(g, diff, seg, j + 1)
    } else if seg[j] == '+' || seg[j] == '-' {
        ReadState::Halted(g, diff)
    } else {
        ReadState::Bad(ReadError::BadChar)
    }
}

/// Reads the segments from index `k` down to 0: the text's last row is the
/// board's bottom row, so rows are replayed bottom-up.
pub open spec fn read_segs(segs: Seq<Seq<char>>, k: int, g: Grid, diff: int) -> ReadState
    decreases k + 1,
{
    if k < 0 {
        ReadState::Going(g, diff)
    } else if is_blank(segs[k]) {
        read_segs(segs, k - 1, g, diff)
    } else {
        match read_seg(g, diff, segs[k], 0) {
            ReadState::Going(g2, d2) => read_segs(segs, k - 1, g2, d2),
            ReadState::Halted(g2, d2) => ReadState::Halted(g2, d2),
            ReadState::Bad(e) => ReadState::Bad(e),
        }
    }
}

/// A border segment: its first character that is not whitespace is `+` or
/// `-`, so it is a border line, not a row.
pub open spec fn is_border(seg: Seq<char>) -> bool
    decreases seg.len(),
{
    if seg.len() == 0 {
        false
    } else if is_blank_char(seg.first()) {
        is_border(seg.drop_first())
    } else {
        seg.first() == '+' || seg.first() == '-'
    }
}

/// The index of the first border segment at or after `k`, or the number of
/// segments when there is none: the border line terminates parsing, so it
/// and everything after it are discarded.
pub open spec fn border_cut(segs: Seq<Seq<char>>, k: int) -> int
    decreases segs.len() - k,
{
    if k < 0 || k >= segs.len() {
        segs.len() as int
    } else if is_border(segs[k]) {
        k
    } else {
        border_cut(segs, k + 1)
    }
}

/// The grid a board text stands for, or why it is rejected. The trailing
/// border line and whatever follows it are discarded; the rows above it are
/// replayed bottom-up; a text read to its end must have balanced token
/// counts.
pub open spec fn spec_read(s: Seq<char>) -> Result<Grid, ReadError> {
    let segs = spec_split(s);
    let cut = border_cut(segs, 0);
    match read_segs(segs, cut - 1, empty_grid(), 0) {
        ReadState::Going(g, d) => if d == 0 || d == 1 {
            Ok(g)
        } else {
            Err(ReadError::Imbalanced)
        },
        ReadState::Halted(g, d) => Ok(g),
        ReadState::Bad(e) => Err(e),
    }
}

/// The character printed for one cell.
pub open spec fn cell_char(g: Grid, c: int, r: int) -> char {
    match grid_get(g, c, r) {
        Some(Token::Yellow) => 'Y',
        Some(Token::Red) => 'R',
        None => ' ',
    }
}

/// The seven cell characters of board row `r`, left to right.
pub open spec fn row_cells(g: Grid, r: int) -> Seq<char> {
    seq![
        cell_char(g, 0, r),
        cell_char(g, 1, r),
        cell_char(g, 2, r),
        cell_char(g, 3, r),
        cell_char(g, 4, r),
        cell_char(g, 5, r),
        cell_char(g, 6, r),
    ]
}

/// One printed row: the seven cells of board row `r` between bars.
pub open spec fn render_row(g: Grid, r: int) -> Seq<char> {
    seq!['|'] + row_cells(g, r) + seq!['|', '\n']
}

/// The printed rows from board row `r` down to the bottom: top row first.
pub open spec fn render_down(g: Grid, r: int) -> Seq<char>
    decreases r + 1,
{
    if r < 0 {
        Seq::empty()
    } else {
        render_row(g, r) + render_down(g, r - 1)
    }
}

/// The border line closing a printed board.
pub open spec fn border_chars() -> Seq<char> {
    seq!['+', '-', '-', '-', '-', '-', '-', '-', '-', '+', '\n']
}

/// The full printed form of a grid.
pub open spec fn spec_render(g: Grid) -> Seq<char> {
    seq!['\n'] + render_down(g, 5) + border_chars()
}

/// The views of a vector of row vectors.
pub open spec fn segs_views(s: Seq<Vec<char>>) -> Seq<Seq<char>> {
    s.map_values(|v: Vec<char>| v@)
}

/// The total number of characters in the segments from index `k` on.
pub open spec fn segs_total_from(sv: Seq<Seq<char>>, k: int) -> int
    decreases sv.len() - k,
{
    if k < 0 || k >= sv.len() {
        0
    } else {
        sv[k].len() + segs_total_from(sv, k + 1)
    }
}

/// Character totals of segments are nonnegative and shrink towards the end.
pub proof fn lemma_segs_total_bounds(sv: Seq<Seq<char>>, k: int)
    ensures
        0 <= segs_total_from(sv, k),
        k >= 0 ==> segs_total_from(sv, k) <= segs_total_from(sv, 0),
{
    lemma_segs_total_nonneg(sv, k);
    if k >= 0 {
        lemma_segs_total_pair(sv, 0, k);
    }
}

/// The suffix total from a later index never exceeds the one from an
/// earlier index.
proof fn lemma_segs_total_pair(sv: Seq<Seq<char>>, a: int, b: int)
    requires
        0 <= a <= b,
    ensures
        segs_total_from(sv, b) <= segs_total_from(sv, a),
    decreases b - a,
{
    if a < b {
        lemma_segs_total_pair(sv, a + 1, b);
        lemma_segs_total_nonneg(sv, a + 1);
    }
}

/// Character totals are nonnegative.
proof fn lemma_segs_total_nonneg(sv: Seq<Seq<char>>, k: int)
    ensures
        0 <= segs_total_from(sv, k),
    decreases sv.len() - k,
{
    if 0 <= k < sv.len() {
        lemma_segs_total_nonneg(sv, k + 1);
    }
}

/// Splitting never makes more characters than were split: every segment
/// character was a character of the input.
pub proof fn lemma_split_total(s: Seq<char>, i: int, cur: Seq<char>, acc: Seq<Seq<char>>)
    requires
        0 <= i <= s.len(),
    ensures
        segs_total_from(split_acc(s, i, cur, acc), 0) <= segs_total_from(acc, 0) + cur.len() + (
        s.len() - i),
    decreases s.len() - i,
{
    if i >= s.len() {
        lemma_segs_total_push(acc, cur);
    } else if s[i] == '|' {
        lemma_split_total(s, i + 1, Seq::empty(), acc.push(cur));
        lemma_segs_total_push(acc, cur);
    } else {
        lemma_split_total(s, i + 1, cur.push(s[i]), acc);
    }
}

/// Appending one segment adds its characters to the total.
proof fn lemma_segs_total_push(acc: Seq<Seq<char>>, cur: Seq<char>)
    ensures
        segs_total_from(acc.push(cur), 0) == segs_total_from(acc, 0) + cur.len(),
{
    lemma_segs_total_push_from(acc, cur, 0);
}

/// Appending one segment adds its characters to every suffix total.
proof fn lemma_segs_total_push_from(acc: Seq<Seq<char>>, cur: Seq<char>, k: int)
    requires
        0 <= k <= acc.len(),
    ensures
        segs_total_from(acc.push(cur), k) == segs_total_from(acc, k) + cur.len(),
    decreases acc.len() - k,
{
    let p = acc.push(cur);
    assert(p.len() == acc.len() + 1);
    if k < acc.len() {
        lemma_segs_total_push_from(acc, cur, k + 1);
        assert(p[k] == acc[k]);
        assert(segs_total_from(p, k) == p[k].len() + segs_total_from(p, k + 1));
        assert(segs_total_from(acc, k) == acc[k].len() + segs_total_from(acc, k + 1));
    } else {
        assert(p[k] == cur);
        assert(segs_total_from(p, k) == p[k].len() + segs_total_from(p, k + 1));
        assert(segs_total_from(p, k + 1) == 0);
        assert(segs_total_from(acc, k) == 0);
    }
}

// ---------------------------------------------------------------------------
// Reading back a rendered board
// ---------------------------------------------------------------------------
/// The splitter as a state machine: consuming `s` from the given carried
/// piece and finished segments leaves a new carried piece and segment list.
pub open spec fn split_go(s: Seq<char>, cur: Seq<char>, acc: Seq<Seq<char>>) -> (
    Seq<char>,
    Seq<Seq<char>>,
)
    decreases s.len(),
{
    if s.len() == 0 {
        (cur, acc)
    } else if s.first() == '|' {
        split_go(s.drop_first(), Seq::empty(), acc.push(cur))
    } else {
        split_go(s.drop_first(), cur.push(s.first()), acc)
    }
}

/// The two splitter forms agree: the fold over positions equals the state
/// machine run on the remaining characters, closed by the carried piece.
proof fn lemma_split_acc_go(s: Seq<char>, i: int, cur: Seq<char>, acc: Seq<Seq<char>>)
    requires
        0 <= i <= s.len(),
    ensures
        split_acc(s, i, cur, acc) == split_go(s.skip(i), cur, acc).1.push(
            split_go(s.skip(i), cur, acc).0,
        ),
    decreases s.len() - i,
{
    if i >= s.len() {
        assert(s.skip(i).len() == 0);
    } else {
        assert(s.skip(i).first() == s[i]);
        assert(s.skip(i).drop_first() =~= s.skip(i + 1));
        if s[i] == '|' {
            lemma_split_acc_go(s, i + 1, Seq::empty(), acc.push(cur));
        } else {
            lemma_split_acc_go(s, i + 1, cur.push(s[i]), acc);
        }
    }
}

/// The state machine over a concatenation runs the first part, then the
/// second from the reached state.
proof fn lemma_split_go_append(a: Seq<char>, b: Seq<char>, cur: Seq<char>, acc: Seq<Seq<char>>)
    ensures
        split_go(a + b, cur, acc) == split_go(b, split_go(a, cur, acc).0, split_go(a, cur, acc).1),
    decreases a.len(),
{
    if a.len() == 0 {
        assert(a + b =~= b);
    } else {
        assert((a + b).first() == a.first());
        assert((a + b).drop_first() =~= a.drop_first() + b);
        if a.first() == '|' {
            lemma_split_go_append(a.drop_first(), b, Seq::empty(), acc.push(cur));
        } else {
            lemma_split_go_append(a.drop_first(), b, cur.push(a.first()), acc);
        }
    }
}

/// A run without a delimiter only extends the carried piece.
proof fn lemma_split_go_nobar(s: Seq<char>, cur: Seq<char>, acc: Seq<Seq<char>>)
    requires
        forall|i: int| 0 <= i < s.len() ==> s[i] != '|',
    ensures
        split_go(s, cur, acc) == (cur + s, acc),
    decreases s.len(),
{
    if s.len() == 0 {
        assert(cur + s =~= cur);
    } else {
        assert(s.first() == s[0]);
        assert forall|i: int| 0 <= i < s.drop_first().len() implies s.drop_first()[i] != '|' by {
            assert(s.drop_first()[i] == s[i + 1]);
        }
        lemma_split_go_nobar(s.drop_first(), cur.push(s.first()), acc);
        assert(cur.push(s.first()) + s.drop_first() =~= cur + s);
    }
}

/// No cell character is a delimiter or border character.
proof fn lemma_row_cells_chars(g: Grid, r: int)
    ensures
        row_cells(g, r).len() == 7,
        forall|i: int|
            0 <= i < 7 ==> (#[trigger] row_cells(g, r)[i]) == cell_char(g, i, r),
        forall|i: int|
            0 <= i < 7 ==> (#[trigger] row_cells(g, r)[i]) == 'Y' || row_cells(g, r)[i] == 'R'
                || row_cells(g, r)[i] == ' ',
{
    assert forall|i: int| 0 <= i < 7 implies (#[trigger] row_cells(g, r)[i]) == cell_char(
        g,
        i,
        r,
    ) by {
        if i == 0 {
        } else if i == 1 {
        } else if i == 2 {
        } else if i == 3 {
        } else if i == 4 {
        } else if i == 5 {
        } else {
        }
    }
}

/// The segments the splitter makes of the rendered rows from `r` down:
/// a newline piece, then the row's cells, for each row top-down.
pub open spec fn rows_segs(g: Grid, r: int) -> Seq<Seq<char>>
    decreases r + 1,
{
    if r < 0 {
        Seq::empty()
    } else {
        seq![seq!['\n'], row_cells(g, r)] + rows_segs(g, r - 1)
    }
}

/// How long the row segments are, and what stands at each index.
proof fn lemma_rows_segs_index(g: Grid, r: int)
    requires
        -1 <= r,
    ensures
        rows_segs(g, r).len() == 2 * (r + 1),
        forall|q: int|
            0 <= q <= r ==> (#[trigger] rows_segs(g, r)[2 * (r - q)]) == seq!['\n'],
        forall|q: int|
            0 <= q <= r ==> (#[trigger] rows_segs(g, r)[2 * (r - q) + 1]) == row_cells(g, q),
    decreases r + 1,
{
    if r >= 0 {
        lemma_rows_segs_index(g, r - 1);
        let s = rows_segs(g, r);
        let head = seq![seq!['\n'], row_cells(g, r)];
        assert(head.len() == 2);
        assert(s == head + rows_segs(g, r - 1));
        assert(s.len() == 2 + rows_segs(g, r - 1).len());
        assert forall|q: int| 0 <= q <= r implies (#[trigger] s[2 * (r - q)]) == seq!['\n'] by {
            if q == r {
                assert(s[0] == head[0]);
                assert(head[0] == seq!['\n']);
            } else {
                assert(s[2 * (r - q)] == rows_segs(g, r - 1)[2 * (r - q) - 2]);
                assert(2 * (r - q) - 2 == 2 * ((r - 1) - q));
                assert(rows_segs(g, r - 1)[2 * ((r - 1) - q)] == seq!['\n']);
            }
        }
        assert forall|q: int| 0 <= q <= r implies (#[trigger] s[2 * (r - q) + 1]) == row_cells(
            g,
            q,
        ) by {
            if q == r {
                assert(s[1] == head[1]);
                assert(head[1] == row_cells(g, r));
            } else {
                assert(s[2 * (r - q) + 1] == rows_segs(g, r - 1)[2 * (r - q) - 1]);
                assert(2 * (r - q) - 1 == 2 * ((r - 1) - q) + 1);
                assert(rows_segs(g, r - 1)[2 * ((r - 1) - q) + 1] == row_cells(g, q));
            }
        }
    }
}

/// Running the splitter over one rendered row, carrying a newline, closes
/// two segments: that newline and the row's cells.
proof fn lemma_split_render_row(g: Grid, r: int, acc: Seq<Seq<char>>)
    ensures
        split_go(render_row(g, r), seq!['\n'], acc) == (
            seq!['\n'],
            acc.push(seq!['\n']).push(row_cells(g, r)),
        ),
{
    reveal_with_fuel(split_go, 5);
    lemma_row_cells_chars(g, r);
    let bar = seq!['|'];
    let tail = seq!['|', '\n'];
    assert(bar.len() == 1);
    assert(tail.len() == 2);
    assert(render_row(g, r) == bar + row_cells(g, r) + tail);
    lemma_split_go_append(bar + row_cells(g, r), tail, seq!['\n'], acc);
    lemma_split_go_append(bar, row_cells(g, r), seq!['\n'], acc);
    assert(bar.first() == '|');
    assert(bar.drop_first() =~= Seq::<char>::empty());
    assert(split_go(bar, seq!['\n'], acc) == (Seq::<char>::empty(), acc.push(seq!['\n'])));
    assert forall|i: int| 0 <= i < row_cells(g, r).len() implies row_cells(g, r)[i] != '|' by {
        assert(row_cells(g, r)[i] == 'Y' || row_cells(g, r)[i] == 'R' || row_cells(g, r)[i]
            == ' ');
    }
    lemma_split_go_nobar(row_cells(g, r), Seq::empty(), acc.push(seq!['\n']));
    assert(Seq::<char>::empty() + row_cells(g, r) =~= row_cells(g, r));
    // the closing bar and the newline
    assert(tail.first() == '|');
    assert(tail.drop_first() =~= seq!['\n']);
    let acc2 = acc.push(seq!['\n']).push(row_cells(g, r));
    assert(split_go(tail, row_cells(g, r), acc.push(seq!['\n'])) == split_go(
        seq!['\n'],
        Seq::empty(),
        acc2,
    ));
    assert(seq!['\n'].first() == '\n');
    assert(seq!['\n'].drop_first() =~= Seq::<char>::empty());
    assert(split_go(seq!['\n'], Seq::<char>::empty(), acc2) == (
        Seq::<char>::empty().push('\n'),
        acc2,
    ));
    assert(Seq::<char>::empty().push('\n') =~= seq!['\n']);
}

/// Running the splitter over the rendered rows from `r` down, carrying a
/// newline, closes exactly their row segments.
proof fn lemma_split_render_down(g: Grid, r: int, acc: Seq<Seq<char>>)
    requires
        -1 <= r,
    ensures
        split_go(render_down(g, r), seq!['\n'], acc) == (seq!['\n'], acc + rows_segs(g, r)),
    decreases r + 1,
{
    if r < 0 {
        reveal_with_fuel(split_go, 2);
        assert(render_down(g, r).len() == 0);
        assert(acc + rows_segs(g, r) =~= acc);
    } else {
        assert(render_down(g, r) == render_row(g, r) + render_down(g, r - 1));
        lemma_split_go_append(render_row(g, r), render_down(g, r - 1), seq!['\n'], acc);
        lemma_split_render_row(g, r, acc);
        let acc2 = acc.push(seq!['\n']).push(row_cells(g, r));
        lemma_split_render_down(g, r - 1, acc2);
        assert(acc2 + rows_segs(g, r - 1) =~= acc + rows_segs(g, r));
    }
}

/// The rendered form of a board splits into its twelve row segments and one
/// final piece holding the border line.
proof fn lemma_split_render(g: Grid)
    ensures
        spec_split(spec_render(g)) == rows_segs(g, 5).push(seq!['\n'] + border_chars()),
{
    reveal_with_fuel(split_go, 5);
    let rendered = spec_render(g);
    lemma_split_acc_go(rendered, 0, Seq::empty(), Seq::empty());
    assert(rendered.skip(0) =~= rendered);
    assert(rendered == seq!['\n'] + render_down(g, 5) + border_chars());
    lemma_split_go_append(
        seq!['\n'] + render_down(g, 5),
        border_chars(),
        Seq::empty(),
        Seq::empty(),
    );
    lemma_split_go_append(seq!['\n'], render_down(g, 5), Seq::empty(), Seq::empty());
    assert(seq!['\n'].first() == '\n');
    assert(seq!['\n'].drop_first() =~= Seq::<char>::empty());
    assert(split_go(seq!['\n'], Seq::<char>::empty(), Seq::<Seq<char>>::empty()) == (
        Seq::<char>::empty().push('\n'),
        Seq::<Seq<char>>::empty(),
    ));
    assert(Seq::<char>::empty().push('\n') =~= seq!['\n']);
    lemma_split_render_down(g, 5, Seq::empty());
    assert(Seq::<Seq<char>>::empty() + rows_segs(g, 5) =~= rows_segs(g, 5));
    assert forall|i: int| 0 <= i < border_chars().len() implies border_chars()[i] != '|' by {
        lemma_border_chars_vals();
    }
    lemma_split_go_nobar(border_chars(), seq!['\n'], rows_segs(g, 5));
}

/// The characters of the border line.
proof fn lemma_border_chars_vals()
    ensures
        border_chars().len() == 11,
        border_chars()[0] == '+',
        forall|i: int| 1 <= i <= 8 ==> (#[trigger] border_chars()[i]) == '-',
        border_chars()[9] == '+',
        border_chars()[10] == '\n',
{
    assert forall|i: int| 1 <= i <= 8 implies (#[trigger] border_chars()[i]) == '-' by {
        if i == 1 {
        } else if i == 2 {
        } else if i == 3 {
        } else if i == 4 {
        } else if i == 5 {
        } else if i == 6 {
        } else if i == 7 {
        } else {
        }
    }
}

/// A segment without border characters is no border line.
proof fn lemma_not_border(s: Seq<char>)
    requires
        forall|i: int| 0 <= i < s.len() ==> s[i] != '+' && s[i] != '-',
    ensures
        !is_border(s),
    decreases s.len(),
{
    if s.len() > 0 {
        assert(s.first() == s[0]);
        if is_blank_char(s.first()) {
            assert forall|i: int| 0 <= i < s.drop_first().len() implies s.drop_first()[i] != '+'
                && s.drop_first()[i] != '-' by {
                assert(s.drop_first()[i] == s[i + 1]);
            }
            lemma_not_border(s.drop_first());
        }
    }
}

/// The rendered board's border piece is a border line and its row segments
/// are not, so parsing cuts exactly before the border.
proof fn lemma_render_cut(g: Grid)
    ensures
        border_cut(rows_segs(g, 5).push(seq!['\n'] + border_chars()), 0) == 12,
{
    let segs = rows_segs(g, 5).push(seq!['\n'] + border_chars());
    lemma_rows_segs_index(g, 5);
    assert(segs.len() == 13);
    let last = seq!['\n'] + border_chars();
    lemma_border_chars_vals();
    reveal_with_fuel(is_border, 3);
    assert(last.first() == '\n');
    assert(last.drop_first() =~= border_chars());
    assert(is_border(last)) by {
        assert(border_chars().first() == '+');
    }
    assert forall|m: int| 0 <= m < 12 implies !is_border(#[trigger] segs[m]) by {
        assert(segs[m] == rows_segs(g, 5)[m]);
        if m % 2 == 0 {
            let q = 5 - m / 2;
            assert(rows_segs(g, 5)[2 * (5 - q)] == seq!['\n']);
            assert(seq!['\n'][0] == '\n');
            lemma_not_border(seq!['\n']);
        } else {
            let q = 5 - (m - 1) / 2;
            assert(rows_segs(g, 5)[2 * (5 - q) + 1] == row_cells(g, q));
            lemma_row_cells_chars(g, q);
            lemma_not_border(row_cells(g, q));
        }
    }
    lemma_border_cut_first(segs, 12);
}

/// When nothing before index `c` is a border line and index `c` is one, the
/// cut falls at `c`.
proof fn lemma_border_cut_first(segs: Seq<Seq<char>>, c: int)
    requires
        0 <= c < segs.len(),
        forall|m: int| 0 <= m < c ==> !is_border(#[trigger] segs[m]),
        is_border(segs[c]),
    ensures
        border_cut(segs, 0) == c,
{
    lemma_border_cut_from(segs, c, 0);
}

/// The cut search passes every index that is no border line.
proof fn lemma_border_cut_from(segs: Seq<Seq<char>>, c: int, k: int)
    requires
        0 <= k <= c < segs.len(),
        forall|m: int| k <= m < c ==> !is_border(#[trigger] segs[m]),
        is_border(segs[c]),
    ensures
        border_cut(segs, k) == c,
    decreases c - k,
{
    if k < c {
        lemma_border_cut_from(segs, c, k + 1);
    }
}

/// The Yellow-minus-Red count of a grid: what the reader's running
/// difference tracks.
pub open spec fn count_diff(g: Grid) -> int {
    count_tok(g, Token::Yellow) - count_tok(g, Token::Red)
}

/// The grid holding only the cells of `g` on rows below `r`.
pub open spec fn grid_below(g: Grid, r: int) -> Grid {
    Seq::new(
        7,
        |c: int|
            g[c].take(
                if r <= g[c].len() {
                    r
                } else {
                    g[c].len() as int
                },
            ),
    )
}

/// The grid holding the cells of `g` below row `r`, and on row `r` itself
/// for the first `j` columns: the reader's state midway through a row.
pub open spec fn grid_below_at(g: Grid, r: int, j: int) -> Grid {
    Seq::new(
        7,
        |c: int|
            g[c].take(
                {
                    let cap = if c < j {
                        r + 1
                    } else {
                        r
                    };
                    if cap <= g[c].len() {
                        cap
                    } else {
                        g[c].len() as int
                    }
                },
            ),
    )
}

/// Cut-down grids are well formed.
proof fn lemma_below_wf(g: Grid, r: int, j: int)
    requires
        grid_wf(g),
        0 <= r,
        0 <= j,
    ensures
        grid_wf(grid_below(g, r)),
        grid_wf(grid_below_at(g, r, j)),
{
}

/// Reading one rendered row from column `j` on drops exactly the row's
/// remaining tokens, moving the reader's state from midway through row `r`
/// to everything below row `r + 1`, and moves the running difference by the
/// token counts it drops.
proof fn lemma_read_row(g: Grid, r: int, j: int, d: int)
    requires
        grid_wf(g),
        0 <= r < 6,
        0 <= j <= 7,
    ensures
        read_seg(grid_below_at(g, r, j), d, row_cells(g, r), j) == ReadState::Going(
            grid_below(g, r + 1),
            d + count_diff(grid_below(g, r + 1)) - count_diff(grid_below_at(g, r, j)),
        ),
    decreases 7 - j,
{
    lemma_row_cells_chars(g, r);
    lemma_below_wf(g, r, j);
    lemma_below_wf(g, r + 1, 0);
    let h = grid_below_at(g, r, j);
    if j == 7 {
        assert(h =~~= grid_below(g, r + 1));
    } else {
        let ch = row_cells(g, r)[j];
        assert(ch == cell_char(g, j, r));
        match grid_get(g, j, r) {
            Some(tok) => {
                assert(ch == 'Y' || ch == 'R');
                assert(r < g[j].len());
                assert(h[j].len() == r);
                assert(col_free(h, j));
                let h2 = grid_place(h, j, tok);
                assert(h2 =~~= grid_below_at(g, r, j + 1)) by {
                    assert(g[j].take(r).push(g[j][r]) =~= g[j].take(r + 1));
                }
                lemma_place_count_tok(h, j, tok, Token::Yellow);
                lemma_place_count_tok(h, j, tok, Token::Red);
                lemma_read_row(g, r, j + 1, if tok == Token::Yellow {
                    d + 1
                } else {
                    d - 1
                });
                if ch == 'Y' {
                    assert(tok == Token::Yellow);
                    assert(count_diff(grid_below_at(g, r, j + 1)) == count_diff(h) + 1);
                } else {
                    assert(tok == Token::Red);
                    assert(count_diff(grid_below_at(g, r, j + 1)) == count_diff(h) - 1);
                }
            },
            None => {
                assert(ch == ' ');
                assert(g[j].len() <= r);
                assert(h =~~= grid_below_at(g, r, j + 1));
                lemma_read_row(g, r, j + 1, d);
            },
        }
    }
}

/// Replaying the rendered row segments bottom-up builds the board back,
/// row by row, with the running difference tracking its token counts.
proof fn lemma_replay_rows(g: Grid, segs: Seq<Seq<char>>, r: int)
    requires
        grid_wf(g),
        0 <= r <= 6,
        segs.len() >= 12,
        forall|q: int| 0 <= q < 6 ==> #[trigger] segs[11 - 2 * q] == row_cells(g, q),
        forall|q: int| 0 <= q < 6 ==> #[trigger] segs[10 - 2 * q] == seq!['\n'],
    ensures
        read_segs(segs, 11, empty_grid(), 0) == read_segs(
            segs,
            11 - 2 * r,
            grid_below(g, r),
            count_diff(grid_below(g, r)),
        ),
    decreases r,
{
    reveal_with_fuel(read_segs, 4);
    lemma_below_wf(g, r, 0);
    if r == 0 {
        assert(grid_below(g, 0) =~~= empty_grid());
        lemma_empty_count_tok(Token::Yellow);
        lemma_empty_count_tok(Token::Red);
        assert(count_diff(grid_below(g, 0)) == 0);
    } else {
        lemma_replay_rows(g, segs, r - 1);
        lemma_below_wf(g, r - 1, 0);
        let q = r - 1;
        let k = 11 - 2 * q;
        assert(segs[k] == row_cells(g, q));
        assert(segs[k - 1] == seq!['\n']) by {
            assert(segs[10 - 2 * q] == seq!['\n']);
        }
        assert(is_blank(seq!['\n'])) by {
            assert(forall|i: int| 0 <= i < 1 ==> is_blank_char(#[trigger] seq!['\n'][i]));
        }
        lemma_row_cells_chars(g, q);
        if is_blank(segs[k]) {
            // a row with no token: nothing below row q reaches it
            assert forall|c: int| 0 <= c < 7 implies g[c].len() <= q by {
                assert(is_blank_char(row_cells(g, q)[c]));
                assert(cell_char(g, c, q) == ' ');
                if g[c].len() > q {
                    assert(grid_get(g, c, q) is Some);
                }
            }
            assert(grid_below(g, r) =~~= grid_below(g, q));
            assert(read_segs(segs, k, grid_below(g, q), count_diff(grid_below(g, q)))
                == read_segs(segs, k - 1, grid_below(g, q), count_diff(grid_below(g, q))));
            assert(read_segs(segs, k - 1, grid_below(g, q), count_diff(grid_below(g, q)))
                == read_segs(segs, k - 2, grid_below(g, r), count_diff(grid_below(g, r))));
        } else {
            assert(grid_below_at(g, q, 0) =~~= grid_below(g, q));
            lemma_read_row(g, q, 0, count_diff(grid_below(g, q)));
            assert(read_seg(grid_below(g, q), count_diff(grid_below(g, q)), segs[k], 0)
                == ReadState::Going(grid_below(g, r), count_diff(grid_below(g, r))));
            assert(read_segs(segs, k, grid_below(g, q), count_diff(grid_below(g, q)))
                == read_segs(segs, k - 1, grid_below(g, r), count_diff(grid_below(g, r))));
            assert(read_segs(segs, k - 1, grid_below(g, r), count_diff(grid_below(g, r)))
                == read_segs(segs, k - 2, grid_below(g, r), count_diff(grid_below(g, r))));
        }
        assert(k - 2 == 11 - 2 * r);
    }
}

/// Reading back a rendered board restores it exactly: `to_string` then
/// `read` is the identity on boards whose Yellow and Red counts differ by
/// zero or one, as every position reachable by alternating play does.
pub proof fn lemma_read_render(g: Grid)
    requires
        grid_wf(g),
        count_diff(g) == 0 || count_diff(g) == 1,
    ensures
        spec_read(spec_render(g)) == Ok::<Grid, ReadError>(g),
{
    lemma_split_render(g);
    lemma_render_cut(g);
    let segs = rows_segs(g, 5).push(seq!['\n'] + border_chars());
    lemma_rows_segs_index(g, 5);
    assert(segs.len() == 13);
    assert forall|q: int| 0 <= q < 6 implies #[trigger] segs[11 - 2 * q] == row_cells(g, q) by {
        assert(11 - 2 * q == 2 * (5 - q) + 1);
        assert(rows_segs(g, 5)[2 * (5 - q) + 1] == row_cells(g, q));
        assert(segs[11 - 2 * q] == rows_segs(g, 5)[11 - 2 * q]);
    }
    assert forall|q: int| 0 <= q < 6 implies #[trigger] segs[10 - 2 * q] == seq!['\n'] by {
        assert(10 - 2 * q == 2 * (5 - q));
        assert(rows_segs(g, 5)[2 * (5 - q)] == seq!['\n']);
        assert(segs[10 - 2 * q] == rows_segs(g, 5)[10 - 2 * q]);
    }
    lemma_replay_rows(g, segs, 6);
    assert(grid_below(g, 6) =~~= g);
    assert(read_segs(segs, 11, empty_grid(), 0) == ReadState::Going(g, count_diff(g)));
}


} // verus!
