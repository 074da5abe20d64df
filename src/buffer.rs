use vstd::prelude::*;
use vstd::arithmetic::div_mod::*;
use vstd::arithmetic::mul::*;

use crate::cursor::Cursor;
use crate::text::{
    chars_of, last_feed, lemma_last_feed_append, lines_in, push_char, string_of_range, strip_cr, views_of,
};

verus! {

/// `a / b` rounded up.
pub open spec fn ceil_div(a: nat, b: nat) -> nat {
    if a % b == 0 {
        a / b
    } else {
        a / b + 1
    }
}

/// How many screen rows a line of text takes: one when wrapping is off or the
/// line is empty, else as many `width`-sized segments as it needs.
pub open spec fn rows_of(line: Seq<char>, wrap: bool, width: nat) -> nat {
    if !wrap || line.len() == 0 {
        1
    } else {
        ceil_div(line.len(), width)
    }
}

/// The `i`-th `width`-sized segment of a wrapped line.
pub open spec fn segment(line: Seq<char>, width: nat, i: int) -> Seq<char> {
    let lo = i * width;
    let hi = (i + 1) * width;
    line.subrange(lo, if hi < line.len() { hi } else { line.len() as int })
}

/// The characters of a line's segments `0..k`, one after another.
pub open spec fn segments_joined(line: Seq<char>, width: nat, k: int) -> Seq<char>
    decreases k,
{
    if k <= 0 {
        Seq::empty()
    } else {
        segments_joined(line, width, k - 1) + segment(line, width, k - 1)
    }
}

/// The window of a line shown with wrapping off, for a cursor at column
/// `pos - 1`: the line's start, or a `width`-wide window that ends before `pos`.
pub open spec fn clipped(line: Seq<char>, pos: nat, width: nat) -> Seq<char> {
    if pos > width {
        let left = if pos - width < line.len() { (pos - width) as int } else { line.len() as int };
        let right = if left + width < line.len() { left + width } else { line.len() as int };
        line.subrange(left, right)
    } else {
        line.subrange(0, if width < line.len() { width as int } else { line.len() as int })
    }
}

/// The number of screen rows that lines `from..to` take.
pub open spec fn rows_between(ls: Seq<Seq<char>>, wrap: bool, width: nat, from: int, to: int) -> nat
    decreases to - from,
{
    if to <= from {
        0
    } else {
        rows_between(ls, wrap, width, from, to - 1) + rows_of(ls[to - 1], wrap, width)
    }
}

/// The characters of lines `from..to`, one terminator for each line included.
pub open spec fn chars_between(ls: Seq<Seq<char>>, from: int, to: int) -> nat
    decreases to - from,
{
    if to <= from {
        0
    } else {
        chars_between(ls, from, to - 1) + ls[to - 1].len() + 1
    }
}

/// The size of a text: its characters and one terminator for each line.
pub open spec fn text_size_of(ls: Seq<Seq<char>>) -> nat {
    chars_between(ls, 0, ls.len() as int)
}

/// The line on whose rows screen row `row` falls, when rows are counted from
/// the first row of line `top`; `top` itself when `row` lies past the last line.
pub open spec fn line_at_row(ls: Seq<Seq<char>>, wrap: bool, width: nat, top: int, row: int) -> int {
    if row < rows_between(ls, wrap, width, top, ls.len() as int) {
        choose|i: int|
            top <= i < ls.len() && #[trigger] rows_between(ls, wrap, width, top, i) <= row
                < rows_between(ls, wrap, width, top, i + 1)
    } else {
        top
    }
}

/// The character offset, within the line `line_at_row` gives, of screen
/// position (`row`, `col`): with wrapping on, the segments of the line above
/// the row contribute `width` characters each.
pub open spec fn col_at(ls: Seq<Seq<char>>, wrap: bool, width: nat, top: int, row: int, col: int) -> int {
    if !wrap {
        col
    } else {
        width * (row - rows_between(ls, wrap, width, top, line_at_row(ls, wrap, width, top, row)))
            + col
    }
}

/// The cursor column that stands after the last character of a line: within
/// the line's last segment when wrapping is on.
pub open spec fn last_col_of(line: Seq<char>, wrap: bool, width: nat) -> nat {
    if !wrap {
        line.len()
    } else {
        line.len() % width
    }
}

proof fn lemma_rows_between_grows(ls: Seq<Seq<char>>, wrap: bool, width: nat, a: int, b: int, c: int)
    requires
        a <= b <= c,
        width > 0,
    ensures
        rows_between(ls, wrap, width, a, b) + (c - b) <= rows_between(ls, wrap, width, a, c),
    decreases c - b,
{
    if c > b {
        lemma_rows_between_grows(ls, wrap, width, a, b, c - 1);
        lemma_rows_of_bound(ls[c - 1], wrap, width);
    }
}

proof fn lemma_rows_within_chars(ls: Seq<Seq<char>>, wrap: bool, width: nat, a: int, b: int)
    requires
        0 <= a <= b <= ls.len(),
        width > 0,
    ensures
        rows_between(ls, wrap, width, a, b) <= chars_between(ls, a, b),
        chars_between(ls, a, b) <= text_size_of(ls),
    decreases b - a,
{
    if b > a {
        lemma_rows_within_chars(ls, wrap, width, a, b - 1);
        lemma_rows_of_bound(ls[b - 1], wrap, width);
        lemma_chars_between_split(ls, 0, a, b);
        lemma_chars_between_split(ls, 0, b, ls.len() as int);
    } else {
        lemma_chars_between_split(ls, 0, a, ls.len() as int);
    }
}

proof fn lemma_chars_between_split(ls: Seq<Seq<char>>, a: int, b: int, c: int)
    requires
        a <= b <= c,
    ensures
        chars_between(ls, a, c) == chars_between(ls, a, b) + chars_between(ls, b, c),
    decreases c - b,
{
    if c > b {
        lemma_chars_between_split(ls, a, b, c - 1);
    }
}

proof fn lemma_row_in_some_line(ls: Seq<Seq<char>>, wrap: bool, width: nat, top: int, row: int, n: int)
    requires
        0 <= top <= n <= ls.len(),
        0 <= row < rows_between(ls, wrap, width, top, n),
    ensures
        exists|i: int|
            top <= i < n && #[trigger] rows_between(ls, wrap, width, top, i) <= row < rows_between(
                ls,
                wrap,
                width,
                top,
                i + 1,
            ),
    decreases n,
{
    if row >= rows_between(ls, wrap, width, top, n - 1) {
        assert(rows_between(ls, wrap, width, top, n - 1) <= row < rows_between(ls, wrap, width, top, (n - 1) + 1));
    } else {
        lemma_row_in_some_line(ls, wrap, width, top, row, n - 1);
    }
}

/// Below the last row, `line_at_row` gives a line whose rows hold `row`.
proof fn lemma_line_at_row_holds(ls: Seq<Seq<char>>, wrap: bool, width: nat, top: int, row: int)
    requires
        0 <= top <= ls.len(),
        0 <= row < rows_between(ls, wrap, width, top, ls.len() as int),
    ensures
        top <= line_at_row(ls, wrap, width, top, row) < ls.len(),
        rows_between(ls, wrap, width, top, line_at_row(ls, wrap, width, top, row)) <= row
            < rows_between(ls, wrap, width, top, line_at_row(ls, wrap, width, top, row) + 1),
{
    lemma_row_in_some_line(ls, wrap, width, top, row, ls.len() as int);
}

proof fn lemma_last_col_fits(line: Seq<char>, wrap: bool, width: nat, offset: int)
    requires
        width > 0,
        0 <= offset < rows_of(line, wrap, width),
    ensures
        (if wrap { width * offset + last_col_of(line, wrap, width) } else {
            last_col_of(line, wrap, width) as int
        }) <= line.len(),
{
    if wrap {
        let a = line.len();
        let q = a / width;
        let r = a % width;
        lemma_fundamental_div_mod(a as int, width as int);
        lemma_mod_bound(a as int, width as int);
        if a == 0 {
            assert(offset == 0);
            assert(width * offset == 0) by (nonlinear_arith)
                requires
                    offset == 0,
            ;
        } else if r == 0 {
            assert(width * offset + r <= a) by (nonlinear_arith)
                requires
                    a == width * q,
                    offset < q,
                    r == 0,
            ;
        } else {
            assert(width * offset + r <= a) by (nonlinear_arith)
                requires
                    a == width * q + r,
                    offset <= q,
                    width > 0,
            ;
        }
    }
}

proof fn lemma_chars_between_shift(a: Seq<Seq<char>>, b: Seq<Seq<char>>, lo: int, hi: int, d: int)
    requires
        forall|k: int| lo <= k < hi ==> #[trigger] a[k] == b[k + d],
    ensures
        chars_between(a, lo, hi) == chars_between(b, lo + d, hi + d),
    decreases hi - lo,
{
    if hi > lo {
        lemma_chars_between_shift(a, b, lo, hi - 1, d);
        assert(a[hi - 1] == b[(hi - 1) + d]);
    }
}

proof fn lemma_size_update(ls: Seq<Seq<char>>, i: int, x: Seq<char>)
    requires
        0 <= i < ls.len(),
    ensures
        text_size_of(ls.update(i, x)) == text_size_of(ls) - ls[i].len() + x.len(),
{
    let n = ls.len() as int;
    let u = ls.update(i, x);
    lemma_chars_between_split(ls, 0, i, n);
    lemma_chars_between_split(ls, i, i + 1, n);
    lemma_chars_between_split(u, 0, i, n);
    lemma_chars_between_split(u, i, i + 1, n);
    lemma_chars_between_shift(u, ls, 0, i, 0);
    lemma_chars_between_shift(u, ls, i + 1, n, 0);
    assert(chars_between(ls, i, i) == 0);
    assert(chars_between(u, i, i) == 0);
    assert(chars_between(ls, i, i + 1) == ls[i].len() + 1);
    assert(chars_between(u, i, i + 1) == x.len() + 1);
}

proof fn lemma_size_insert(ls: Seq<Seq<char>>, i: int, x: Seq<char>)
    requires
        0 <= i <= ls.len(),
    ensures
        text_size_of(ls.insert(i, x)) == text_size_of(ls) + x.len() + 1,
{
    let n = ls.len() as int;
    let u = ls.insert(i, x);
    lemma_chars_between_split(ls, 0, i, n);
    lemma_chars_between_split(u, 0, i, n + 1);
    lemma_chars_between_split(u, i, i + 1, n + 1);
    lemma_chars_between_shift(u, ls, 0, i, 0);
    lemma_chars_between_shift(u, ls, i + 1, n + 1, -1);
    assert(chars_between(u, i, i) == 0);
    assert(chars_between(u, i, i + 1) == x.len() + 1);
}

proof fn lemma_size_remove(ls: Seq<Seq<char>>, i: int)
    requires
        0 <= i < ls.len(),
    ensures
        text_size_of(ls.remove(i)) + ls[i].len() + 1 == text_size_of(ls),
{
    let n = ls.len() as int;
    let u = ls.remove(i);
    lemma_chars_between_split(ls, 0, i, n);
    lemma_chars_between_split(ls, i, i + 1, n);
    lemma_chars_between_split(u, 0, i, n - 1);
    lemma_chars_between_shift(u, ls, 0, i, 0);
    lemma_chars_between_shift(u, ls, i, n - 1, 1);
    assert(chars_between(ls, i, i) == 0);
    assert(chars_between(ls, i, i + 1) == ls[i].len() + 1);
}

/// The row `line_at_row` gives is the one line whose rows hold `row`.
proof fn lemma_line_at_row(ls: Seq<Seq<char>>, wrap: bool, width: nat, top: int, row: int, i: int)
    requires
        width > 0,
        0 <= top <= i < ls.len(),
        rows_between(ls, wrap, width, top, i) <= row < rows_between(ls, wrap, width, top, i + 1),
    ensures
        line_at_row(ls, wrap, width, top, row) == i,
{
    lemma_rows_between_grows(ls, wrap, width, top, i + 1, ls.len() as int);
    let j = line_at_row(ls, wrap, width, top, row);
    assert(top <= j < ls.len() && rows_between(ls, wrap, width, top, j) <= row < rows_between(
        ls,
        wrap,
        width,
        top,
        j + 1,
    ));
    if j < i {
        lemma_rows_between_grows(ls, wrap, width, top, j + 1, i);
    } else if j > i {
        lemma_rows_between_grows(ls, wrap, width, top, i + 1, j);
    }
}

proof fn lemma_ceil_div_bound(a: nat, b: nat)
    requires
        a > 0,
        b > 0,
    ensures
        1 <= ceil_div(a, b) <= a,
{
    let q = a / b;
    let r = a % b;
    lemma_fundamental_div_mod(a as int, b as int);
    lemma_mod_bound(a as int, b as int);
    assert(a == b * q + r);
    if r == 0 {
        assert(1 <= q <= a) by (nonlinear_arith)
            requires
                a == b * q,
                a > 0,
                b > 0,
        ;
    } else {
        assert(q + 1 <= a) by (nonlinear_arith)
            requires
                a == b * q + r,
                0 < r < b,
        ;
    }
}

proof fn lemma_rows_of_bound(line: Seq<char>, wrap: bool, width: nat)
    requires
        width > 0,
    ensures
        1 <= rows_of(line, wrap, width) <= line.len() + 1,
        line.len() > 0 ==> rows_of(line, wrap, width) <= line.len(),
{
    if wrap && line.len() > 0 {
        lemma_ceil_div_bound(line.len(), width);
    }
}

proof fn lemma_segment_start(a: nat, b: nat, i: nat)
    requires
        a > 0,
        b > 0,
        i < ceil_div(a, b),
    ensures
        i * b < a,
{
    let q = a / b;
    let r = a % b;
    lemma_fundamental_div_mod(a as int, b as int);
    lemma_mod_bound(a as int, b as int);
    if r == 0 {
        assert(i * b < a) by (nonlinear_arith)
            requires
                a == b * q,
                i < q,
                b > 0,
        ;
    } else {
        assert(i * b < a) by (nonlinear_arith)
            requires
                a == b * q + r,
                i <= q,
                0 < r < b,
        ;
    }
}

proof fn lemma_ceil_div_covers(a: nat, b: nat)
    requires
        b > 0,
    ensures
        ceil_div(a, b) * b >= a,
{
    let q = a / b;
    let r = a % b;
    lemma_fundamental_div_mod(a as int, b as int);
    lemma_mod_bound(a as int, b as int);
    assert(ceil_div(a, b) * b >= a) by (nonlinear_arith)
        requires
            a == b * q + r,
            0 <= r < b,
            ceil_div(a, b) == (if r == 0 { q } else { q + 1 }),
    ;
}

proof fn lemma_segments_prefix(line: Seq<char>, width: nat, k: nat)
    requires
        width > 0,
        line.len() > 0,
        k <= ceil_div(line.len(), width),
    ensures
        segments_joined(line, width, k as int) == line.subrange(
            0,
            if k * width < line.len() { (k * width) as int } else { line.len() as int },
        ),
    decreases k,
{
    if k == 0 {
        assert(k * width == 0) by (nonlinear_arith)
            requires
                k == 0,
        ;
        assert(segments_joined(line, width, 0) =~= line.subrange(0, 0));
    } else {
        let j = (k - 1) as nat;
        lemma_segments_prefix(line, width, j);
        lemma_segment_start(line.len(), width, j);
        assert(k * width == j * width + width) by (nonlinear_arith)
            requires
                j == k - 1,
        ;
        let hi = if k * width < line.len() { (k * width) as int } else { line.len() as int };
        assert(segments_joined(line, width, j as int) == line.subrange(0, (j * width) as int));
        assert(segment(line, width, j as int) == line.subrange((j * width) as int, hi));
        assert(segments_joined(line, width, k as int) == segments_joined(line, width, j as int)
            + segment(line, width, j as int));
        assert(line.subrange(0, (j * width) as int) + line.subrange((j * width) as int, hi)
            =~= line.subrange(0, hi));
    }
}

/// Wrapping loses and repeats nothing: the segments of a line, one after
/// another, are the line itself, and their number is the line's row count.
pub proof fn lemma_wrap_covers_line(line: Seq<char>, width: nat)
    requires
        width > 0,
    ensures
        segments_joined(line, width, rows_of(line, true, width) as int) == line,
        rows_of(line, true, width) == if line.len() == 0 { 1 } else { ceil_div(line.len(), width) },
{
    if line.len() == 0 {
        assert(segments_joined(line, width, 0) =~= Seq::<char>::empty());
        assert(0 * width == 0 && 1 * width == width) by (nonlinear_arith);
        assert(segment(line, width, 0) =~= line);
        assert(segments_joined(line, width, 1) =~= line);
    } else {
        let n = ceil_div(line.len(), width);
        lemma_segments_prefix(line, width, n);
        lemma_ceil_div_covers(line.len(), width);
        assert(line.subrange(0, line.len() as int) =~= line);
    }
}

/// One line of a file, without its terminator.
pub struct Line {
    value: Vec<char>,
}

impl View for Line {
    type V = Seq<char>;

    closed spec fn view(&self) -> Seq<char> {
        self.value@
    }
}

impl Line {
    pub fn from(value: String) -> (r: Line)
        ensures
            r@ == value@,
    {
        Line { value: chars_of(value.as_str()) }
    }

    /// The number of screen rows the line takes at the given width.
    pub fn display_rows(&self, is_wrap: bool, width: usize) -> (r: usize)
        requires
            is_wrap ==> width > 0,
        ensures
            r == rows_of(self@, is_wrap, width as nat),
    {
        if !is_wrap {
            return 1;
        }
        if self.value.len() == 0 {
            1
        } else {
            proof {
                lemma_ceil_div_bound(self@.len(), width as nat);
            }
            let mut div: usize = self.value.len() / width;
            if self.value.len() % width != 0 {
                div += 1;
            }
            div
        }
    }

    /// The line cut into the `width`-sized segments that wrapping shows, one
    /// screen row each.
    pub fn render(&self, width: usize) -> (r: Vec<String>)
        requires
            width > 0,
        ensures
            r@.len() == rows_of(self@, true, width as nat),
            forall|i: int| 0 <= i < r@.len() ==> #[trigger] r@[i]@ == segment(self@, width as nat, i),
    {
        let n = self.display_rows(true, width);
        let len = self.value.len();
        let mut r: Vec<String> = Vec::new();
        let mut i: usize = 0;
        while i < n
            invariant
                n == rows_of(self@, true, width as nat),
                len == self@.len(),
                width > 0,
                i <= n,
                r@.len() == i,
                forall|j: int| 0 <= j < i ==> #[trigger] r@[j]@ == segment(self@, width as nat, j),
            decreases n - i,
        {
            let lo: usize;
            if len == 0 {
                assert(i == 0);
                lo = 0;
            } else {
                proof {
                    lemma_segment_start(len as nat, width as nat, i as nat);
                }
                lo = i * width;
            }
            let hi: usize = if len - lo > width { lo + width } else { len };
            proof {
                assert((i + 1) * width == i * width + width) by (nonlinear_arith);
            }
            assert(lo == i * width);
            let piece = string_of_range(&self.value, lo, hi);
            assert(piece@ == segment(self@, width as nat, i as int));
            r.push(piece);
            i = i + 1;
        }
        r
    }

    /// What the line shows with wrapping off, for a cursor at column
    /// `cursor_col_pos - 1`: its first `width` characters, or, once the cursor
    /// has passed the window's right edge, a `width`-wide window that ends
    /// just before `cursor_col_pos`.
    pub fn render_no_wrap(&self, cursor_col_pos: usize, width: usize) -> (r: String)
        ensures
            r@ == clipped(self@, cursor_col_pos as nat, width as nat),
    {
        let len = self.value.len();
        if cursor_col_pos > width {
            let left: usize = if cursor_col_pos - width < len { cursor_col_pos - width } else { len };
            let right: usize = if len - left > width { left + width } else { len };
            string_of_range(&self.value, left, right)
        } else {
            let right: usize = if width < len { width } else { len };
            string_of_range(&self.value, 0, right)
        }
    }
}

/// The text after typing `c` at offset `col` of line `row`: a line feed
/// splits the line there, any other character goes in before that offset.
pub open spec fn typed(ls: Seq<Seq<char>>, row: int, col: int, c: char) -> Seq<Seq<char>> {
    let line = ls[row];
    if c == '\n' {
        ls.update(row, line.take(col)).insert(row + 1, line.skip(col))
    } else {
        ls.update(row, line.take(col).push(c) + line.skip(col))
    }
}

/// The text after erasing before offset `col` of line `row`: the character
/// there when `col > 0`; at the start of any line but the first, the line
/// break, which joins the line to the one above; nothing at the very start.
pub open spec fn erased(ls: Seq<Seq<char>>, row: int, col: int) -> Seq<Seq<char>> {
    if col > 0 {
        ls.update(row, ls[row].take(col - 1) + ls[row].skip(col))
    } else if row > 0 {
        ls.update(row - 1, ls[row - 1] + ls[row]).remove(row)
    } else {
        ls
    }
}

proof fn lemma_typed_keeps_lines_whole(ls: Seq<Seq<char>>, row: int, col: int, c: char)
    requires
        0 <= row < ls.len(),
        0 <= col <= ls[row].len(),
        forall|i: int, j: int| 0 <= i < ls.len() && 0 <= j < ls[i].len() ==> #[trigger] ls[i][j] != '\n',
    ensures
        forall|i: int, j: int|
            0 <= i < typed(ls, row, col, c).len() && 0 <= j < typed(ls, row, col, c)[i].len()
                ==> #[trigger] typed(ls, row, col, c)[i][j] != '\n',
{
    let t = typed(ls, row, col, c);
    let line = ls[row];
    assert forall|i: int, j: int| 0 <= i < t.len() && 0 <= j < t[i].len() implies #[trigger] t[i][j]
        != '\n' by {
        if c == '\n' {
            if i == row + 1 {
                assert(t[i][j] == line[j + col]);
            } else if i == row {
                assert(t[i][j] == line[j]);
            } else if i < row {
                assert(t[i] == ls[i]);
            } else {
                assert(t[i] == ls[i - 1]);
            }
        } else if i == row {
            if j < col {
                assert(t[i][j] == line[j]);
            } else if j > col {
                assert(t[i][j] == line[j - 1]);
            }
        } else {
            assert(t[i] == ls[i]);
        }
    }
}

proof fn lemma_erased_keeps_lines_whole(ls: Seq<Seq<char>>, row: int, col: int)
    requires
        0 <= row < ls.len(),
        0 <= col <= ls[row].len(),
        forall|i: int, j: int| 0 <= i < ls.len() && 0 <= j < ls[i].len() ==> #[trigger] ls[i][j] != '\n',
    ensures
        forall|i: int, j: int|
            0 <= i < erased(ls, row, col).len() && 0 <= j < erased(ls, row, col)[i].len()
                ==> #[trigger] erased(ls, row, col)[i][j] != '\n',
{
    let t = erased(ls, row, col);
    assert forall|i: int, j: int| 0 <= i < t.len() && 0 <= j < t[i].len() implies #[trigger] t[i][j]
        != '\n' by {
        if col > 0 {
            if i == row {
                if j < col - 1 {
                    assert(t[i][j] == ls[row][j]);
                } else {
                    assert(t[i][j] == ls[row][j + 1]);
                }
            } else {
                assert(t[i] == ls[i]);
            }
        } else if row > 0 {
            if i == row - 1 {
                if j < ls[row - 1].len() {
                    assert(t[i][j] == ls[row - 1][j]);
                } else {
                    assert(t[i][j] == ls[row][j - ls[row - 1].len()]);
                }
            } else if i < row - 1 {
                assert(t[i] == ls[i]);
            } else {
                assert(t[i] == ls[i + 1]);
            }
        }
    }
}

/// The end of the range of lines that a window of `height` rows shows from
/// line `top`, its last row kept for the status line. With wrapping off, up
/// to `height - 1` lines. With wrapping on, the lines that fit whole in
/// `height - 1` rows: none when line `top` alone takes more.
pub open spec fn visible_end(ls: Seq<Seq<char>>, wrap: bool, width: nat, top: int, height: int) -> int {
    let n = ls.len() as int;
    if !wrap {
        if top + height - 1 < n {
            top + height - 1
        } else {
            n
        }
    } else {
        choose|e: int|
            top <= e <= n && #[trigger] rows_between(ls, wrap, width, top, e) <= height - 1 && (e == n
                || rows_between(ls, wrap, width, top, e + 1) > height - 1)
    }
}

/// The screen rows of one line: its segments with wrapping on, else its
/// window for a cursor at column `pos - 1`.
pub open spec fn line_rows(line: Seq<char>, wrap: bool, width: nat, pos: nat) -> Seq<Seq<char>> {
    if wrap {
        Seq::new(rows_of(line, true, width), |i: int| segment(line, width, i))
    } else {
        seq![clipped(line, pos, width)]
    }
}

/// The screen rows of lines `from..to`, in order.
pub open spec fn rows_shown(ls: Seq<Seq<char>>, wrap: bool, width: nat, pos: nat, from: int, to: int) -> Seq<Seq<char>>
    decreases to - from,
{
    if to <= from {
        Seq::empty()
    } else {
        rows_shown(ls, wrap, width, pos, from, to - 1) + line_rows(ls[to - 1], wrap, width, pos)
    }
}

/// The text as a file holds it: each line followed by a carriage return and a
/// line feed.
pub open spec fn terminated(ls: Seq<Seq<char>>) -> Seq<char>
    decreases ls.len(),
{
    if ls.len() == 0 {
        Seq::empty()
    } else {
        terminated(ls.drop_last()) + ls.last() + seq!['\r', '\n']
    }
}

proof fn lemma_visible_end_unique(ls: Seq<Seq<char>>, wrap: bool, width: nat, top: int, height: int, e: int)
    requires
        width > 0,
        0 <= top <= e <= ls.len(),
        rows_between(ls, wrap, width, top, e) <= height - 1,
        e == ls.len() || rows_between(ls, wrap, width, top, e + 1) > height - 1,
    ensures
        wrap ==> visible_end(ls, wrap, width, top, height) == e,
{
    if wrap {
        let n = ls.len() as int;
        let f = visible_end(ls, wrap, width, top, height);
        assert(top <= f <= n && rows_between(ls, wrap, width, top, f) <= height - 1 && (f == n
            || rows_between(ls, wrap, width, top, f + 1) > height - 1));
        if f < e {
            lemma_rows_between_grows(ls, wrap, width, top, f + 1, e);
        } else if f > e {
            lemma_rows_between_grows(ls, wrap, width, top, e + 1, f);
        }
    }
}

/// A file being edited: its lines, the cursor, the first line shown, and
/// whether long lines wrap.
pub struct Buffer {
    lines: Vec<Line>,
    cursor: Cursor,
    top_offset: usize,
    filename: String,
    is_wrap: bool,
}

/// The texts of lines, in order.
pub open spec fn texts_of(lines: Seq<Line>) -> Seq<Seq<char>> {
    lines.map_values(|l: Line| l@)
}

/// The characters of the given texts, as many as `text_size_of` counts, or
/// `None` when that number does not fit in a `usize`.
pub fn text_size(lines: &Vec<String>) -> (r: Option<usize>)
    ensures
        r == (if text_size_of(lines@.map_values(|s: String| s@)) <= usize::MAX {
            Some(text_size_of(lines@.map_values(|s: String| s@)) as usize)
        } else {
            None::<usize>
        }),
{
    let ghost ls = lines@.map_values(|s: String| s@);
    let mut total: usize = 0;
    let mut i: usize = 0;
    while i < lines.len()
        invariant
            ls == lines@.map_values(|s: String| s@),
            i <= lines.len(),
            total == chars_between(ls, 0, i as int),
        decreases lines.len() - i,
    {
        let n = lines[i].as_str().unicode_len();
        proof {
            lemma_chars_between_split(ls, 0, i + 1, ls.len() as int);
        }
        match total.checked_add(n) {
            Some(t) => match t.checked_add(1) {
                Some(t) => {
                    total = t;
                },
                None => {
                    return None;
                },
            },
            None => {
                return None;
            },
        }
        i = i + 1;
    }
    Some(total)
}

impl Buffer {
    /// The text, one sequence of characters per line.
    pub closed spec fn text(&self) -> Seq<Seq<char>> {
        texts_of(self.lines@)
    }

    /// The first line shown.
    pub closed spec fn top(&self) -> usize {
        self.top_offset
    }

    /// The cursor.
    pub closed spec fn cur(&self) -> Cursor {
        self.cursor
    }

    /// Whether long lines wrap.
    pub closed spec fn wrap(&self) -> bool {
        self.is_wrap
    }

    /// The file's name.
    pub closed spec fn name(&self) -> Seq<char> {
        self.filename@
    }

    /// At least one line, the first line shown is one of them, no line holds a
    /// line feed, and the text's size fits in a `usize`.
    pub open spec fn wf(&self) -> bool {
        &&& self.text().len() >= 1
        &&& self.top() < self.text().len()
        &&& text_size_of(self.text()) <= usize::MAX
        &&& forall|i: int, j: int|
            0 <= i < self.text().len() && 0 <= j < self.text()[i].len() ==> #[trigger] self.text()[i][j]
                != '\n'
    }

    /// The screen rows of lines `top_offset..to`.
    pub open spec fn rows_to(&self, width: nat, to: int) -> nat {
        rows_between(self.text(), self.wrap(), width, self.top() as int, to)
    }

    /// The screen rows of all lines from `top_offset` on.
    pub open spec fn last_row(&self, width: nat) -> nat {
        self.rows_to(width, self.text().len() as int)
    }

    /// The line under screen row `row`.
    pub open spec fn line_of(&self, width: nat, row: int) -> int {
        line_at_row(self.text(), self.wrap(), width, self.top() as int, row)
    }

    /// The character offset under screen position (`row`, `col`).
    pub open spec fn col_of(&self, width: nat, row: int, col: int) -> int {
        col_at(self.text(), self.wrap(), width, self.top() as int, row, col)
    }

    /// Where the cursor stands once brought back onto the text. First, from
    /// below the last line, to the last screen row, after the last line's last
    /// character. Then, when its offset lies at or past the end of its line, to
    /// the column after that line's last character, on the same row.
    #[verifier::opaque]
    pub open spec fn clamped(&self, width: nat) -> (int, int) {
        let last = self.last_row(width) as int;
        let n = self.text().len() as int;
        let below = self.cur().row() >= last;
        let row = if below { last - 1 } else { self.cur().row() as int };
        let col = if below { last_col_of(self.text()[n - 1], self.wrap(), width) as int } else {
            self.cur().col() as int
        };
        let line = self.line_of(width, row);
        if self.col_of(width, row, col) >= self.text()[line].len() {
            (row, last_col_of(self.text()[line], self.wrap(), width) as int)
        } else {
            (row, col)
        }
    }

    /// The line an edit applies to: the one under the clamped cursor.
    pub open spec fn edit_row(&self, width: nat) -> int {
        self.line_of(width, self.clamped(width).0)
    }

    /// The offset within `edit_row` an edit applies at.
    pub open spec fn edit_col(&self, width: nat) -> int {
        self.col_of(width, self.clamped(width).0, self.clamped(width).1)
    }

    /// `after` is the same file, still well formed, with the same wrapping.
    pub open spec fn same_file(&self, after: Buffer) -> bool {
        &&& after.wf()
        &&& after.wrap() == self.wrap()
        &&& after.name() == self.name()
    }

    /// `after` is this buffer once `c` was typed at the clamped cursor: a line
    /// feed splits the line and puts the cursor at the start of the next row,
    /// any other character goes in and moves the cursor one column right.
    pub open spec fn wrote(&self, after: Buffer, c: char, width: nat) -> bool {
        let (row, col) = self.clamped(width);
        &&& self.same_file(after)
        &&& after.text() == typed(self.text(), self.edit_row(width), self.edit_col(width), c)
        &&& after.top() == self.top()
        &&& c == '\n' ==> after.cur().row() == row + 1 && after.cur().col() == 0
        &&& c != '\n' ==> after.cur().row() == row && after.cur().col() == col + 1
    }

    /// `after` is this buffer once erased before the clamped cursor: the
    /// character to its left, with the cursor one column left; at the start of
    /// a line, the line break, with the cursor at the join: after the old end
    /// of the line above, on the row above, or on the first row when the
    /// joined line was shown first, in which case the line above is shown
    /// first instead; at the start of the first line, nothing.
    pub open spec fn deleted(&self, after: Buffer, width: nat) -> bool {
        let (row, col) = self.clamped(width);
        let r = self.edit_row(width);
        let c = self.edit_col(width);
        &&& self.same_file(after)
        &&& after.text() == erased(self.text(), r, c)
        &&& if c > 0 {
            &&& after.top() == self.top()
            &&& after.cur().row() == row
            &&& after.cur().col() == if col > 0 { col - 1 } else { 0 }
        } else if r > 0 {
            &&& after.top() == if r == self.top() { self.top() - 1 } else { self.top() as int }
            &&& after.cur().row() == if row > 0 { row - 1 } else { 0 }
            &&& after.cur().col() == self.text()[r - 1].len()
        } else {
            &&& after.top() == self.top()
            &&& after.cur().row() == row
            &&& after.cur().col() == col
        }
    }

    /// `after` is this buffer once moved down a row: nothing on or below the
    /// last row of text; within two rows of the bottom of a window of `height`
    /// rows, the text scrolls up a line instead, while a line is left below
    /// the first one shown.
    pub open spec fn moved_down(&self, after: Buffer, width: nat, height: int) -> bool {
        let row = self.cur().row();
        &&& self.same_file(after)
        &&& after.text() == self.text()
        &&& if row + 1 >= self.last_row(width) {
            after.top() == self.top() && after.cur() == self.cur()
        } else if row + 2 >= height && self.top() + 1 < self.text().len() {
            after.top() == self.top() + 1 && after.cur() == self.cur()
        } else {
            &&& after.top() == self.top()
            &&& after.cur().row() == row + 1
            &&& after.cur().col() == self.cur().col()
        }
    }

    /// `after` is this buffer once moved up a row: on the first row, the text
    /// scrolls down a line instead, when a line above is left to show.
    pub open spec fn moved_up(&self, after: Buffer) -> bool {
        let row = self.cur().row();
        &&& self.same_file(after)
        &&& after.text() == self.text()
        &&& if row == 0 && self.top() > 0 {
            after.top() == self.top() - 1 && after.cur() == self.cur()
        } else {
            &&& after.top() == self.top()
            &&& after.cur().row() == if row > 0 { row - 1 } else { 0 }
            &&& after.cur().col() == self.cur().col()
        }
    }

    /// `after` is this buffer with the cursor one column left, unless in the
    /// first column.
    pub open spec fn moved_left(&self, after: Buffer) -> bool {
        &&& self.same_file(after)
        &&& after.text() == self.text()
        &&& after.top() == self.top()
        &&& after.cur().row() == self.cur().row()
        &&& after.cur().col() == if self.cur().col() > 0 { self.cur().col() - 1 } else { 0 }
    }

    /// `after` is this buffer with the cursor one column right.
    pub open spec fn moved_right(&self, after: Buffer) -> bool {
        &&& self.same_file(after)
        &&& after.text() == self.text()
        &&& after.top() == self.top()
        &&& after.cur().row() == self.cur().row()
        &&& after.cur().col() == self.cur().col() + 1
    }

    /// `after` is this buffer with wrapping switched.
    pub open spec fn toggled(&self, after: Buffer) -> bool {
        &&& after.wf()
        &&& after.wrap() == !self.wrap()
        &&& after.name() == self.name()
        &&& after.text() == self.text()
        &&& after.top() == self.top()
        &&& after.cur() == self.cur()
    }

    /// A buffer holding the given lines, or one empty line when there are
    /// none, with the cursor at the top left, the first line shown and
    /// wrapping off.
    pub fn new(filename: &str, lines: Vec<String>) -> (r: Buffer)
        requires
            text_size_of(lines@.map_values(|s: String| s@)) <= usize::MAX,
            forall|i: int, j: int|
                0 <= i < lines@.len() && 0 <= j < lines@[i]@.len() ==> #[trigger] lines@[i]@[j]
                    != '\n',
        ensures
            r.wf(),
            r.text() == (if lines@.len() == 0 {
                seq![Seq::<char>::empty()]
            } else {
                lines@.map_values(|s: String| s@)
            }),
            r.name() == filename@,
            r.cur().row() == 0,
            r.cur().col() == 0,
            r.top() == 0,
            !r.wrap(),
    {
        let ghost ls = lines@.map_values(|s: String| s@);
        let mut buffer: Vec<Line> = Vec::new();
        let mut i: usize = 0;
        while i < lines.len()
            invariant
                ls == lines@.map_values(|s: String| s@),
                i <= lines.len(),
                buffer@.len() == i,
                forall|k: int| 0 <= k < i ==> #[trigger] buffer@[k]@ == ls[k],
            decreases lines.len() - i,
        {
            let line = Line::from(lines[i].clone());
            assert(ls[i as int] == lines@[i as int]@);
            buffer.push(line);
            i = i + 1;
        }
        assert(texts_of(buffer@) =~= ls);
        if buffer.len() == 0 {
            buffer.push(Line { value: Vec::new() });
            assert(texts_of(buffer@) =~= seq![Seq::<char>::empty()]);
            assert(text_size_of(texts_of(buffer@)) == 1) by {
                reveal_with_fuel(chars_between, 2);
            }
        }
        Buffer {
            lines: buffer,
            cursor: Cursor::new(),
            top_offset: 0,
            filename: String::from_str(filename),
            is_wrap: false,
        }
    }

    /// The text's size: its characters and one terminator for each line.
    pub fn size(&self) -> (r: usize)
        requires
            self.wf(),
        ensures
            r == text_size_of(self.text()),
    {
        let n = self.lines.len();
        let mut total: usize = 0;
        let mut i: usize = 0;
        while i < n
            invariant
                self.wf(),
                n == self.text().len(),
                i <= n,
                total == chars_between(self.text(), 0, i as int),
            decreases n - i,
        {
            proof {
                lemma_chars_between_split(self.text(), 0, i + 1, n as int);
            }
            assert(self.text()[i as int] == self.lines@[i as int]@);
            total = total + self.lines[i].value.len() + 1;
            i = i + 1;
        }
        total
    }

    /// The cursor.
    pub fn cursor(&self) -> (r: &Cursor)
        ensures
            *r == self.cur(),
    {
        &self.cursor
    }

    /// The first line shown.
    pub fn top_offset(&self) -> (r: usize)
        ensures
            r == self.top(),
    {
        self.top_offset
    }

    /// The file's name.
    pub fn filename(&self) -> (r: &String)
        ensures
            r@ == self.name(),
    {
        &self.filename
    }

    /// The line under the cursor: the one whose screen rows, counted from the
    /// first row of `top_offset`, hold the cursor's row; `top_offset` when the
    /// cursor lies below the last line.
    pub fn buffer_row(&self, width: usize) -> (r: usize)
        requires
            self.wf(),
            width > 0,
        ensures
            r == self.line_of(width as nat, self.cur().row() as int),
            self.top() <= r < self.text().len(),
    {
        let cursor_row = self.cursor.row();
        let n = self.lines.len();
        let mut total_cursor_rows: usize = 0;
        let mut i: usize = self.top_offset;
        proof {
            lemma_rows_within_chars(self.text(), self.wrap(), width as nat, self.top() as int, n as int);
        }
        while i < n
            invariant
                self.wf(),
                width > 0,
                n == self.text().len(),
                self.top() <= i <= n,
                total_cursor_rows == self.rows_to(width as nat, i as int),
                total_cursor_rows <= cursor_row,
                cursor_row == self.cur().row(),
            decreases n - i,
        {
            proof {
                lemma_rows_within_chars(self.text(), self.wrap(), width as nat, self.top() as int, i + 1);
            }
            assert(self.text()[i as int] == self.lines@[i as int]@);
            total_cursor_rows += self.lines[i].display_rows(self.is_wrap, width);
            if total_cursor_rows > cursor_row {
                proof {
                    lemma_line_at_row(self.text(), self.wrap(), width as nat, self.top() as int,
                        cursor_row as int, i as int);
                }
                return i;
            }
            i = i + 1;
        }
        self.top_offset
    }

    /// The screen row on which `buffer_row` begins: the rows of the lines from
    /// `top_offset` up to it.
    pub fn buffer_row_start(&self, buffer_row: usize, width: usize) -> (r: usize)
        requires
            self.wf(),
            width > 0,
            self.top() <= buffer_row <= self.text().len(),
        ensures
            r == self.rows_to(width as nat, buffer_row as int),
    {
        let mut total: usize = 0;
        let mut i: usize = self.top_offset;
        while i < buffer_row
            invariant
                self.wf(),
                width > 0,
                buffer_row <= self.text().len(),
                self.top() <= i <= buffer_row,
                total == self.rows_to(width as nat, i as int),
            decreases buffer_row - i,
        {
            proof {
                lemma_rows_within_chars(self.text(), self.wrap(), width as nat, self.top() as int, i + 1);
            }
            assert(self.text()[i as int] == self.lines@[i as int]@);
            total += self.lines[i].display_rows(self.is_wrap, width);
            i = i + 1;
        }
        total
    }

    /// One past the last screen row that holds text: the rows of all lines
    /// from `top_offset` on.
    pub fn last_cursor_row(&self, width: usize) -> (r: usize)
        requires
            self.wf(),
            width > 0,
        ensures
            r == self.last_row(width as nat),
    {
        self.buffer_row_start(self.lines.len(), width)
    }

    /// The cursor's offset within its line: its column, plus, with wrapping
    /// on, `width` for each segment of the line above the cursor's row; at
    /// most `usize::MAX`.
    pub fn buffer_col(&self, width: usize) -> (r: usize)
        requires
            self.wf(),
            width > 0,
        ensures
            r == (if self.col_of(width as nat, self.cur().row() as int, self.cur().col() as int)
                <= usize::MAX {
                self.col_of(width as nat, self.cur().row() as int, self.cur().col() as int)
            } else {
                usize::MAX as int
            }),
    {
        let cursor_row = self.cursor.row();
        let cursor_col = self.cursor.col();
        if !self.is_wrap {
            return cursor_col;
        }
        let buffer_row = self.buffer_row(width);
        let start = self.buffer_row_start(buffer_row, width);
        proof {
            if cursor_row < self.last_row(width as nat) {
                lemma_line_at_row_holds(self.text(), self.wrap(), width as nat, self.top() as int,
                    cursor_row as int);
                let i = buffer_row as int;
                assert(self.top() <= i < self.text().len() && #[trigger] self.rows_to(width as nat, i)
                    <= cursor_row < self.rows_to(width as nat, i + 1));
            }
        }
        let cursor_row_offset = cursor_row - start;
        match width.checked_mul(cursor_row_offset) {
            Some(p) => p.saturating_add(cursor_col),
            None => usize::MAX,
        }
    }

    /// The column after the last character of `buffer_row`: its length with
    /// wrapping off, the length of its last segment with wrapping on.
    pub fn last_cursor_col(&self, buffer_row: usize, width: usize) -> (r: usize)
        requires
            self.wf(),
            width > 0,
            buffer_row < self.text().len(),
        ensures
            r == last_col_of(self.text()[buffer_row as int], self.wrap(), width as nat),
    {
        let line_length = self.lines[buffer_row].value.len();
        if !self.is_wrap {
            return line_length;
        }
        line_length % width
    }

    /// Types `char` at offset `col` of line `row`; the cursor stays.
    fn type_at(&mut self, row: usize, col: usize, char: char)
        requires
            old(self).wf(),
            row < old(self).text().len(),
            col <= old(self).text()[row as int].len(),
            text_size_of(old(self).text()) < usize::MAX,
        ensures
            final(self).wf(),
            final(self).text() == typed(old(self).text(), row as int, col as int, char),
            final(self).cur() == old(self).cur(),
            final(self).top() == old(self).top(),
            final(self).wrap() == old(self).wrap(),
            final(self).name() == old(self).name(),
    {
        let ghost old_text = self.text();
        let ghost line = old_text[row as int];
        assert(self.lines@[row as int]@ == line);
        if char == '\n' {
            let n = self.lines.len();
            assert(row < n);
            let next = row + 1;
            let rest = self.lines[row].value.split_off(col);
            self.lines.insert(next, Line { value: rest });
            proof {
                let u = old_text.update(row as int, line.take(col as int));
                lemma_size_update(old_text, row as int, line.take(col as int));
                lemma_size_insert(u, row + 1, line.skip(col as int));
            }
        } else {
            self.lines[row].value.insert(col, char);
            proof {
                let x = line.take(col as int).push(char) + line.skip(col as int);
                lemma_size_update(old_text, row as int, x);
            }
        }
        assert(self.text() =~= typed(old_text, row as int, col as int, char));
        proof {
            lemma_typed_keeps_lines_whole(old_text, row as int, col as int, char);
        }
    }

    /// Types `char` at the clamped cursor: a line feed splits the line and
    /// moves the cursor to the start of the next row, any other character goes
    /// in and moves the cursor one column right.
    pub fn write(&mut self, char: char, width: usize)
        requires
            old(self).wf(),
            width > 0,
            text_size_of(old(self).text()) < usize::MAX,
        ensures
            old(self).wrote(*final(self), char, width as nat),
    {
        let ghost w = width as nat;
        self.adjust_cursor_boundary_before_edit(width);
        let row = self.buffer_row(width);
        let col = self.buffer_col(width);
        proof {
            let t = self.text();
            lemma_rows_within_chars(t, self.wrap(), w, self.top() as int, t.len() as int);
            lemma_rows_within_chars(t, self.wrap(), w, row as int, row + 1);
            assert(chars_between(t, row as int, row as int) == 0);
            lemma_line_at_row_holds(t, self.wrap(), w, self.top() as int, self.cur().row() as int);
            if self.wrap() {
                let off = self.cur().row() - self.rows_to(w, row as int);
                assert(self.cur().col() <= width * off + self.cur().col()) by (nonlinear_arith)
                    requires
                        off >= 0,
                ;
            }
        }
        self.type_at(row, col, char);
        if char == '\n' {
            self.cursor.new_line();
        } else {
            self.cursor.right();
        }
    }

    /// Erases before offset `col` of line `row`, as `erased` says. When the
    /// line joins the one above and was the first line shown, that one is
    /// shown first instead. The cursor stays.
    fn erase_at(&mut self, row: usize, col: usize)
        requires
            old(self).wf(),
            old(self).top() <= row < old(self).text().len(),
            col <= old(self).text()[row as int].len(),
        ensures
            final(self).wf(),
            final(self).text() == erased(old(self).text(), row as int, col as int),
            final(self).top() == (if col == 0 && row > 0 && row == old(self).top() {
                old(self).top() - 1
            } else {
                old(self).top() as int
            }),
            final(self).cur() == old(self).cur(),
            final(self).wrap() == old(self).wrap(),
            final(self).name() == old(self).name(),
    {
        let ghost old_text = self.text();
        let ghost line = old_text[row as int];
        assert(self.lines@[row as int]@ == line);
        if col == 0 {
            if row != 0 {
                let ghost above = old_text[row - 1];
                assert(self.lines@[row - 1]@ == above);
                let mut current = self.lines.remove(row);
                self.lines[row - 1].value.append(&mut current.value);
                if row == self.top_offset {
                    self.top_offset = self.top_offset - 1;
                }
                proof {
                    let u = old_text.update(row - 1, above + line);
                    lemma_size_update(old_text, row - 1, above + line);
                    lemma_size_remove(u, row as int);
                }
            }
        } else {
            self.lines[row].value.remove(col - 1);
            proof {
                lemma_size_update(old_text, row as int, line.take(col - 1) + line.skip(col as int));
            }
        }
        assert(self.text() =~= erased(old_text, row as int, col as int));
        proof {
            lemma_erased_keeps_lines_whole(old_text, row as int, col as int);
        }
    }

    /// Erases before the clamped cursor: the character to its left, moving the
    /// cursor one column left; at the start of a line, the line break, joining
    /// the line to the one above, with the cursor at the join; nothing at the
    /// start of the first line.
    pub fn delete(&mut self, width: usize)
        requires
            old(self).wf(),
            width > 0,
        ensures
            old(self).deleted(*final(self), width as nat),
    {
        let ghost w = width as nat;
        self.adjust_cursor_boundary_before_edit(width);
        let row = self.buffer_row(width);
        let col = self.buffer_col(width);
        proof {
            let t = self.text();
            lemma_rows_within_chars(t, self.wrap(), w, row as int, row + 1);
            assert(chars_between(t, row as int, row as int) == 0);
        }
        if col == 0 {
            if row != 0 {
                let l = self.lines[row - 1].value.len();
                assert(l == self.text()[row - 1].len());
                self.erase_at(row, col);
                if self.cursor.row() > 0 {
                    self.cursor.delete_line(l);
                } else {
                    self.cursor.goto(0, l);
                }
            }
        } else {
            self.erase_at(row, col);
            self.cursor.left();
        }
    }

    /// Moves down one screen row. Nothing when the cursor is on or below the
    /// last row of text. Within two rows of the window's bottom (a window of
    /// `height` rows, the last of them for the status line), the text scrolls
    /// up one line instead, as long as a line is left to show below the first.
    pub fn down(&mut self, width: usize, height: usize)
        requires
            old(self).wf(),
            width > 0,
        ensures
            old(self).moved_down(*final(self), width as nat, height as int),
    {
        let ghost w = width as nat;
        proof {
            lemma_rows_between_grows(self.text(), self.wrap(), w, self.top() as int, self.top() as int,
                self.text().len() as int);
        }
        let last = self.last_cursor_row(width);
        if self.cursor.row() >= last - 1 {
            return;
        }
        if self.cursor.row() + 2 >= height && self.top_offset < self.lines.len() - 1 {
            self.top_offset += 1;
        } else {
            self.cursor.down();
        }
    }

    /// Moves up one screen row; on the first row, scrolls down one line
    /// instead, when a line above is left to show.
    pub fn up(&mut self)
        requires
            old(self).wf(),
        ensures
            old(self).moved_up(*final(self)),
    {
        if self.cursor.row() == 0 && self.top_offset > 0 {
            self.top_offset -= 1;
        } else if self.cursor.row() > 0 {
            self.cursor.up();
        }
    }

    /// Moves the cursor one column left, when it is not in the first.
    pub fn left(&mut self)
        requires
            old(self).wf(),
        ensures
            old(self).moved_left(*final(self)),
    {
        self.cursor.left();
    }

    /// Moves the cursor one column right.
    pub fn right(&mut self)
        requires
            old(self).wf(),
            old(self).cur().col() < usize::MAX,
        ensures
            old(self).moved_right(*final(self)),
    {
        self.cursor.right();
    }

    /// Turns wrapping of long lines on when it is off, and off when it is on.
    pub fn toggle_wrapping(&mut self)
        requires
            old(self).wf(),
        ensures
            old(self).toggled(*final(self)),
    {
        self.is_wrap = !self.is_wrap;
    }

    /// The lines a window of `height` rows shows, as `top_offset` and the
    /// end that `visible_end` gives.
    pub fn visible_range(&self, width: usize, height: usize) -> (r: (usize, usize))
        requires
            self.wf(),
            width > 0,
            height >= 1,
        ensures
            r.0 == self.top(),
            r.1 == visible_end(self.text(), self.wrap(), width as nat, self.top() as int, height as int),
            r.0 <= r.1 <= self.text().len(),
    {
        let ghost w = width as nat;
        let top = self.top_offset;
        let n = self.lines.len();
        if !self.is_wrap {
            let end = if height - 1 < n - top { top + (height - 1) } else { n };
            return (top, end);
        }
        let mut console_rows: usize = 0;
        let mut i: usize = top;
        while i < n
            invariant
                self.wf(),
                width > 0,
                self.wrap(),
                w == width as nat,
                n == self.text().len(),
                top == self.top(),
                top <= i <= n,
                console_rows == self.rows_to(w, i as int),
                console_rows <= height - 1,
            decreases n - i,
        {
            proof {
                lemma_rows_within_chars(self.text(), self.wrap(), w, top as int, i + 1);
                assert(self.text()[i as int] == self.lines@[i as int]@);
            }
            console_rows += self.lines[i].display_rows(self.is_wrap, width);
            if console_rows > height - 1 {
                proof {
                    lemma_visible_end_unique(self.text(), self.wrap(), w, top as int, height as int, i as int);
                }
                return (top, i);
            }
            i = i + 1;
        }
        proof {
            lemma_visible_end_unique(self.text(), self.wrap(), w, top as int, height as int, n as int);
        }
        (top, n)
    }

    /// The screen rows that a window of `width` columns and `height` rows
    /// shows, from the first line shown on, its last row kept for the status
    /// line: with wrapping on, the segments of the lines that fit whole, else
    /// each line's window around the cursor's column.
    pub fn render(&self, width: usize, height: usize) -> (r: Vec<String>)
        requires
            self.wf(),
            width > 0,
            height >= 1,
        ensures
            views_of(r@) == rows_shown(
                self.text(),
                self.wrap(),
                width as nat,
                (if self.cur().col() < usize::MAX { self.cur().col() + 1 } else { usize::MAX as int }) as nat,
                self.top() as int,
                visible_end(self.text(), self.wrap(), width as nat, self.top() as int, height as int),
            ),
    {
        let ghost w = width as nat;
        let (first, end) = self.visible_range(width, height);
        let pos = self.cursor.col().saturating_add(1);
        let mut r: Vec<String> = Vec::new();
        let mut i: usize = first;
        while i < end
            invariant
                self.wf(),
                width > 0,
                w == width as nat,
                end <= self.text().len(),
                first <= i <= end,
                views_of(r@) == rows_shown(self.text(), self.wrap(), w, pos as nat, first as int, i as int),
            decreases end - i,
        {
            let ghost before = r@;
            let line = &self.lines[i];
            assert(line@ == self.text()[i as int]);
            if self.is_wrap {
                let mut segs = line.render(width);
                r.append(&mut segs);
                assert(views_of(r@) =~= views_of(before) + line_rows(line@, true, w, pos as nat));
            } else {
                let row = line.render_no_wrap(pos, width);
                r.push(row);
                assert(views_of(r@) =~= views_of(before) + line_rows(line@, false, w, pos as nat));
            }
            i = i + 1;
        }
        r
    }

    /// The text as a file holds it: each line followed by a carriage return
    /// and a line feed.
    pub fn serialize(&self) -> (r: String)
        requires
            self.wf(),
        ensures
            r@ == terminated(self.text()),
    {
        let mut r = String::new();
        let mut i: usize = 0;
        let n = self.lines.len();
        while i < n
            invariant
                n == self.text().len(),
                i <= n,
                r@ == terminated(self.text().take(i as int)),
            decreases n - i,
        {
            let line = &self.lines[i];
            let ghost before = r@;
            let mut j: usize = 0;
            while j < line.value.len()
                invariant
                    j <= line@.len(),
                    r@ == before + line@.take(j as int),
                decreases line@.len() - j,
            {
                push_char(&mut r, line.value[j]);
                assert(r@ =~= before + line@.take(j + 1));
                j = j + 1;
            }
            push_char(&mut r, '\r');
            push_char(&mut r, '\n');
            proof {
                let t = self.text().take(i + 1);
                assert(t.drop_last() =~= self.text().take(i as int));
                assert(t.last() == line@);
                assert(line@.take(line@.len() as int) =~= line@);
                assert(r@ =~= terminated(t));
            }
            i = i + 1;
        }
        assert(self.text().take(n as int) =~= self.text());
        r
    }

    /// Brings the cursor back onto the text, as `clamped` says, so that an
    /// edit at its position stays within the text.
    pub fn adjust_cursor_boundary_before_edit(&mut self, width: usize)
        requires
            old(self).wf(),
            width > 0,
        ensures
            final(self).wf(),
            final(self).text() == old(self).text(),
            final(self).top() == old(self).top(),
            final(self).wrap() == old(self).wrap(),
            final(self).name() == old(self).name(),
            final(self).cur().row() == old(self).clamped(width as nat).0,
            final(self).cur().col() == old(self).clamped(width as nat).1,
            final(self).cur().row() < final(self).last_row(width as nat),
            final(self).top() <= final(self).line_of(width as nat, final(self).cur().row() as int)
                < final(self).text().len(),
            0 <= final(self).col_of(width as nat, final(self).cur().row() as int, final(self).cur().col() as int)
                <= final(self).text()[final(self).line_of(width as nat, final(self).cur().row() as int)].len(),
    {
        let ghost w = width as nat;
        let ghost n = self.text().len() as int;
        proof {
            reveal(Buffer::clamped);
            lemma_rows_between_grows(self.text(), self.wrap(), w, self.top() as int, self.top() as int, n);
        }
        let last_cursor_row = self.last_cursor_row(width);
        if self.cursor.row() >= last_cursor_row {
            let last_cursor_column = self.last_cursor_col(self.lines.len() - 1, width);
            self.cursor.goto(last_cursor_row - 1, last_cursor_column);
        }
        let ghost row1 = self.cursor.row() as int;
        let row = self.buffer_row(width);
        let col = self.buffer_col(width);
        let ghost line = self.text()[row as int];
        proof {
            lemma_line_at_row_holds(self.text(), self.wrap(), w, self.top() as int, row1);
            lemma_rows_within_chars(self.text(), self.wrap(), w, row as int, row as int + 1);
        }
        if col >= self.lines[row].value.len() {
            let last_cursor_column = self.last_cursor_col(row, width);
            self.cursor.goto(self.cursor.row(), last_cursor_column);
            proof {
                lemma_last_col_fits(line, self.wrap(), w, row1 - self.rows_to(w, row as int));
            }
        } else {
            assert(self.col_of(w, row1, self.cur().col() as int) < line.len());
        }
    }
}

/// Clamping always lands on the text: on a row that holds text, within a line
/// of the buffer, at an offset no greater than that line's length.
pub proof fn lemma_clamp_lands_on_text(b: Buffer, width: nat)
    requires
        b.wf(),
        width > 0,
    ensures
        0 <= b.clamped(width).0 < b.last_row(width),
        b.top() <= b.line_of(width, b.clamped(width).0) < b.text().len(),
        0 <= b.col_of(width, b.clamped(width).0, b.clamped(width).1) <= b.text()[b.line_of(
            width,
            b.clamped(width).0,
        )].len(),
{
    reveal(Buffer::clamped);
    let n = b.text().len() as int;
    let top = b.top() as int;
    lemma_rows_between_grows(b.text(), b.wrap(), width, top, top, n);
    let (row, col) = b.clamped(width);
    lemma_line_at_row_holds(b.text(), b.wrap(), width, top, row);
    let i = b.line_of(width, row);
    lemma_last_col_fits(b.text()[i], b.wrap(), width, row - b.rows_to(width, i));
    if b.wrap() {
        assert(0 <= width * (row - b.rows_to(width, i))) by (nonlinear_arith)
            requires
                row >= b.rows_to(width, i),
        ;
    }
}

/// Typing a character and then erasing just after it restores the text: for
/// a line feed, erasing at the start of the line it began.
pub proof fn lemma_type_then_erase(ls: Seq<Seq<char>>, row: int, col: int, c: char)
    requires
        0 <= row < ls.len(),
        0 <= col <= ls[row].len(),
    ensures
        c != '\n' ==> erased(typed(ls, row, col, c), row, col + 1) == ls,
        c == '\n' ==> erased(typed(ls, row, col, c), row + 1, 0) == ls,
{
    let line = ls[row];
    let t = typed(ls, row, col, c);
    if c == '\n' {
        assert(line.take(col) + line.skip(col) =~= line);
        assert(erased(t, row + 1, 0) =~= ls);
    } else {
        let typed_line = line.take(col).push(c) + line.skip(col);
        assert(typed_line.take(col) + typed_line.skip(col + 1) =~= line);
        assert(erased(t, row, col + 1) =~= ls);
    }
}

/// The screen row on which a line begins lies on that line: mapping a line
/// shown to its first row and back gives the same line.
pub proof fn lemma_row_start_maps_back(ls: Seq<Seq<char>>, wrap: bool, width: nat, top: int, r: int)
    requires
        width > 0,
        0 <= top <= r < ls.len(),
    ensures
        line_at_row(ls, wrap, width, top, rows_between(ls, wrap, width, top, r) as int) == r,
{
    lemma_rows_of_bound(ls[r], wrap, width);
    lemma_line_at_row(ls, wrap, width, top, rows_between(ls, wrap, width, top, r) as int, r);
}

/// Writing a text out and reading its lines back gives the same lines, as
/// long as none of them holds a line feed.
pub proof fn lemma_serialize_round_trip(ls: Seq<Seq<char>>)
    requires
        forall|i: int, j: int| 0 <= i < ls.len() && 0 <= j < ls[i].len() ==> #[trigger] ls[i][j] != '\n',
    ensures
        lines_in(terminated(ls)) == ls,
    decreases ls.len(),
{
    if ls.len() == 0 {
        assert(lines_in(terminated(ls)) =~= ls);
    } else {
        let front = ls.drop_last();
        let line = ls.last();
        assert forall|i: int, j: int| 0 <= i < front.len() && 0 <= j < front[i].len() implies #[trigger] front[i][j]
            != '\n' by {
            assert(front[i] == ls[i]);
        }
        lemma_serialize_round_trip(front);
        let head = terminated(front);
        let t = terminated(ls);
        let tail = line + seq!['\r'];
        assert forall|j: int| 0 <= j < tail.len() implies #[trigger] tail[j] != '\n' by {
            if j < line.len() {
                assert(ls[ls.len() - 1][j] != '\n');
            }
        }
        let body = t.drop_last();
        assert(body =~= head + tail);
        lemma_last_feed_append(head, tail);
        if front.len() > 0 {
            assert(head.last() == '\n');
        } else {
            assert(head =~= Seq::<char>::empty());
        }
        let k = last_feed(body);
        assert(k == head.len() - 1);
        assert(t.take(k + 1) =~= head);
        assert(body.skip(k + 1) =~= tail);
        assert(strip_cr(tail) =~= line);
        assert(lines_in(t) =~= ls);
    }
}

proof fn lemma_rows_between_same(a: Seq<Seq<char>>, b: Seq<Seq<char>>, wrap: bool, width: nat, lo: int, hi: int)
    requires
        forall|k: int| lo <= k < hi ==> #[trigger] a[k] == b[k],
    ensures
        rows_between(a, wrap, width, lo, hi) == rows_between(b, wrap, width, lo, hi),
    decreases hi - lo,
{
    if hi > lo {
        lemma_rows_between_same(a, b, wrap, width, lo, hi - 1);
        assert(a[hi - 1] == b[hi - 1]);
    }
}

proof fn lemma_rows_between_unwrapped(ls: Seq<Seq<char>>, width: nat, lo: int, hi: int)
    requires
        lo <= hi,
    ensures
        rows_between(ls, false, width, lo, hi) == hi - lo,
    decreases hi - lo,
{
    if hi > lo {
        lemma_rows_between_unwrapped(ls, width, lo, hi - 1);
    }
}

proof fn lemma_rows_of_longer(short: Seq<char>, long: Seq<char>, wrap: bool, width: nat)
    requires
        width > 0,
        long.len() == short.len() + 1,
    ensures
        rows_of(short, wrap, width) <= rows_of(long, wrap, width),
{
    if wrap && short.len() > 0 {
        let a = short.len();
        let q = a / width;
        let r = a % width;
        let q2 = (a + 1) / width;
        let r2 = (a + 1) % width;
        lemma_fundamental_div_mod(a as int, width as int);
        lemma_mod_bound(a as int, width as int);
        lemma_fundamental_div_mod((a + 1) as int, width as int);
        lemma_mod_bound((a + 1) as int, width as int);
        assert(ceil_div(a, width) <= ceil_div(a + 1, width)) by (nonlinear_arith)
            requires
                a == width * q + r,
                0 <= r < width,
                a + 1 == width * q2 + r2,
                0 <= r2 < width,
                ceil_div(a, width) == (if r == 0 { q } else { q + 1 }),
                ceil_div(a + 1, width) == (if r2 == 0 { q2 } else { q2 + 1 }),
        ;
    } else if wrap {
        lemma_ceil_div_bound(long.len(), width);
    }
}

/// Typing a character and then erasing restores the buffer: its text, its
/// cursor and its first line shown. This holds when the cursor already stood
/// on the text and, with wrapping on, before the end of its line.
pub proof fn lemma_write_then_delete(b: Buffer, typed_b: Buffer, erased_b: Buffer, c: char, width: nat)
    requires
        b.wf(),
        width > 0,
        c != '\n',
        b.clamped(width) == (b.cur().row() as int, b.cur().col() as int),
        b.wrap() ==> b.edit_col(width) < b.text()[b.edit_row(width)].len(),
        b.wrote(typed_b, c, width),
        typed_b.deleted(erased_b, width),
    ensures
        erased_b.text() == b.text(),
        erased_b.top() == b.top(),
        erased_b.cur().row() == b.cur().row(),
        erased_b.cur().col() == b.cur().col(),
{
    let ls = b.text();
    let ts = typed_b.text();
    let top = b.top() as int;
    let wrap = b.wrap();
    let n = ls.len() as int;
    let r0 = b.cur().row() as int;
    let c0 = b.cur().col() as int;
    let r = b.edit_row(width);
    let k = b.edit_col(width);
    lemma_clamp_lands_on_text(b, width);
    lemma_line_at_row_holds(ls, wrap, width, top, r0);
    lemma_type_then_erase(ls, r, k, c);
    assert(ts.len() == n);
    assert forall|j: int| top <= j < r implies #[trigger] ts[j] == ls[j] by {}
    lemma_rows_between_same(ts, ls, wrap, width, top, r);
    lemma_rows_of_longer(ls[r], ts[r], wrap, width);
    lemma_rows_between_grows(ts, wrap, width, top, r + 1, n);
    lemma_line_at_row(ts, wrap, width, top, r0, r);
    reveal(Buffer::clamped);
    assert(typed_b.clamped(width) == (r0, c0 + 1));
    assert(typed_b.edit_row(width) == r);
    assert(typed_b.edit_col(width) == k + 1);
}

/// Splitting a line and then erasing at the start of the new line restores
/// the buffer, with wrapping off: its text, its cursor and its first line
/// shown. This holds when the cursor already stood on the text.
pub proof fn lemma_split_then_join(b: Buffer, typed_b: Buffer, erased_b: Buffer, width: nat)
    requires
        b.wf(),
        width > 0,
        !b.wrap(),
        b.clamped(width) == (b.cur().row() as int, b.cur().col() as int),
        b.wrote(typed_b, '\n', width),
        typed_b.deleted(erased_b, width),
    ensures
        erased_b.text() == b.text(),
        erased_b.top() == b.top(),
        erased_b.cur().row() == b.cur().row(),
        erased_b.cur().col() == b.cur().col(),
{
    let ls = b.text();
    let ts = typed_b.text();
    let top = b.top() as int;
    let n = ls.len() as int;
    let r0 = b.cur().row() as int;
    let r = b.edit_row(width);
    let k = b.edit_col(width);
    lemma_clamp_lands_on_text(b, width);
    lemma_line_at_row_holds(ls, false, width, top, r0);
    lemma_rows_between_unwrapped(ls, width, top, r);
    lemma_rows_between_unwrapped(ls, width, top, r + 1);
    lemma_type_then_erase(ls, r, k, '\n');
    assert(ts.len() == n + 1);
    lemma_rows_between_unwrapped(ts, width, top, n + 1);
    lemma_rows_between_unwrapped(ts, width, top, r + 1);
    lemma_rows_between_unwrapped(ts, width, top, r + 2);
    lemma_line_at_row(ts, false, width, top, r0 + 1, r + 1);
    reveal(Buffer::clamped);
    assert(typed_b.clamped(width) == (r0 + 1, 0int));
    assert(typed_b.edit_row(width) == r + 1);
    assert(typed_b.edit_col(width) == 0);
    assert(ts[r].len() == k);
}

/// A buffer's text survives being written out and read back: the lines of
/// the written text are the buffer's lines.
pub proof fn lemma_buffer_round_trip(b: Buffer)
    requires
        b.wf(),
    ensures
        lines_in(terminated(b.text())) == b.text(),
{
    lemma_serialize_round_trip(b.text());
}

} // verus!
