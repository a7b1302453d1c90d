use vstd::prelude::*;
use crate::spreadsheet::Spreadsheet;
use crate::naming::{col_letters, push_col_letters};
use crate::text::{int_text, push_int, string_from_chars};

verus! {

/// `n` spaces.
pub open spec fn spaces(n: int) -> Seq<char>
    decreases n,
{
    if n <= 0 {
        Seq::empty()
    } else {
        spaces(n - 1).push(' ')
    }
}

/// A value left-aligned in a field of 16 characters.
pub open spec fn padded16(t: Seq<char>) -> Seq<char> {
    t + spaces(16 - t.len())
}

/// The last row shown: ten rows from the view's corner, or the last row.
pub open spec fn end_row(s: Spreadsheet) -> int {
    if s.view_row + 10 < s.rows { s.view_row + 10 } else { s.rows as int }
}

/// The last column shown.
pub open spec fn end_col(s: Spreadsheet) -> int {
    if s.view_col + 10 < s.cols { s.view_col + 10 } else { s.cols as int }
}

/// Column names of columns `from..=to`, each followed by two tabs.
pub open spec fn header_cells(from: int, to: int) -> Seq<char>
    decreases to - from + 1,
{
    if to < from {
        Seq::empty()
    } else {
        header_cells(from, to - 1) + col_letters(to) + seq!['\t', '\t']
    }
}

/// How a cell is shown: `ERR` for an error, else its value in 16 columns.
pub open spec fn shown_cell(s: Spreadsheet, r: int, c: int) -> Seq<char> {
    if s.cell(r, c).error {
        seq!['E', 'R', 'R', '\t', '\t']
    } else {
        padded16(int_text(s.cell(r, c).value as int))
    }
}

/// Cells `from..=to` of row `r`, as shown.
pub open spec fn row_cells(s: Spreadsheet, r: int, from: int, to: int) -> Seq<char>
    decreases to - from + 1,
{
    if to < from {
        Seq::empty()
    } else {
        row_cells(s, r, from, to - 1) + shown_cell(s, r, to)
    }
}

/// Rows `from..=to` of the view, each its number, two tabs, its cells and a newline.
pub open spec fn view_rows(s: Spreadsheet, from: int, to: int) -> Seq<char>
    decreases to - from + 1,
{
    if to < from {
        Seq::empty()
    } else {
        view_rows(s, from, to - 1) + int_text(to) + seq!['\t', '\t'] + row_cells(s, to, s.view_col + 1, end_col(s)) + seq!['\n']
    }
}

/// The text of the view window: up to ten rows and ten columns from the
/// view's corner, with column names above and row numbers on the left.
pub open spec fn display_text(s: Spreadsheet) -> Seq<char> {
    seq!['\t', '\t'] + header_cells(s.view_col + 1, end_col(s)) + seq!['\n'] + view_rows(s, s.view_row + 1, end_row(s))
}

fn push_padded16(out: &mut Vec<char>, v: i32)
    ensures
        final(out)@ == old(out)@ + padded16(int_text(v as int)),
{
    let ghost start: Seq<char> = old(out)@;
    let before = out.len();
    push_int(out, v as i64);
    let ghost t = int_text(v as int);
    assert(out@ == start + t);
    let mut k: usize = out.len() - before;
    while k < 16
        invariant
            before == start.len(),
            out@ == start + t + spaces(k - t.len()),
            t.len() <= k <= 16 || (k == t.len() && k > 16),
        decreases 16 - k,
    {
        out.push(' ');
        proof {
            assert(spaces(k + 1 - t.len()) == spaces(k - t.len()).push(' '));
        }
        k = k + 1;
    }
    proof {
        if t.len() < 16 {
            assert(k == 16);
        } else {
            assert(spaces(k - t.len()) == Seq::<char>::empty());
            assert(spaces(16 - t.len()) == Seq::<char>::empty());
        }
    }
}

fn push_header(out: &mut Vec<char>, from: i32, to: i32)
    requires
        1 <= from,
        to <= 32767,
    ensures
        final(out)@ == old(out)@ + header_cells(from as int, to as int),
{
    let ghost start: Seq<char> = old(out)@;
    let mut c: i32 = from;
    while c <= to
        invariant
            1 <= from <= c,
            to <= 32767,
            c <= to + 1 || c == from,
            out@ == start + header_cells(from as int, c - 1),
        decreases to + 1 - c,
    {
        push_col_letters(out, c);
        out.push('\t');
        out.push('\t');
        c = c + 1;
    }
    proof {
        if to < from {
            assert(header_cells(from as int, to as int) == Seq::<char>::empty());
            assert(header_cells(from as int, from - 1) == Seq::<char>::empty());
        }
    }
}

fn push_row_cells(out: &mut Vec<char>, sheet: &Spreadsheet, r: i32, from: i32, to: i32)
    requires
        sheet.grid_wf(),
        1 <= r <= sheet.rows,
        1 <= from,
        to <= sheet.cols,
    ensures
        final(out)@ == old(out)@ + row_cells(*sheet, r as int, from as int, to as int),
{
    let ghost start: Seq<char> = old(out)@;
    let mut c: i32 = from;
    while c <= to
        invariant
            sheet.grid_wf(),
            1 <= r <= sheet.rows,
            1 <= from <= c,
            to <= sheet.cols,
            c <= to + 1 || c == from,
            out@ == start + row_cells(*sheet, r as int, from as int, c - 1),
        decreases to + 1 - c,
    {
        let idx = sheet.index_of(r as i16, c as i16);
        assert(sheet.slot(r as int, c as int) is Some);
        match &sheet.cells[idx] {
            Some(cell) => {
                if cell.error {
                    out.push('E');
                    out.push('R');
                    out.push('R');
                    out.push('\t');
                    out.push('\t');
                } else {
                    push_padded16(out, cell.value);
                }
            },
            None => {},
        }
        c = c + 1;
    }
    proof {
        if to < from {
            assert(row_cells(*sheet, r as int, from as int, to as int) == Seq::<char>::empty());
            assert(row_cells(*sheet, r as int, from as int, from - 1) == Seq::<char>::empty());
        }
    }
}

impl Spreadsheet {
    /// The text that displaying the grid prints: see [`display_text`].
    #[verifier::rlimit(50)]
    pub fn spreadsheet_display_text(&self) -> (r: String)
        requires
            self.grid_wf(),
            0 <= self.view_row <= 32757,
            0 <= self.view_col <= 32757,
        ensures
            r@ == display_text(*self),
    {
        let end_r: i32 = if self.view_row + 10 < self.rows { self.view_row as i32 + 10 } else { self.rows as i32 };
        let end_c: i32 = if self.view_col + 10 < self.cols { self.view_col as i32 + 10 } else { self.cols as i32 };
        let mut out: Vec<char> = Vec::new();
        out.push('\t');
        out.push('\t');
        push_header(&mut out, self.view_col as i32 + 1, end_c);
        out.push('\n');
        let ghost head = out@;
        let mut r: i32 = self.view_row as i32 + 1;
        while r <= end_r
            invariant
                self.grid_wf(),
                0 <= self.view_row <= 32757,
                0 <= self.view_col <= 32757,
                end_r == end_row(*self),
                end_c == end_col(*self),
                self.view_row + 1 <= r,
                r <= end_r + 1 || r == self.view_row + 1,
                out@ == head + view_rows(*self, self.view_row + 1, r - 1),
            decreases end_r + 1 - r,
        {
            push_int(&mut out, r as i64);
            out.push('\t');
            out.push('\t');
            push_row_cells(&mut out, self, r, self.view_col as i32 + 1, end_c);
            out.push('\n');
            r = r + 1;
        }
        proof {
            if end_r < self.view_row + 1 {
                assert(view_rows(*self, self.view_row + 1, end_r as int) == Seq::<char>::empty());
                assert(view_rows(*self, self.view_row + 1, self.view_row as int) == Seq::<char>::empty());
            }
            assert(out@ == display_text(*self));
        }
        string_from_chars(&out)
    }
}

/// The lines of a text read from position 0, `cur` being the line read so
/// far: each newline ends a line, and what follows the last newline is the
/// last line.
pub open spec fn lines_from(t: Seq<char>, cur: Seq<char>) -> Seq<Seq<char>>
    decreases t.len(),
{
    if t.len() == 0 {
        seq![cur]
    } else if t[0] == '\n' {
        seq![cur] + lines_from(t.skip(1), Seq::empty())
    } else {
        lines_from(t.skip(1), cur.push(t[0]))
    }
}

/// The lines of a text.
pub open spec fn text_lines(t: Seq<char>) -> Seq<Seq<char>> {
    lines_from(t, Seq::empty())
}

/// No character of `t` is a newline.
pub open spec fn one_line(t: Seq<char>) -> bool {
    forall|i: int| 0 <= i < t.len() ==> #[trigger] t[i] != '\n'
}

proof fn lemma_lines_split(x: Seq<char>, y: Seq<char>, cur: Seq<char>)
    requires
        one_line(x),
    ensures
        lines_from(x + seq!['\n'] + y, cur) == seq![cur + x] + lines_from(y, Seq::empty()),
    decreases x.len(),
{
    let t = x + seq!['\n'] + y;
    if x.len() == 0 {
        assert(t[0] == '\n');
        assert(t.skip(1) =~= y);
        assert(cur + x =~= cur);
    } else {
        assert(t[0] == x[0]);
        assert(t.skip(1) =~= x.skip(1) + seq!['\n'] + y);
        assert forall|i: int| 0 <= i < x.skip(1).len() implies #[trigger] x.skip(1)[i] != '\n' by {
            assert(x.skip(1)[i] == x[i + 1]);
        }
        lemma_lines_split(x.skip(1), y, cur.push(x[0]));
        assert(cur.push(x[0]) + x.skip(1) =~= cur + x);
    }
}

proof fn lemma_join_one_line(x: Seq<char>, y: Seq<char>)
    requires
        one_line(x),
        one_line(y),
    ensures
        one_line(x + y),
{
    assert forall|i: int| 0 <= i < (x + y).len() implies #[trigger] (x + y)[i] != '\n' by {
        if i < x.len() {
            assert((x + y)[i] == x[i]);
        } else {
            assert((x + y)[i] == y[i - x.len()]);
        }
    }
}

proof fn lemma_spaces_one_line(n: int)
    ensures
        one_line(spaces(n)),
    decreases n,
{
    if n > 0 {
        lemma_spaces_one_line(n - 1);
        lemma_join_one_line(spaces(n - 1), seq![' ']);
        assert(spaces(n) == spaces(n - 1) + seq![' ']);
    }
}

proof fn lemma_int_text_one_line(v: int)
    ensures
        one_line(int_text(v)),
{
    crate::reparse::lemma_int_text(v);
}

proof fn lemma_row_cells_one_line(s: Spreadsheet, r: int, from: int, to: int)
    ensures
        one_line(row_cells(s, r, from, to)),
    decreases to - from + 1,
{
    if to >= from {
        lemma_row_cells_one_line(s, r, from, to - 1);
        lemma_int_text_one_line(s.cell(r, to).value as int);
        lemma_spaces_one_line(16 - int_text(s.cell(r, to).value as int).len());
        lemma_join_one_line(int_text(s.cell(r, to).value as int), spaces(16 - int_text(s.cell(r, to).value as int).len()));
        assert(one_line(seq!['E', 'R', 'R', '\t', '\t']));
        lemma_join_one_line(row_cells(s, r, from, to - 1), shown_cell(s, r, to));
    }
}

proof fn lemma_header_one_line(from: int, to: int)
    ensures
        one_line(header_cells(from, to)),
    decreases to - from + 1,
{
    if to >= from {
        lemma_header_one_line(from, to - 1);
        if to >= 1 {
            crate::naming::law_column_round_trip(to);
        }
        assert(one_line(col_letters(to)));
        lemma_join_one_line(col_letters(to), seq!['\t', '\t']);
        lemma_join_one_line(header_cells(from, to - 1), col_letters(to) + seq!['\t', '\t']);
        assert(header_cells(from, to) =~= header_cells(from, to - 1) + (col_letters(to) + seq!['\t', '\t']));
    }
}

/// The line of the window that shows grid row `r`: its number, two tabs and
/// its cells.
pub open spec fn row_line(s: Spreadsheet, r: int) -> Seq<char> {
    int_text(r) + seq!['\t', '\t'] + row_cells(s, r, s.view_col + 1, end_col(s))
}

proof fn lemma_view_rows_lines(s: Spreadsheet, from: int, to: int, z: Seq<char>)
    requires
        from <= to + 1,
    ensures
        lines_from(view_rows(s, from, to) + z, Seq::empty()) == Seq::new((to - from + 1) as nat, |k: int| row_line(
            s,
            from + k,
        )) + lines_from(z, Seq::empty()),
    decreases to - from + 1,
{
    if to < from {
        assert(view_rows(s, from, to) + z =~= z);
        assert(Seq::new((to - from + 1) as nat, |k: int| row_line(s, from + k)) =~= Seq::<Seq<char>>::empty());
    } else {
        let line = row_line(s, to);
        lemma_int_text_one_line(to);
        lemma_row_cells_one_line(s, to, s.view_col + 1, end_col(s));
        lemma_join_one_line(int_text(to), seq!['\t', '\t']);
        lemma_join_one_line(int_text(to) + seq!['\t', '\t'], row_cells(s, to, s.view_col + 1, end_col(s)));
        let z2 = line + seq!['\n'] + z;
        assert(view_rows(s, from, to) + z =~= view_rows(s, from, to - 1) + z2);
        lemma_view_rows_lines(s, from, to - 1, z2);
        lemma_lines_split(line, z, Seq::empty());
        assert(Seq::<char>::empty() + line =~= line);
        assert(Seq::new((to - from) as nat, |k: int| row_line(s, from + k)) + seq![line]
            =~= Seq::new((to - from + 1) as nat, |k: int| row_line(s, from + k)));
    }
}

/// The window shows each of its rows on a line of its own, in order after
/// the line of column names: line `r - view_row` shows grid row `r`,
/// starting with the number `r` itself, then two tabs and the row's cells.
pub proof fn law_display_rows(s: Spreadsheet, r: int)
    requires
        s.view_row + 1 <= r <= end_row(s),
    ensures
        text_lines(display_text(s)).len() == end_row(s) - s.view_row + 2,
        text_lines(display_text(s))[0] == seq!['\t', '\t'] + header_cells(s.view_col + 1, end_col(s)),
        text_lines(display_text(s))[r - s.view_row] == int_text(r) + seq!['\t', '\t'] + row_cells(s, r,
            s.view_col + 1, end_col(s)),
        text_lines(display_text(s))[r - s.view_row].take(int_text(r).len() as int) == int_text(r),
{
    let hdr = seq!['\t', '\t'] + header_cells(s.view_col + 1, end_col(s));
    lemma_header_one_line(s.view_col + 1, end_col(s));
    lemma_join_one_line(seq!['\t', '\t'], header_cells(s.view_col + 1, end_col(s)));
    let body = view_rows(s, s.view_row + 1, end_row(s));
    assert(display_text(s) =~= hdr + seq!['\n'] + body);
    lemma_lines_split(hdr, body, Seq::empty());
    lemma_view_rows_lines(s, s.view_row + 1, end_row(s), Seq::empty());
    assert(body + Seq::<char>::empty() =~= body);
    assert(lines_from(Seq::<char>::empty(), Seq::empty()) == seq![Seq::<char>::empty()]);
    let lines = text_lines(display_text(s));
    let k = r - s.view_row - 1;
    assert(lines[r - s.view_row] == row_line(s, s.view_row + 1 + k));
    assert(Seq::<char>::empty() + hdr =~= hdr);
}

/// Each cell of a shown row appears in turn, left to right: after the cells
/// before it, cell `(r, to)` shows `ERR` and two tabs when it holds an error,
/// and otherwise its own value padded with spaces to 16 characters.
pub proof fn law_row_cells_in_order(s: Spreadsheet, r: int, from: int, to: int)
    requires
        from <= to,
    ensures
        row_cells(s, r, from, to) == row_cells(s, r, from, to - 1) + if s.cell(r, to).error {
            seq!['E', 'R', 'R', '\t', '\t']
        } else {
            int_text(s.cell(r, to).value as int) + spaces(16 - int_text(s.cell(r, to).value as int).len())
        },
        spaces(16 - int_text(s.cell(r, to).value as int).len()).len() == 16 - int_text(s.cell(r, to).value as int).len(),
{
    lemma_int_text_short(s.cell(r, to).value);
    lemma_spaces_len(16 - int_text(s.cell(r, to).value as int).len());
}

proof fn lemma_spaces_len(n: int)
    requires
        n >= 0,
    ensures
        spaces(n).len() == n,
        forall|i: int| 0 <= i < n ==> #[trigger] spaces(n)[i] == ' ',
    decreases n,
{
    if n > 0 {
        lemma_spaces_len(n - 1);
        assert forall|i: int| 0 <= i < n implies #[trigger] spaces(n)[i] == ' ' by {
            if i < n - 1 {
                assert(spaces(n)[i] == spaces(n - 1)[i]);
            }
        }
    }
}

/// `10^d`.
pub open spec fn ten_pow(d: nat) -> nat
    decreases d,
{
    if d == 0 { 1 } else { 10 * ten_pow((d - 1) as nat) }
}

/// A natural number below `10^d` (for `d >= 1`) has at most `d` digits.
proof fn lemma_nat_text_digits(n: nat, d: nat)
    requires
        d >= 1,
        n < ten_pow(d),
    ensures
        crate::text::nat_text(n).len() <= d,
    decreases d,
{
    if n >= 10 {
        assert(d >= 2) by {
            if d == 1 {
                assert(ten_pow(1) == 10 * ten_pow(0));
            }
        }
        let b2 = ten_pow((d - 1) as nat);
        assert(ten_pow(d) == 10 * b2);
        assert(n / 10 < b2) by (nonlinear_arith)
            requires
                n < 10 * b2,
        ;
        lemma_nat_text_digits(n / 10, (d - 1) as nat);
    }
}

/// The text of an `i32` has at most 11 characters.
proof fn lemma_int_text_short(v: i32)
    ensures
        int_text(v as int).len() <= 11,
{
    reveal_with_fuel(ten_pow, 11);
    assert(ten_pow(10) == 10000000000);
    if v < 0 {
        lemma_nat_text_digits((-v) as nat, 10);
    } else {
        lemma_nat_text_digits(v as nat, 10);
    }
}

/// The window shows at most ten rows and ten columns from the view's corner:
/// it ends ten rows below the corner or at the last row, whichever comes
/// first, and likewise for columns.
pub proof fn law_window_bounds(s: Spreadsheet)
    ensures
        end_row(s) == if s.view_row + 10 <= s.rows { s.view_row + 10 } else { s.rows as int },
        end_col(s) == if s.view_col + 10 <= s.cols { s.view_col + 10 } else { s.cols as int },
        end_row(s) <= s.rows,
        end_col(s) <= s.cols,
        s.view_row <= s.rows - 10 ==> end_row(s) - s.view_row == 10,
        s.view_col <= s.cols - 10 ==> end_col(s) - s.view_col == 10,
{
}

} // verus!
