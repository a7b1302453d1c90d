use vstd::prelude::*;
use crate::loader::{csv_cell_formula, csv_count_from, csv_field_count, csv_fields, csv_fields_from, csv_plan, csv_row_plan};
use crate::downloader::{csv_body, csv_text};
use crate::assign::{applies, is_copy_range};
use crate::saved::assigned;
use crate::spreadsheet::{Operand, ParsedRHS};
use crate::downloader::{csv_header, csv_row};
use crate::naming::{col_letters, law_column_round_trip};
use crate::text::int_text;
use crate::reparse::lemma_int_text;
use crate::spreadsheet::Spreadsheet;

verus! {

/// No character of `s` is a double quote.
pub open spec fn quote_free(s: Seq<char>) -> bool {
    forall|i: int| 0 <= i < s.len() ==> #[trigger] s[i] != '"'
}

/// No character of `s` is a comma.
pub open spec fn comma_free(s: Seq<char>) -> bool {
    forall|i: int| 0 <= i < s.len() ==> #[trigger] s[i] != ','
}

/// Reading a run without commas or quotes only extends the current field.
proof fn lemma_fields_run(s: Seq<char>, i: int, j: int, cur: Seq<char>)
    requires
        0 <= i <= j <= s.len(),
        forall|k: int| i <= k < j ==> #[trigger] s[k] != '"' && s[k] != ',',
    ensures
        csv_fields_from(s, i, cur, false) == csv_fields_from(s, j, cur + s.subrange(i, j), false),
    decreases j - i,
{
    if i == j {
        assert(cur + s.subrange(i, j) =~= cur);
    } else {
        assert(s[i] != '"' && s[i] != ',');
        lemma_fields_run(s, i + 1, j, cur.push(s[i]));
        assert(cur.push(s[i]) + s.subrange(i + 1, j) =~= cur + s.subrange(i, j));
    }
}

/// A text without commas or quotes is one field.
pub proof fn lemma_fields_single(x: Seq<char>)
    requires
        quote_free(x),
        comma_free(x),
    ensures
        csv_fields(x) == seq![x],
{
    lemma_fields_run(x, 0, x.len() as int, Seq::empty());
    assert(Seq::<char>::empty() + x.subrange(0, x.len() as int) =~= x);
}

proof fn lemma_fields_last_from(x: Seq<char>, y: Seq<char>, i: int, cur: Seq<char>)
    requires
        quote_free(x),
        quote_free(y),
        comma_free(y),
        0 <= i <= x.len(),
    ensures
        csv_fields_from(x + seq![','] + y, i, cur, false) == csv_fields_from(x, i, cur, false) + seq![y],
    decreases x.len() - i,
{
    let s = x + seq![','] + y;
    let n = x.len() as int;
    if i == n {
        assert(s[n] == ',');
        assert forall|k: int| n + 1 <= k < s.len() implies #[trigger] s[k] != '"' && s[k] != ',' by {
            assert(s[k] == y[k - n - 1]);
        }
        lemma_fields_run(s, n + 1, s.len() as int, Seq::empty());
        assert(Seq::<char>::empty() + s.subrange(n + 1, s.len() as int) =~= y);
    } else {
        assert(s[i] == x[i]);
        if i + 1 < n {
            assert(s[i + 1] == x[i + 1]);
        }
        if x[i] == ',' {
            lemma_fields_last_from(x, y, i + 1, Seq::empty());
            assert(seq![cur] + (csv_fields_from(x, i + 1, Seq::empty(), false) + seq![y]) =~= (seq![cur]
                + csv_fields_from(x, i + 1, Seq::empty(), false)) + seq![y]);
        } else {
            lemma_fields_last_from(x, y, i + 1, cur.push(x[i]));
        }
    }
}

/// The fields of `x`, a comma and a last field `y` are those of `x` and then `y`.
pub proof fn lemma_fields_last(x: Seq<char>, y: Seq<char>)
    requires
        quote_free(x),
        quote_free(y),
        comma_free(y),
    ensures
        csv_fields(x + seq![','] + y) == csv_fields(x) + seq![y],
{
    lemma_fields_last_from(x, y, 0, Seq::empty());
}

/// Without quotes, the count of fields is the number of fields read.
pub proof fn lemma_count_fields(s: Seq<char>, i: int, cur: Seq<char>)
    requires
        quote_free(s),
        0 <= i,
    ensures
        csv_count_from(s, i, false) == csv_fields_from(s, i, cur, false).len(),
    decreases s.len() - i,
{
    if i < s.len() {
        assert(s[i] != '"');
        if s[i] == ',' {
            lemma_count_fields(s, i + 1, Seq::empty());
        } else {
            lemma_count_fields(s, i + 1, cur.push(s[i]));
        }
    }
}

/// A comma between two texts without quotes gives a text without quotes.
proof fn lemma_quote_free_join(x: Seq<char>, y: Seq<char>)
    requires
        quote_free(x),
        quote_free(y),
    ensures
        quote_free(x + seq![','] + y),
{
    let s = x + seq![','] + y;
    assert forall|i: int| 0 <= i < s.len() implies #[trigger] s[i] != '"' by {
        if i < x.len() {
            assert(s[i] == x[i]);
        } else if i > x.len() {
            assert(s[i] == y[i - x.len() - 1]);
        }
    }
}

/// A column name has neither commas nor quotes.
proof fn lemma_col_letters_plain(n: int)
    requires
        1 <= n,
    ensures
        quote_free(col_letters(n)),
        comma_free(col_letters(n)),
{
    law_column_round_trip(n);
}

/// The decimal text of a number has neither commas nor quotes.
proof fn lemma_int_text_plain(v: int)
    ensures
        quote_free(int_text(v)),
        comma_free(int_text(v)),
{
    lemma_int_text(v);
}

/// The header line of the CSV export has no quotes and `n` fields.
pub proof fn lemma_header_fields(n: int)
    requires
        1 <= n,
    ensures
        quote_free(csv_header(n)),
        csv_fields(csv_header(n)).len() == n,
        csv_field_count(csv_header(n)) == n,
    decreases n,
{
    lemma_col_letters_plain(n);
    if n == 1 {
        lemma_fields_single(col_letters(1));
    } else {
        lemma_header_fields(n - 1);
        lemma_quote_free_join(csv_header(n - 1), col_letters(n));
        lemma_fields_last(csv_header(n - 1), col_letters(n));
    }
    lemma_count_fields(csv_header(n), 0, Seq::empty());
}

/// The fields of a row of the CSV export are the values of its first `n`
/// cells, as decimal text.
pub proof fn lemma_row_fields(s: Spreadsheet, r: int, n: int)
    requires
        1 <= n,
    ensures
        quote_free(csv_row(s, r, n)),
        csv_fields(csv_row(s, r, n)) == Seq::new(n as nat, |c: int| int_text(s.cell(r, c + 1).value as int)),
    decreases n,
{
    lemma_int_text_plain(s.cell(r, n).value as int);
    if n == 1 {
        lemma_fields_single(int_text(s.cell(r, 1).value as int));
        assert(csv_fields(csv_row(s, r, n)) =~= Seq::new(n as nat, |c: int| int_text(s.cell(r, c + 1).value as int)));
    } else {
        lemma_row_fields(s, r, n - 1);
        lemma_quote_free_join(csv_row(s, r, n - 1), int_text(s.cell(r, n).value as int));
        lemma_fields_last(csv_row(s, r, n - 1), int_text(s.cell(r, n).value as int));
        assert(csv_fields(csv_row(s, r, n)) =~= Seq::new(n as nat, |c: int| int_text(s.cell(r, c + 1).value as int)));
    }
}

/// The lines of the CSV export of `s`: the header, then one line per row.
pub open spec fn csv_lines(s: Spreadsheet) -> Seq<Seq<char>> {
    Seq::new((s.rows + 1) as nat, |i: int| if i == 0 {
        csv_header(s.cols as int)
    } else {
        csv_row(s, i, s.cols as int)
    })
}

/// Lines, each followed by a newline.
pub open spec fn joined_lines(lines: Seq<Seq<char>>) -> Seq<char>
    decreases lines.len(),
{
    if lines.len() == 0 {
        Seq::empty()
    } else {
        joined_lines(lines.drop_last()) + lines.last() + seq!['\n']
    }
}

proof fn lemma_joined_prefix(s: Spreadsheet, m: int)
    requires
        0 <= m <= s.rows,
    ensures
        joined_lines(csv_lines(s).take(m + 1)) == csv_header(s.cols as int) + seq!['\n'] + csv_body(s, m),
    decreases m,
{
    let ls = csv_lines(s).take(m + 1);
    assert(joined_lines(ls) == joined_lines(ls.drop_last()) + ls.last() + seq!['\n']);
    if m == 0 {
        assert(ls.drop_last() =~= Seq::<Seq<char>>::empty());
        assert(joined_lines(ls.drop_last()) == Seq::<char>::empty());
        assert(ls.last() == csv_header(s.cols as int));
        assert(csv_body(s, 0) =~= Seq::<char>::empty());
        assert(joined_lines(ls) =~= csv_header(s.cols as int) + seq!['\n'] + csv_body(s, m));
    } else {
        lemma_joined_prefix(s, m - 1);
        assert(ls.drop_last() =~= csv_lines(s).take(m));
        assert(ls.last() == csv_row(s, m, s.cols as int));
        assert(csv_header(s.cols as int) + seq!['\n'] + csv_body(s, m) =~= (csv_header(s.cols as int) + seq!['\n']
            + csv_body(s, m - 1)) + csv_row(s, m, s.cols as int) + seq!['\n']);
    }
}

/// The CSV export of `s` is its lines, each followed by a newline.
pub proof fn lemma_csv_text_lines(s: Spreadsheet)
    requires
        s.rows >= 0,
    ensures
        joined_lines(csv_lines(s)) == csv_text(s),
{
    lemma_joined_prefix(s, s.rows as int);
    assert(csv_lines(s).take(s.rows + 1) =~= csv_lines(s));
}

/// The constant holding the value of cell `x` of `s`.
pub open spec fn value_formula(s: Spreadsheet, x: (i16, i16)) -> ParsedRHS {
    ParsedRHS::SingleValue(Operand::Number(s.cell(x.0 as int, x.1 as int).value))
}

/// Loading the data lines of the export of `s` assigns each cell of the
/// first `n` rows the constant of its value in `s`.
proof fn lemma_csv_plan(s: Spreadsheet, n: int)
    requires
        1 <= s.rows,
        1 <= s.cols,
        0 <= n <= s.rows,
    ensures
        ({
            let plan = csv_plan(s.rows as int, s.cols as int, csv_lines(s).skip(1), n);
            &&& forall|k: int| 0 <= k < plan.len() ==> {
                let a = #[trigger] plan[k];
                &&& s.valid(a.0.0 as int, a.0.1 as int)
                &&& a.1 == value_formula(s, a.0)
            }
            &&& forall|r: int, c: int| 1 <= r <= n && 1 <= c <= s.cols ==> #[trigger] assigned(plan,
                plan.len() as int, (r as i16, c as i16))
        }),
    decreases n,
{
    let rows = s.rows as int;
    let cols = s.cols as int;
    let ls = csv_lines(s).skip(1);
    let plan = csv_plan(rows, cols, ls, n);
    if n > 0 {
        lemma_csv_plan(s, n - 1);
        let prev = csv_plan(rows, cols, ls, n - 1);
        assert(ls[n - 1] == csv_row(s, n, cols));
        lemma_row_fields(s, n, cols);
        let fields = csv_fields(ls[n - 1]);
        let rp = csv_row_plan(rows, cols, n - 1, fields);
        assert(plan == prev + rp);
        assert(rp.len() == cols);
        assert forall|c: int| 0 <= c < cols implies #[trigger] rp[c] == (((n as i16), ((c + 1) as i16)), value_formula(s,
            (n as i16, (c + 1) as i16))) by {
            let v = s.cell(n, c + 1).value;
            assert(fields[c] == int_text(v as int));
            lemma_int_text(v as int);
            assert(csv_cell_formula(rows, cols, n, c + 1, fields[c]) == ParsedRHS::SingleValue(Operand::Number(v)));
        }
        assert forall|k: int| 0 <= k < plan.len() implies {
            let a = #[trigger] plan[k];
            &&& s.valid(a.0.0 as int, a.0.1 as int)
            &&& a.1 == value_formula(s, a.0)
        } by {
            if k < prev.len() {
                assert(plan[k] == prev[k]);
            } else {
                assert(plan[k] == rp[k - prev.len()]);
            }
        }
        assert forall|r: int, c: int| 1 <= r <= n && 1 <= c <= cols implies #[trigger] assigned(plan, plan.len() as int,
            (r as i16, c as i16)) by {
            if r < n {
                assert(assigned(prev, prev.len() as int, (r as i16, c as i16)));
                let k = choose|k: int| 0 <= k < prev.len() && #[trigger] prev[k].0 == (r as i16, c as i16);
                assert(plan[k] == prev[k]);
            } else {
                let k = prev.len() + c - 1;
                assert(plan[k] == rp[c - 1]);
                assert(plan[k].0 == (r as i16, c as i16));
            }
        }
    }
}

/// After the first `j` assignments of constants (see [`value_formula`]) to a
/// grid with no formula, each cell holds its constant when it was assigned
/// and no formula otherwise, and the grid is in order with exact dependents.
proof fn lemma_constant_steps(
    s: Spreadsheet,
    plan: Seq<((i16, i16), ParsedRHS)>,
    states: Seq<Spreadsheet>,
    statuses: Seq<Seq<char>>,
    waits: Seq<Seq<u32>>,
    j: int,
)
    requires
        forall|k: int| 0 <= k < plan.len() ==> {
            let a = #[trigger] plan[k];
            &&& states[0].valid(a.0.0 as int, a.0.1 as int)
            &&& a.1 == value_formula(s, a.0)
        },
        applies(states, statuses, waits, plan),
        states[0].fresh(states[0].rows, states[0].cols),
        states[0].consistent(),
        states[0].deps_exact(),
        0 <= j <= plan.len(),
    ensures
        states[j].consistent(),
        states[j].deps_exact(),
        states[j].rows == states[0].rows,
        states[j].cols == states[0].cols,
        forall|r: int, c: int| #![trigger states[j].slot(r, c)] states[0].valid(r, c) ==> states[j].cell(r, c).formula
            == if assigned(plan, j, (r as i16, c as i16)) {
                value_formula(s, (r as i16, c as i16))
            } else {
                ParsedRHS::Empty
            },
    decreases j,
{
    let t0 = states[0];
    if j == 0 {
        assert forall|r: int, c: int| #![trigger states[j].slot(r, c)] t0.valid(r, c) implies states[j].cell(r, c).formula
            == if assigned(plan, j, (r as i16, c as i16)) { value_formula(s, (r as i16, c as i16)) } else { ParsedRHS::Empty } by {
            assert(t0.slot(r, c) == t0.slot(r, c));
        }
    } else {
        let m = j - 1;
        lemma_constant_steps(s, plan, states, statuses, waits, m);
        let t = states[m];
        let a = plan[m];
        let q = a.0;
        let f = a.1;
        assert(!is_copy_range(f));
        assert(t.set_rel(states[j], q, f, statuses[m], waits[m]));
        assert(!t.cycle_with(q, f));
        crate::laws::law_assign_keeps_consistent(t, states[j], q, f, statuses[m], waits[m]);
        crate::laws::law_assign_keeps_exact(t, states[j], q, f, statuses[m], waits[m]);
        let u = states[j];
        assert forall|r: int, c: int| #![trigger u.slot(r, c)] t0.valid(r, c) implies u.cell(r, c).formula
            == if assigned(plan, j, (r as i16, c as i16)) { value_formula(s, (r as i16, c as i16)) } else { ParsedRHS::Empty } by {
            let x = (r as i16, c as i16);
            assert(t.slot(r, c) == t.slot(r, c));
            if assigned(plan, j, x) && !assigned(plan, m, x) {
                let k = choose|k: int| 0 <= k < j && #[trigger] plan[k].0 == x;
                assert(k == m);
            }
            if assigned(plan, m, x) {
                let k = choose|k: int| 0 <= k < m && #[trigger] plan[k].0 == x;
                assert(0 <= k < j && plan[k].0 == x);
            }
            if (r, c) == (q.0 as int, q.1 as int) {
                assert(plan[m].0 == x);
            }
        }
    }
}

/// Loading the CSV export of a grid gives back a grid of the same size whose
/// every cell holds the value it had, without error: `to_csv` writes the
/// lines of [`csv_lines`], and [`from_csv_lines`](crate::loader::from_csv_lines)
/// reads them back, the header giving the number of columns.
#[verifier::rlimit(50)]
pub proof fn law_csv_round_trip(
    s: Spreadsheet,
    lines: Seq<Seq<char>>,
    states: Seq<Spreadsheet>,
    statuses: Seq<Seq<char>>,
    waits: Seq<Seq<u32>>,
)
    requires
        s.grid_wf(),
        s.rows >= 1,
        s.cols >= 1,
        lines == csv_lines(s),
        applies(states, statuses, waits, csv_plan(lines.len() - 1, csv_field_count(lines[0]), lines.skip(1),
            lines.len() - 1)),
        states[0].fresh((lines.len() - 1) as i16, csv_field_count(lines[0]) as i16),
        states[0].consistent(),
        states[0].deps_exact(),
    ensures
        joined_lines(lines) == csv_text(s),
        lines.len() - 1 == s.rows,
        csv_field_count(lines[0]) == s.cols,
        states.last().rows == s.rows,
        states.last().cols == s.cols,
        forall|r: int, c: int| #![trigger states.last().slot(r, c)]
            s.valid(r, c) ==> states.last().cell(r, c).value == s.cell(r, c).value && !states.last().cell(r, c).error,
{
    lemma_csv_text_lines(s);
    lemma_header_fields(s.cols as int);
    assert(lines[0] == csv_header(s.cols as int));
    let rows = s.rows as int;
    assert(lines.len() - 1 == rows);
    lemma_csv_plan(s, rows);
    let plan = csv_plan(rows, s.cols as int, csv_lines(s).skip(1), rows);
    let j = plan.len() as int;
    lemma_constant_steps(s, plan, states, statuses, waits, j);
    let u = states[j];
    assert(states.last() == u);
    assert forall|r: int, c: int| #![trigger u.slot(r, c)]
        s.valid(r, c) implies u.cell(r, c).value == s.cell(r, c).value && !u.cell(r, c).error by {
        assert(assigned(plan, j, (r as i16, c as i16)));
        assert(u.slot(r, c) == u.slot(r, c));
        lemma_constant_value(u, r, c, s.cell(r, c).value);
    }
}

/// In a grid in order, a cell whose formula is a constant holds it, without error.
proof fn lemma_constant_value(u: Spreadsheet, r: int, c: int, v: i32)
    requires
        u.consistent(),
        u.valid(r, c),
        u.cell(r, c).formula == ParsedRHS::SingleValue(Operand::Number(v)),
    ensures
        u.cell(r, c).value == v,
        !u.cell(r, c).error,
{
    assert(u.slot(r, c) == u.slot(r, c));
    assert(u.vals()(r, c) == crate::eval::eval_vals(u.vals(), u.formulas()(r, c)));
}

} // verus!
