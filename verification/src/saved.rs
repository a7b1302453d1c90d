use vstd::prelude::*;
use crate::spreadsheet::{FunctionName, Operand, ParsedRHS, Spreadsheet};
use crate::command::command_spec;
use crate::downloader::cell_name_text;
use crate::assign::{applies, copy_fits, is_copy_range, range_args};
use crate::loader::lemma_applies_push;
use crate::text::chars_of;
use crate::update::refs;
use crate::handlers::{formula_text, formula_to_string};
use crate::reparse::{lemma_reparse, parsed_form};
use crate::naming::law_cell_name_round_trip;

verus! {

/// The assignment that replaying the saved formula `text` of cell `(row, col)`
/// makes in a grid of `rows` x `cols`: the formula that the command parses to,
/// when the cell lies in the grid, the command is valid and, for a `COPY`, the
/// range can be copied; none otherwise.
pub open spec fn saved_formula(rows: int, cols: int, row: int, col: int, text: Seq<char>) -> Option<ParsedRHS> {
    let c = command_spec(rows, cols, cell_name_text(row, col), text);
    if 1 <= row <= rows && 1 <= col <= cols && c.0 && (is_copy_range(c.3) ==> copy_fits(
        rows,
        cols,
        range_args(c.3).0,
        range_args(c.3).1,
    )) {
        Some(c.3)
    } else {
        None
    }
}

/// The assignments that replaying the first `n` saved formulas makes, in order.
pub open spec fn saved_plan(rows: int, cols: int, saved: Seq<(i16, i16, Seq<char>)>, n: int) -> Seq<((i16, i16), ParsedRHS)>
    decreases n,
{
    if n <= 0 {
        Seq::empty()
    } else {
        let e = saved[n - 1];
        let before = saved_plan(rows, cols, saved, n - 1);
        match saved_formula(rows, cols, e.0 as int, e.1 as int, e.2) {
            Some(f) => before.push(((e.0, e.1), f)),
            None => before,
        }
    }
}

/// Saved formulas with their texts as characters.
pub open spec fn saved_texts(v: Seq<(i16, i16, String)>) -> Seq<(i16, i16, Seq<char>)> {
    v.map_values(|e: (i16, i16, String)| (e.0, e.1, e.2@))
}

/// A grid of `rows` x `cols` rebuilt from saved formulas: each formula is
/// assigned again to its cell, in order, as [`saved_plan`] says; a formula
/// that is not a valid command for its cell is passed over.
#[verifier::rlimit(40)]
pub fn rebuild_sheet(rows: i16, cols: i16, saved: &Vec<(i16, i16, String)>) -> (r: Box<Spreadsheet>)
    requires
        rows >= 0,
        cols >= 0,
    ensures
        r.sheet_ok(),
        exists|states: Seq<Spreadsheet>, statuses: Seq<Seq<char>>, waits: Seq<Seq<u32>>| {
            &&& #[trigger] applies(states, statuses, waits, saved_plan(rows as int, cols as int,
                saved_texts(saved@), saved@.len() as int))
            &&& states[0].fresh(rows, cols)
            &&& states[0].consistent()
            &&& states[0].deps_exact()
            &&& states.last() == *r
        },
{
    let ghost irows = rows as int;
    let ghost icols = cols as int;
    let ghost t = saved_texts(saved@);
    let mut sheet = Spreadsheet::spreadsheet_create(rows, cols).unwrap();
    let ghost mut states: Seq<Spreadsheet> = seq![*sheet];
    let ghost mut statuses: Seq<Seq<char>> = Seq::empty();
    let ghost mut waits: Seq<Seq<u32>> = Seq::empty();
    let ghost first = *sheet;
    for k in 0..saved.len()
        invariant
            t == saved_texts(saved@),
            irows == rows,
            icols == cols,
            sheet.rows == rows,
            sheet.cols == cols,
            sheet.sheet_ok(),
            applies(states, statuses, waits, saved_plan(irows, icols, t, k as int)),
            states[0] == first,
            first.fresh(rows, cols),
            first.consistent(),
            first.deps_exact(),
            states.last() == *sheet,
    {
        let row = saved[k].0;
        let col = saved[k].1;
        let ghost plan = saved_plan(irows, icols, t, k as int);
        let ghost text = saved@[k as int].2@;
        proof {
            assert(t[k as int] == (row, col, text));
            assert(saved_plan(irows, icols, t, k + 1) == match saved_formula(irows, icols, row as int, col as int, text) {
                Some(f) => plan.push(((row, col), f)),
                None => plan,
            });
        }
        if 1 <= row && row <= rows && 1 <= col && col <= cols {
            let name = Spreadsheet::get_cell_name(row, col);
            let (valid, _, _, rhs) = sheet.is_valid_command(name.as_str(), saved[k].2.as_str());
            if valid && sheet.copy_allowed(&rhs) {
                proof {
                    sheet.lemma_command_ok(name@, text);
                    assert(saved_formula(irows, icols, row as int, col as int, text) == Some(rhs));
                }
                let mut status = String::new();
                let more = sheet.spreadsheet_set_cell_value(row, col, rhs, &mut status);
                proof {
                    lemma_applies_push(states, statuses, waits, plan, *sheet, (row, col), rhs, status@, more@);
                    states = states.push(*sheet);
                    statuses = statuses.push(status@);
                    waits = waits.push(more@);
                }
            }
        }
    }
    sheet
}

/// The undo entry that a saved text gives cell `(row, col)` of a grid of
/// `rows` x `cols`: no formula for an empty text, otherwise the formula the
/// command parses to when it is valid and not a `COPY` of a range; none when
/// the cell lies outside the grid or the text gives no such formula.
pub open spec fn saved_undo_formula(rows: int, cols: int, row: int, col: int, text: Seq<char>) -> Option<ParsedRHS> {
    if !(1 <= row <= rows && 1 <= col <= cols) {
        None
    } else if text.len() == 0 {
        Some(ParsedRHS::Empty)
    } else {
        let c = command_spec(rows, cols, cell_name_text(row, col), text);
        if c.0 && !is_copy_range(c.3) {
            Some(c.3)
        } else {
            None
        }
    }
}

/// The undo entries that the first `n` saved entries give, in order.
pub open spec fn saved_undo(rows: int, cols: int, saved: Seq<(i16, i16, Seq<char>)>, n: int) -> Seq<(ParsedRHS, i16, i16)>
    decreases n,
{
    if n <= 0 {
        Seq::empty()
    } else {
        let e = saved[n - 1];
        let before = saved_undo(rows, cols, saved, n - 1);
        match saved_undo_formula(rows, cols, e.0 as int, e.1 as int, e.2) {
            Some(f) => before.push((f, e.0, e.1)),
            None => before,
        }
    }
}

/// Replaces the undo stack of the grid by the saved one (see [`saved_undo`]);
/// the cells, dimensions and scroll position stay as they are.
pub fn restore_undo_stack(sheet: &mut Box<Spreadsheet>, saved: &Vec<(i16, i16, String)>)
    requires
        old(sheet).sheet_ok(),
    ensures
        final(sheet).sheet_ok(),
        final(sheet).undo_stack@ == saved_undo(old(sheet).rows as int, old(sheet).cols as int, saved_texts(saved@),
            saved@.len() as int),
        final(sheet).rows == old(sheet).rows,
        final(sheet).cols == old(sheet).cols,
        final(sheet).view_row == old(sheet).view_row,
        final(sheet).view_col == old(sheet).view_col,
        final(sheet).cells@ == old(sheet).cells@,
{
    let ghost irows = sheet.rows as int;
    let ghost icols = sheet.cols as int;
    let ghost t = saved_texts(saved@);
    let mut entries: Vec<(ParsedRHS, i16, i16)> = Vec::new();
    for k in 0..saved.len()
        invariant
            t == saved_texts(saved@),
            irows == sheet.rows,
            icols == sheet.cols,
            sheet.sheet_ok(),
            entries@ == saved_undo(irows, icols, t, k as int),
            forall|j: int| 0 <= j < entries@.len() ==> {
                let e = #[trigger] entries@[j];
                sheet.valid(e.1 as int, e.2 as int) && sheet.storable(e.0)
            },
    {
        let row = saved[k].0;
        let col = saved[k].1;
        let ghost text = saved@[k as int].2@;
        proof {
            assert(t[k as int] == (row, col, text));
        }
        if 1 <= row && row <= sheet.rows && 1 <= col && col <= sheet.cols {
            let chars = chars_of(saved[k].2.as_str());
            if chars.len() == 0 {
                entries.push((ParsedRHS::Empty, row, col));
            } else {
                let name = Spreadsheet::get_cell_name(row, col);
                let (valid, _, _, rhs) = sheet.is_valid_command(name.as_str(), saved[k].2.as_str());
                let copy = match rhs {
                    ParsedRHS::Function {
                        name: FunctionName::Copy,
                        args: (Operand::Cell(_, _), Operand::Cell(_, _)),
                    } => true,
                    _ => false,
                };
                if valid && !copy {
                    proof {
                        sheet.lemma_command_ok(name@, text);
                    }
                    entries.push((rhs, row, col));
                }
            }
        }
    }
    let ghost before = **sheet;
    sheet.undo_stack = entries;
    proof {
        let now = **sheet;
        assert forall|r: int, c: int| #![trigger now.slot(r, c)] now.valid(r, c) implies now.slot(r, c)
            == before.slot(r, c) by {}
        before.lemma_same_graph(now);
    }
}

/// What saving writes for the cells at row-major positions `0..n` that hold
/// a formula: the cell and the formula written as text.
pub open spec fn saved_cells(s: Spreadsheet, n: int) -> Seq<(i16, i16, Seq<char>)>
    decreases n,
{
    if n <= 0 {
        Seq::empty()
    } else {
        let before = saved_cells(s, n - 1);
        let q = s.cell_of_index(n - 1);
        let f = s.cell(q.0 as int, q.1 as int).formula;
        if f is Empty {
            before
        } else {
            before.push((q.0, q.1, formula_text(f)))
        }
    }
}

/// What saving writes for the undo history: each entry's cell and formula
/// written as text, oldest first.
pub open spec fn saved_history(entries: Seq<(ParsedRHS, i16, i16)>) -> Seq<(i16, i16, Seq<char>)> {
    entries.map_values(|e: (ParsedRHS, i16, i16)| (e.1, e.2, formula_text(e.0)))
}

/// The formulas of the grid as they are saved, row by row: each cell that
/// holds a formula, with the formula written as text (see [`saved_cells`]).
pub fn saved_formulas(sheet: &Spreadsheet) -> (r: Vec<(i16, i16, String)>)
    requires
        sheet.grid_wf(),
    ensures
        saved_texts(r@) == saved_cells(*sheet, sheet.cells@.len() as int),
{
    let mut out: Vec<(i16, i16, String)> = Vec::new();
    let n = sheet.cells.len();
    for k in 0..n
        invariant
            n == sheet.cells@.len(),
            sheet.grid_wf(),
            saved_texts(out@) == saved_cells(*sheet, k as int),
    {
        proof {
            sheet.lemma_cell_at(k as int);
        }
        let cols = sheet.cols as usize;
        let row = (k / cols + 1) as i16;
        let col = (k % cols + 1) as i16;
        let ghost q = sheet.cell_of_index(k as int);
        proof {
            assert(q == (row, col));
            assert(sheet.slot(row as int, col as int) is Some);
        }
        match &sheet.cells[k] {
            Some(cell) => {
                if let ParsedRHS::Empty = cell.formula {
                } else {
                    let text = formula_to_string(&cell.formula);
                    let ghost prev = out@;
                    out.push((row, col, text));
                    proof {
                        assert(saved_texts(out@) =~= saved_texts(prev).push((row, col, text@)));
                    }
                }
            },
            None => {},
        }
    }
    out
}

/// The undo history of the grid as it is saved (see [`saved_history`]).
pub fn saved_undo_history(sheet: &Spreadsheet) -> (r: Vec<(i16, i16, String)>)
    ensures
        saved_texts(r@) == saved_history(sheet.undo_stack@),
{
    let mut out: Vec<(i16, i16, String)> = Vec::new();
    let n = sheet.undo_stack.len();
    for k in 0..n
        invariant
            n == sheet.undo_stack@.len(),
            saved_texts(out@) == saved_history(sheet.undo_stack@.take(k as int)),
    {
        let (f, row, col) = sheet.undo_stack[k];
        let text = formula_to_string(&f);
        let ghost prev = out@;
        out.push((row, col, text));
        proof {
            assert(sheet.undo_stack@.take(k + 1) == sheet.undo_stack@.take(k as int).push(sheet.undo_stack@[k as int]));
            assert(saved_texts(out@) =~= saved_texts(prev).push((row, col, text@)));
            assert(saved_history(sheet.undo_stack@.take(k + 1)) =~= saved_history(sheet.undo_stack@.take(k as int)).push(
                (row, col, text@)));
        }
    }
    assert(sheet.undo_stack@.take(n as int) == sheet.undo_stack@);
    out
}

/// Saving the undo history and putting it back gives the same history, when
/// each entry holds no formula or one of the shapes a command gives (an
/// inverted range, say, would be written as a command that is refused).
pub proof fn law_undo_history_round_trip(s: Spreadsheet)
    requires
        s.sheet_ok(),
        forall|k: int| 0 <= k < s.undo_stack@.len() ==> {
            let f = (#[trigger] s.undo_stack@[k]).0;
            f is Empty || parsed_form(s.rows as int, s.cols as int, f)
        },
    ensures
        saved_undo(s.rows as int, s.cols as int, saved_history(s.undo_stack@), s.undo_stack@.len() as int)
            == s.undo_stack@,
{
    lemma_history_prefix(s, s.undo_stack@.len() as int);
    assert(s.undo_stack@.take(s.undo_stack@.len() as int) == s.undo_stack@);
}

proof fn lemma_history_prefix(s: Spreadsheet, n: int)
    requires
        s.sheet_ok(),
        0 <= n <= s.undo_stack@.len(),
        forall|k: int| 0 <= k < s.undo_stack@.len() ==> {
            let f = (#[trigger] s.undo_stack@[k]).0;
            f is Empty || parsed_form(s.rows as int, s.cols as int, f)
        },
    ensures
        saved_undo(s.rows as int, s.cols as int, saved_history(s.undo_stack@), n) == s.undo_stack@.take(n),
    decreases n,
{
    if n > 0 {
        let rows = s.rows as int;
        let cols = s.cols as int;
        lemma_history_prefix(s, n - 1);
        let e = s.undo_stack@[n - 1];
        let h = saved_history(s.undo_stack@);
        assert(h[n - 1] == (e.1, e.2, formula_text(e.0)));
        assert(s.valid(e.1 as int, e.2 as int) && s.storable(e.0));
        if !(e.0 is Empty) {
            assert(parsed_form(rows, cols, e.0));
            law_cell_name_round_trip(rows, cols, e.1 as int, e.2 as int);
            lemma_reparse(rows, cols, cell_name_text(e.1 as int, e.2 as int), e.0);
        }
        assert(saved_undo_formula(rows, cols, e.1 as int, e.2 as int, h[n - 1].2) == Some(e.0));
        assert(s.undo_stack@.take(n) == s.undo_stack@.take(n - 1).push(e));
    }
}

/// Every formula of the grid is empty or has one of the shapes a command gives.
pub open spec fn formulas_parsed(s: Spreadsheet) -> bool {
    forall|r: int, c: int| #![trigger s.slot(r, c)] s.valid(r, c) ==> {
        let f = s.cell(r, c).formula;
        f is Empty || parsed_form(s.rows as int, s.cols as int, f)
    }
}

/// The assignments of the formulas of the cells at row-major positions
/// `0..n` that hold one, in order.
pub open spec fn cells_plan(s: Spreadsheet, n: int) -> Seq<((i16, i16), ParsedRHS)>
    decreases n,
{
    if n <= 0 {
        Seq::empty()
    } else {
        let before = cells_plan(s, n - 1);
        let q = s.cell_of_index(n - 1);
        let f = s.cell(q.0 as int, q.1 as int).formula;
        if f is Empty {
            before
        } else {
            before.push((q, f))
        }
    }
}

/// Replaying the first `m` saved entries depends on those entries alone.
proof fn lemma_saved_plan_prefix(rows: int, cols: int, a: Seq<(i16, i16, Seq<char>)>, b: Seq<(i16, i16, Seq<char>)>, m: int)
    requires
        0 <= m <= a.len(),
        m <= b.len(),
        a.take(m) == b.take(m),
    ensures
        saved_plan(rows, cols, a, m) == saved_plan(rows, cols, b, m),
    decreases m,
{
    if m > 0 {
        assert(a.take(m - 1) == b.take(m - 1)) by {
            assert(a.take(m - 1) =~= a.take(m).take(m - 1));
            assert(b.take(m - 1) =~= b.take(m).take(m - 1));
        }
        lemma_saved_plan_prefix(rows, cols, a, b, m - 1);
        assert(a[m - 1] == a.take(m)[m - 1]);
        assert(b[m - 1] == b.take(m)[m - 1]);
    }
}

/// Replaying what saving writes assigns each cell's formula again, in order.
proof fn lemma_replay_saved(s: Spreadsheet, n: int)
    requires
        s.sheet_ok(),
        formulas_parsed(s),
        0 <= n <= s.cells@.len(),
    ensures
        saved_plan(s.rows as int, s.cols as int, saved_cells(s, n), saved_cells(s, n).len() as int) == cells_plan(s, n),
        forall|k: int| 0 <= k < cells_plan(s, n).len() ==> {
            let a = #[trigger] cells_plan(s, n)[k];
            &&& s.valid(a.0.0 as int, a.0.1 as int)
            &&& a.1 == s.cell(a.0.0 as int, a.0.1 as int).formula
            &&& !(a.1 is Empty)
        },
    decreases n,
{
    if n > 0 {
        let rows = s.rows as int;
        let cols = s.cols as int;
        lemma_replay_saved(s, n - 1);
        let prev = saved_cells(s, n - 1);
        let m = prev.len() as int;
        s.lemma_cell_at(n - 1);
        let q = s.cell_of_index(n - 1);
        let f = s.cell(q.0 as int, q.1 as int).formula;
        if !(f is Empty) {
            let cur = saved_cells(s, n);
            assert(cur == prev.push((q.0, q.1, formula_text(f))));
            assert(cur.take(m) =~= prev.take(m));
            assert(prev.take(m) =~= prev);
            lemma_saved_plan_prefix(rows, cols, cur, prev, m);
            assert(s.storable(f));
            law_cell_name_round_trip(rows, cols, q.0 as int, q.1 as int);
            lemma_reparse(rows, cols, cell_name_text(q.0 as int, q.1 as int), f);
            assert(saved_formula(rows, cols, q.0 as int, q.1 as int, formula_text(f)) == Some(f));
            assert(cur[m] == (q.0, q.1, formula_text(f)));
            let plan = cells_plan(s, n);
            assert forall|k: int| 0 <= k < plan.len() implies {
                let a = #[trigger] plan[k];
                &&& s.valid(a.0.0 as int, a.0.1 as int)
                &&& a.1 == s.cell(a.0.0 as int, a.0.1 as int).formula
                &&& !(a.1 is Empty)
            } by {
                if k < plan.len() - 1 {
                    assert(plan[k] == cells_plan(s, n - 1)[k]);
                }
            }
        }
    }
}

/// Cell `x` is given a formula by one of the first `j` assignments of `plan`.
pub open spec fn assigned(plan: Seq<((i16, i16), ParsedRHS)>, j: int, x: (i16, i16)) -> bool {
    exists|k: int| 0 <= k < j && #[trigger] plan[k].0 == x
}

/// A grid whose formulas are each empty or the formula of the same cell of
/// `s` has no walk that `s` lacks, so assigning a cell its formula from `s`
/// closes no cycle.
proof fn lemma_no_new_cycle(s: Spreadsheet, t: Spreadsheet, q: (i16, i16))
    requires
        s.consistent(),
        s.deps_exact(),
        t.deps_exact(),
        t.rows == s.rows,
        t.cols == s.cols,
        t.grid_wf(),
        s.valid(q.0 as int, q.1 as int),
        forall|r: int, c: int| #![trigger t.slot(r, c)] t.valid(r, c) ==> t.cell(r, c).formula is Empty
            || t.cell(r, c).formula == s.cell(r, c).formula,
    ensures
        !t.cycle_with(q, s.cell(q.0 as int, q.1 as int).formula),
{
    let f = s.cell(q.0 as int, q.1 as int).formula;
    if t.cycle_with(q, f) {
        let x = choose|x: (i16, i16)| t.reaches(q, x) && #[trigger] refs(f).contains(x);
        let path = choose|path: Seq<(i16, i16)>| #[trigger] t.is_path(path) && path[0] == q && path.last() == x;
        assert forall|k: int| 0 <= k < path.len() - 1 implies #[trigger] s.step(path, k) by {
            assert(t.step(path, k));
            let a = path[k];
            let b = path[k + 1];
            assert(t.deps(a).contains(b));
            assert(t.valid(b.0 as int, b.1 as int) && refs(t.cell(b.0 as int, b.1 as int).formula).contains(a));
            assert(t.slot(b.0 as int, b.1 as int) == t.slot(b.0 as int, b.1 as int));
            assert(s.deps(a).contains(b));
        }
        let cyc = path.push(q);
        assert(s.deps(x).contains(q));
        assert forall|k: int| 0 <= k < cyc.len() - 1 implies #[trigger] s.step(cyc, k) by {
            if k < path.len() - 1 {
                assert(s.step(path, k));
            } else {
                assert(cyc[k] == x);
            }
        }
        assert(s.is_path(cyc));
        assert(cyc.len() >= 2 && cyc[0] == cyc.last());
    }
}

/// After the first `j` assignments of a replay of `s`'s formulas into a
/// grid with no formula, each cell holds its formula from `s` when it was
/// assigned and none otherwise, and the grid is in order with exact dependents.
proof fn lemma_rebuild_steps(
    s: Spreadsheet,
    plan: Seq<((i16, i16), ParsedRHS)>,
    states: Seq<Spreadsheet>,
    statuses: Seq<Seq<char>>,
    waits: Seq<Seq<u32>>,
    j: int,
)
    requires
        s.consistent(),
        s.deps_exact(),
        forall|k: int| 0 <= k < plan.len() ==> {
            let a = #[trigger] plan[k];
            &&& s.valid(a.0.0 as int, a.0.1 as int)
            &&& a.1 == s.cell(a.0.0 as int, a.0.1 as int).formula
        },
        applies(states, statuses, waits, plan),
        states[0].fresh(s.rows, s.cols),
        states[0].consistent(),
        states[0].deps_exact(),
        0 <= j <= plan.len(),
    ensures
        states[j].consistent(),
        states[j].deps_exact(),
        states[j].rows == s.rows,
        states[j].cols == s.cols,
        forall|r: int, c: int| #![trigger states[j].slot(r, c)] s.valid(r, c) ==> states[j].cell(r, c).formula
            == if assigned(plan, j, (r as i16, c as i16)) {
                s.cell(r, c).formula
            } else {
                ParsedRHS::Empty
            },
    decreases j,
{
    let t0 = states[0];
    if j == 0 {
        assert forall|r: int, c: int| #![trigger states[j].slot(r, c)] s.valid(r, c) implies states[j].cell(r, c).formula
            == if assigned(plan, j, (r as i16, c as i16)) { s.cell(r, c).formula } else { ParsedRHS::Empty } by {
            assert(t0.slot(r, c) == t0.slot(r, c));
        }
    } else {
        let m = j - 1;
        lemma_rebuild_steps(s, plan, states, statuses, waits, m);
        let t = states[m];
        let a = plan[m];
        let q = a.0;
        let f = a.1;
        assert(s.storable(s.cell(q.0 as int, q.1 as int).formula));
        assert(!is_copy_range(f));
        assert(t.set_rel(states[j], q, f, statuses[m], waits[m]));
        assert forall|r: int, c: int| #![trigger t.slot(r, c)] t.valid(r, c) implies t.cell(r, c).formula is Empty
            || t.cell(r, c).formula == s.cell(r, c).formula by {
            assert(s.valid(r, c));
        }
        lemma_no_new_cycle(s, t, q);
        crate::laws::law_assign_keeps_consistent(t, states[j], q, f, statuses[m], waits[m]);
        crate::laws::law_assign_keeps_exact(t, states[j], q, f, statuses[m], waits[m]);
        let u = states[j];
        assert forall|r: int, c: int| #![trigger u.slot(r, c)] s.valid(r, c) implies u.cell(r, c).formula
            == if assigned(plan, j, (r as i16, c as i16)) { s.cell(r, c).formula } else { ParsedRHS::Empty } by {
            let x = (r as i16, c as i16);
            assert(t.slot(r, c) == t.slot(r, c));
            if assigned(plan, j, x) && !assigned(plan, m, x) {
                let k = choose|k: int| 0 <= k < j && #[trigger] plan[k].0 == x;
                assert(k == m);
            }
            if assigned(plan, m, x) {
                let k = choose|k: int| 0 <= k < m && #[trigger] plan[k].0 == x;
                assert(0 <= k < j && plan[k].0 == x);
            }
            if (r, c) == (q.0 as int, q.1 as int) {
                assert(plan[m].0 == x);
            }
        }
    }
}

/// Every cell at a row-major position below `n` that holds a formula is
/// given it by the assignments of [`cells_plan`].
proof fn lemma_cells_plan_covers(s: Spreadsheet, n: int)
    requires
        s.grid_wf(),
        0 <= n <= s.cells@.len(),
    ensures
        forall|t: int| 0 <= t < n && !(s.cell(s.cell_of_index(t).0 as int, s.cell_of_index(t).1 as int).formula is Empty)
            ==> assigned(cells_plan(s, n), cells_plan(s, n).len() as int, #[trigger] s.cell_of_index(t)),
    decreases n,
{
    if n > 0 {
        lemma_cells_plan_covers(s, n - 1);
        let prev = cells_plan(s, n - 1);
        let cur = cells_plan(s, n);
        assert forall|t: int| 0 <= t < n && !(s.cell(s.cell_of_index(t).0 as int, s.cell_of_index(t).1 as int).formula is Empty)
            implies assigned(cur, cur.len() as int, #[trigger] s.cell_of_index(t)) by {
            let x = s.cell_of_index(t);
            if t < n - 1 {
                let k = choose|k: int| 0 <= k < prev.len() && #[trigger] prev[k].0 == x;
                assert(cur[k] == prev[k]);
            } else {
                assert(cur[cur.len() - 1].0 == x);
            }
        }
    }
}

/// Saving a grid's formulas (see [`saved_formulas`]) and rebuilding a grid
/// of the same size from them (see [`rebuild_sheet`]) gives back every
/// cell's formula, value and error flag, when each formula is empty or has
/// one of the shapes a command gives.
pub proof fn law_rebuild_restores(
    s: Spreadsheet,
    states: Seq<Spreadsheet>,
    statuses: Seq<Seq<char>>,
    waits: Seq<Seq<u32>>,
)
    requires
        s.consistent(),
        s.deps_exact(),
        formulas_parsed(s),
        applies(states, statuses, waits, saved_plan(s.rows as int, s.cols as int, saved_cells(s, s.cells@.len() as int),
            saved_cells(s, s.cells@.len() as int).len() as int)),
        states[0].fresh(s.rows, s.cols),
        states[0].consistent(),
        states[0].deps_exact(),
    ensures
        forall|r: int, c: int| #![trigger states.last().slot(r, c)]
            s.valid(r, c) ==> states.last().valid(r, c) && states.last().cell(r, c).formula == s.cell(r, c).formula
                && states.last().cell(r, c).value == s.cell(r, c).value
                && states.last().cell(r, c).error == s.cell(r, c).error,
{
    let n = s.cells@.len() as int;
    lemma_replay_saved(s, n);
    let plan = cells_plan(s, n);
    let j = plan.len() as int;
    lemma_rebuild_steps(s, plan, states, statuses, waits, j);
    lemma_cells_plan_covers(s, n);
    let u = states[j];
    assert(states.last() == u);
    assert forall|r: int, c: int| #![trigger u.slot(r, c)] #![trigger s.slot(r, c)]
        s.valid(r, c) implies u.cell(r, c).formula == s.cell(r, c).formula by {
        if !(s.cell(r, c).formula is Empty) {
            let t = s.idx(r, c);
            crate::spreadsheet::lemma_cell_index(r, c, s.rows as int, s.cols as int);
            s.lemma_cell_at(t);
            let x = s.cell_of_index(t);
            crate::spreadsheet::lemma_cell_index_injective(x.0 as int, x.1 as int, r, c, s.rows as int, s.cols as int);
            assert(x == (r as i16, c as i16));
            assert(assigned(plan, j, x));
        }
        assert(u.slot(r, c) == u.slot(r, c));
    }
    crate::laws::law_values_determined(s, u);
}

} // verus!
