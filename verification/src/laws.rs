use vstd::prelude::*;
use crate::spreadsheet::Spreadsheet;
use crate::eval::{eval_vals, lemma_eval_agree, reads, row_fold, rect_fold, Agg, Vals};
use crate::update::refs;
use crate::recalc::{run_evals, run_sleeps, lemma_run_evals_at, lemma_run_evals_outside};
use crate::assign::{applies, assigns, is_copy_range, range_args, range_len, range_cell, lemma_range_cell, lemma_range_cell_injective};
use crate::loader::{lemma_applies_concat, lemma_applies_push};
use crate::graph::{lemma_last_index, lemma_pair_set_bounded};
use crate::spreadsheet::ParsedRHS;

verus! {

impl Spreadsheet {
    /// Every cell that a formula reads records the formula's cell among its
    /// dependents.
    pub open spec fn covered(self) -> bool {
        forall|r: int, c: int, q: (i16, i16)|
            #![trigger self.slot(r, c), refs(self.cell(r, c).formula).contains(q)]
            self.valid(r, c) && refs(self.cell(r, c).formula).contains(q) ==> self.deps(q).contains((r as i16, c as i16))
    }

    /// Every cell holds the value and error flag of its formula.
    pub open spec fn values_consistent(self) -> bool {
        forall|r: int, c: int| #![trigger self.slot(r, c)]
            self.valid(r, c) ==> self.vals()(r, c) == eval_vals(self.vals(), self.formulas()(r, c))
    }

    /// A grid in order: the invariant of [`Spreadsheet::sheet_ok`], every
    /// reference recorded, and every value up to date.
    pub open spec fn consistent(self) -> bool {
        &&& self.sheet_ok()
        &&& self.covered()
        &&& self.values_consistent()
    }

    /// A cell reaches itself.
    pub proof fn lemma_reaches_self(self, p: (i16, i16))
        ensures
            self.reaches(p, p),
    {
        let path = seq![p];
        assert(self.is_path(path));
    }
}

/// A formula that reads its own cell (`A1=A1`, `A1=SUM(A1:B2)`) always
/// closes a cycle, so the assignment is refused.
pub proof fn law_self_reference_refused(s: Spreadsheet, p: (i16, i16), rhs: ParsedRHS)
    requires
        refs(rhs).contains(p),
    ensures
        s.cycle_with(p, rhs),
{
    s.lemma_reaches_self(p);
}

/// Assigning a formula other than `COPY` to a cell of a grid in order leaves
/// the grid in order, whether the assignment is refused as a cycle or carried
/// out: every reference is recorded and every cell again holds the value of
/// its formula.
pub proof fn law_assign_keeps_consistent(
    before: Spreadsheet,
    after: Spreadsheet,
    p: (i16, i16),
    rhs: crate::spreadsheet::ParsedRHS,
    status: Seq<char>,
    sleeps: Seq<u32>,
)
    requires
        before.consistent(),
        before.valid(p.0 as int, p.1 as int),
        before.formula_ok(rhs),
        !is_copy_range(rhs),
        before.assign_rel(after, p, rhs, status, sleeps),
    ensures
        after.consistent(),
{
    if before.cycle_with(p, rhs) {
        return;
    }
    // The invariant: dependents stay inside the grid and form no cycle.
    assert forall|x: (i16, i16), y: (i16, i16)| y != p && #[trigger] after.deps(x).contains(y)
        implies before.deps(x).contains(y) by {
        if before.valid(x.0 as int, x.1 as int) {
            assert(after.slot(x.0 as int, x.1 as int) == after.slot(x.0 as int, x.1 as int));
        }
    }
    assert forall|x: (i16, i16)| #[trigger] after.deps(x).contains(p)
        implies before.deps(x).contains(p) || refs(rhs).contains(x) by {
        if before.valid(x.0 as int, x.1 as int) {
            assert(after.slot(x.0 as int, x.1 as int) == after.slot(x.0 as int, x.1 as int));
        }
    }
    assert forall|x: (i16, i16)| #[trigger] refs(rhs).contains(x) implies !before.reaches(p, x) by {}
    before.lemma_acyclic_after_insert(after, p, refs(rhs));
    assert forall|r: int, c: int, d: (i16, i16)|
        #![trigger after.slot(r, c), after.cell(r, c).dependents@.contains(d)]
        after.valid(r, c) && after.cell(r, c).dependents@.contains(d) implies after.valid(d.0 as int, d.1 as int) by {
        assert(before.slot(r, c) == before.slot(r, c));
        if d != p {
            assert(before.cell(r, c).dependents@.contains(d));
        }
    }
    assert forall|r: int, c: int| #![trigger after.slot(r, c)] after.valid(r, c) implies
        after.storable(after.cell(r, c).formula) by {
        assert(before.slot(r, c) == before.slot(r, c));
    }
    assert forall|k: int| 0 <= k < after.undo_stack@.len() implies {
        let e = #[trigger] after.undo_stack@[k];
        after.valid(e.1 as int, e.2 as int) && after.storable(e.0)
    } by {
        if k < before.undo_stack@.len() {
            assert(after.undo_stack@[k] == before.undo_stack@[k]);
        } else {
            assert(before.slot(p.0 as int, p.1 as int) == before.slot(p.0 as int, p.1 as int));
        }
    }
    assert(after.sheet_ok());
    // Every reference is recorded.
    assert forall|r: int, c: int, q: (i16, i16)|
        #![trigger after.slot(r, c), refs(after.cell(r, c).formula).contains(q)]
        after.valid(r, c) && refs(after.cell(r, c).formula).contains(q) implies after.deps(q).contains((r as i16, c as i16)) by {
        assert(before.slot(r, c) == before.slot(r, c));
        assert(reads(after.cell(r, c).formula).contains(q));
        after.lemma_reads_valid(after.cell(r, c).formula, q);
        assert(after.slot(q.0 as int, q.1 as int) == after.slot(q.0 as int, q.1 as int));
        if (r, c) != (p.0 as int, p.1 as int) {
            assert(before.deps(q).contains((r as i16, c as i16)));
        }
    }
    // Every value is up to date.
    let order = choose|order: Seq<(i16, i16)>| {
        &&& #[trigger] after.topo_order(p, order)
        &&& after.vals() == run_evals(before.vals(), after.formulas(), order)
        &&& sleeps == run_sleeps(before.vals(), after.formulas(), order)
    };
    let v0 = before.vals();
    let fs = after.formulas();
    after.lemma_reaches_self(p);
    assert forall|r: int, c: int| #![trigger after.slot(r, c)]
        after.valid(r, c) implies after.vals()(r, c) == eval_vals(after.vals(), after.formulas()(r, c)) by {
        let d = (r as i16, c as i16);
        let f = fs(r, c);
        assert(after.slot(r, c) == after.slot(r, c));
        assert(before.slot(r, c) == before.slot(r, c));
        assert(f == after.cell(r, c).formula);
        if order.contains(d) {
            let k = order.index_of(d);
            lemma_run_evals_at(v0, fs, order, k);
            let mid = run_evals(v0, fs, order.take(k));
            assert forall|q: (i16, i16)| #[trigger] reads(f).contains(q) implies mid(q.0 as int, q.1 as int)
                == after.vals()(q.0 as int, q.1 as int) by {
                assert(refs(f).contains(q));
                assert(after.deps(q).contains(d));
                if order.contains(q) {
                    let i = order.index_of(q);
                    assert(after.deps(order[i]).contains(order[k]));
                    assert(i < k);
                    let t = order.take(k);
                    assert(t[i] == q);
                    lemma_run_evals_at(v0, fs, t, i);
                    lemma_run_evals_at(v0, fs, order, i);
                    assert(t.take(i) == order.take(i));
                } else {
                    assert forall|j: int| 0 <= j < order.take(k).len() implies #[trigger] order.take(k)[j] != (q.0 as int as i16, q.1 as int as i16)
                        || q.0 as int != order.take(k)[j].0 || q.1 as int != order.take(k)[j].1 by {
                        assert(order.take(k)[j] == order[j]);
                    }
                    lemma_run_evals_outside(v0, fs, order.take(k), q.0 as int, q.1 as int);
                    assert forall|j: int| 0 <= j < order.len() implies #[trigger] order[j] != (q.0 as int as i16, q.1 as int as i16)
                        || q.0 as int != order[j].0 || q.1 as int != order[j].1 by {}
                    lemma_run_evals_outside(v0, fs, order, q.0 as int, q.1 as int);
                }
            }
            lemma_eval_agree(mid, after.vals(), f);
        } else {
            assert forall|j: int| 0 <= j < order.len() implies #[trigger] order[j] != (r as i16, c as i16)
                || r != order[j].0 || c != order[j].1 by {}
            lemma_run_evals_outside(v0, fs, order, r, c);
            assert(d != p);
            assert(f == before.cell(r, c).formula);
            assert(v0(r, c) == eval_vals(v0, before.formulas()(r, c)));
            assert forall|q: (i16, i16)| #[trigger] reads(f).contains(q) implies v0(q.0 as int, q.1 as int)
                == after.vals()(q.0 as int, q.1 as int) by {
                assert(refs(f).contains(q));
                assert(after.deps(q).contains(d));
                if order.contains(q) {
                    assert(after.reaches(p, q));
                    let path = choose|path: Seq<(i16, i16)>| #[trigger] after.is_path(path) && path[0] == p && path.last() == q;
                    after.lemma_path_push(path, d);
                    assert(after.reaches(p, d));
                }
                assert forall|j: int| 0 <= j < order.len() implies #[trigger] order[j] != (q.0 as int as i16, q.1 as int as i16)
                    || q.0 as int != order[j].0 || q.1 as int != order[j].1 by {}
                lemma_run_evals_outside(v0, fs, order, q.0 as int, q.1 as int);
            }
            lemma_eval_agree(v0, after.vals(), f);
        }
    }
}

/// Two grids in order of the same size with the same formula in every cell.
pub open spec fn formulas_agree(s: Spreadsheet, t: Spreadsheet) -> bool {
    &&& s.consistent()
    &&& t.consistent()
    &&& s.rows == t.rows
    &&& s.cols == t.cols
    &&& forall|r: int, c: int| #![trigger s.slot(r, c)] #![trigger t.slot(r, c)]
        s.valid(r, c) ==> s.cell(r, c).formula == t.cell(r, c).formula
}

/// A cell whose value differs between two such grids reads another such cell.
proof fn lemma_differs_pred(s: Spreadsheet, t: Spreadsheet, x: (i16, i16)) -> (q: (i16, i16))
    requires
        formulas_agree(s, t),
        s.vals()(x.0 as int, x.1 as int) != t.vals()(x.0 as int, x.1 as int),
    ensures
        s.vals()(q.0 as int, q.1 as int) != t.vals()(q.0 as int, q.1 as int),
        s.deps(q).contains(x),
{
    let r = x.0 as int;
    let c = x.1 as int;
    assert(s.valid(r, c));
    assert(s.slot(r, c) == s.slot(r, c));
    assert(t.slot(r, c) == t.slot(r, c));
    let f = s.cell(r, c).formula;
    assert(s.formulas()(r, c) == f);
    assert(t.formulas()(r, c) == f);
    if forall|q: (i16, i16)| #[trigger] reads(f).contains(q) ==> s.vals()(q.0 as int, q.1 as int) == t.vals()(q.0 as int, q.1 as int) {
        lemma_eval_agree(s.vals(), t.vals(), f);
        assert(false);
    }
    let q = choose|q: (i16, i16)| #[trigger] reads(f).contains(q) && s.vals()(q.0 as int, q.1 as int) != t.vals()(q.0 as int, q.1 as int);
    assert(s.storable(f));
    assert(refs(f).contains(q));
    assert(s.deps(q).contains((r as i16, c as i16)));
    q
}

/// A walk of `n` steps that ends at `x` and passes only through cells whose
/// values differ between the two grids.
proof fn lemma_differs_chain(s: Spreadsheet, t: Spreadsheet, x: (i16, i16), n: nat) -> (path: Seq<(i16, i16)>)
    requires
        formulas_agree(s, t),
        s.vals()(x.0 as int, x.1 as int) != t.vals()(x.0 as int, x.1 as int),
    ensures
        s.is_path(path),
        path.len() == n + 1,
        path.last() == x,
    decreases n,
{
    if n == 0 {
        let path = seq![x];
        assert(s.is_path(path));
        path
    } else {
        let q = lemma_differs_pred(s, t, x);
        let path = lemma_differs_chain(s, t, q, (n - 1) as nat);
        s.lemma_path_push(path, x);
        path.push(x)
    }
}

/// The values of a grid in order are determined by its formulas: two grids
/// in order of the same size with the same formula in every cell hold the
/// same value and error flag in every cell.
pub proof fn law_values_determined(s: Spreadsheet, t: Spreadsheet)
    requires
        s.consistent(),
        t.consistent(),
        s.rows == t.rows,
        s.cols == t.cols,
        forall|r: int, c: int| #![trigger s.slot(r, c)] #![trigger t.slot(r, c)]
            s.valid(r, c) ==> s.cell(r, c).formula == t.cell(r, c).formula,
    ensures
        forall|r: int, c: int| #![trigger s.slot(r, c)] #![trigger t.slot(r, c)]
            s.valid(r, c) ==> s.cell(r, c).value == t.cell(r, c).value && s.cell(r, c).error == t.cell(r, c).error,
{
    assert forall|r: int, c: int| #![trigger s.slot(r, c)] #![trigger t.slot(r, c)]
        s.valid(r, c) implies s.cell(r, c).value == t.cell(r, c).value && s.cell(r, c).error == t.cell(r, c).error by {
        let x = (r as i16, c as i16);
        assert(x.0 as int == r && x.1 as int == c);
        if s.vals()(r, c) != t.vals()(r, c) {
            lemma_pair_set_bounded(Set::<(i16, i16)>::full());
            let n = Set::<(i16, i16)>::full().len();
            let path = lemma_differs_chain(s, t, x, n);
            lemma_pair_set_bounded(path.to_set());
            if path.no_duplicates() {
                path.unique_seq_to_set();
                assert(false);
            } else {
                let (i, j) = choose|i: int, j: int| 0 <= i < path.len() && 0 <= j < path.len() && i != j && path[i] == path[j];
                let a = if i < j { i } else { j };
                let b = if i < j { j } else { i };
                s.lemma_path_subrange(path, a, b + 1);
                let sub = path.subrange(a, b + 1);
                assert(sub[0] == path[a]);
                assert(sub.last() == path[b]);
                assert(s.is_path(sub) && sub.len() >= 2);
                assert(false);
            }
        }
        assert(s.slot(r, c) == s.slot(r, c));
        assert(t.slot(r, c) == t.slot(r, c));
    }
}

/// A row fold carries an error already met, and meets the error of any cell
/// it visits.
proof fn lemma_row_fold_error(v: Vals, a: Agg, r: int, c1: int, j: int, c: int)
    requires
        a.5 || (c1 <= c < j && v(r, c).1),
    ensures
        row_fold(v, a, r, c1, j).5,
    decreases j - c1,
{
    if j > c1 {
        if a.5 || (c1 <= c < j - 1 && v(r, c).1) {
            lemma_row_fold_error(v, a, r, c1, j - 1, c);
        }
    }
}

/// A scan of rows `r1..i` over columns `c1..=c2` meets the error of any of
/// its cells.
proof fn lemma_rect_fold_error(v: Vals, r1: int, i: int, c1: int, c2: int, r: int, c: int)
    requires
        r1 <= r < i,
        c1 <= c <= c2,
        v(r, c).1,
    ensures
        rect_fold(v, r1, i, c1, c2).5,
    decreases i - r1,
{
    let inner = rect_fold(v, r1, i - 1, c1, c2);
    if r < i - 1 {
        lemma_rect_fold_error(v, r1, i - 1, c1, c2, r, c);
    }
    lemma_row_fold_error(v, inner, i - 1, c1, c2 + 1, c);
}

/// Errors cascade: in a grid in order, a cell whose formula reads a cell in
/// error is itself in error (a range function, an arithmetic expression, a
/// reference and a `SLEEP` of a cell alike).
pub proof fn law_errors_cascade(s: Spreadsheet, r: int, c: int, q: (i16, i16))
    requires
        s.consistent(),
        s.valid(r, c),
        reads(s.cell(r, c).formula).contains(q),
        s.valid(q.0 as int, q.1 as int),
        s.cell(q.0 as int, q.1 as int).error,
    ensures
        s.cell(r, c).error,
{
    let f = s.cell(r, c).formula;
    let v = s.vals();
    assert(s.slot(r, c) == s.slot(r, c));
    assert(v(r, c) == eval_vals(v, s.formulas()(r, c)));
    assert(s.formulas()(r, c) == f);
    assert(v(q.0 as int, q.1 as int).1);
    match f {
        ParsedRHS::Function { name, args } => {
            match args {
                (crate::spreadsheet::Operand::Cell(r1, c1), crate::spreadsheet::Operand::Cell(r2, c2)) => {
                    lemma_rect_fold_error(v, r1 as int, r2 + 1, c1 as int, c2 as int, q.0 as int, q.1 as int);
                },
                _ => {},
            }
        },
        _ => {},
    }
}

impl Spreadsheet {
    /// A grid that differs from one in order only by an empty undo stack is
    /// in order.
    pub proof fn lemma_emptied_undo_consistent(self, other: Spreadsheet)
        requires
            other.consistent(),
            self.same_but_undo(other),
            self.undo_stack@.len() == 0,
        ensures
            self.consistent(),
    {
        assert(self.cells@ == other.cells@);
        assert forall|r: int, c: int| #![trigger self.slot(r, c)] self.valid(r, c) implies
            self.slot(r, c) == other.slot(r, c) by {}
        other.lemma_same_graph(self);
        assert(self.grid_wf());
        assert(self.vals() == other.vals());
        assert(self.formulas() == other.formulas());
        assert forall|r: int, c: int| #![trigger self.slot(r, c)] self.valid(r, c) implies
            self.storable(self.cell(r, c).formula) by {
            assert(other.slot(r, c) == self.slot(r, c));
        }
        assert(self.sheet_ok());
        assert forall|r: int, c: int, q: (i16, i16)|
            #![trigger self.slot(r, c), refs(self.cell(r, c).formula).contains(q)]
            self.valid(r, c) && refs(self.cell(r, c).formula).contains(q) implies self.deps(q).contains((r as i16, c as i16)) by {
            assert(other.slot(r, c) == self.slot(r, c));
        }
        assert forall|r: int, c: int| #![trigger self.slot(r, c)]
            self.valid(r, c) implies self.vals()(r, c) == eval_vals(self.vals(), self.formulas()(r, c)) by {
            assert(other.slot(r, c) == self.slot(r, c));
        }
    }

    /// After `p` has been given formula `g` in a grid in order, giving `p`
    /// back its former formula closes no cycle.
    pub proof fn lemma_reassign_no_cycle(
        self,
        next: Spreadsheet,
        p: (i16, i16),
        g: ParsedRHS,
        status: Seq<char>,
        sleeps: Seq<u32>,
    )
        requires
            self.consistent(),
            self.valid(p.0 as int, p.1 as int),
            !self.cycle_with(p, g),
            self.assign_rel(next, p, g, status, sleeps),
        ensures
            !next.cycle_with(p, self.cell(p.0 as int, p.1 as int).formula),
    {
        let f0 = self.cell(p.0 as int, p.1 as int).formula;
        assert forall|x: (i16, i16), y: (i16, i16)| y != p && #[trigger] next.deps(x).contains(y)
            implies self.deps(x).contains(y) by {
            if self.valid(x.0 as int, x.1 as int) {
                assert(next.slot(x.0 as int, x.1 as int) == next.slot(x.0 as int, x.1 as int));
            }
        }
        if next.cycle_with(p, f0) {
            let x = choose|x: (i16, i16)| next.reaches(p, x) && #[trigger] refs(f0).contains(x);
            let path = choose|path: Seq<(i16, i16)>| #[trigger] next.is_path(path) && path[0] == p && path.last() == x;
            let a = lemma_last_index(path, p, path.len() - 1);
            let q = path.subrange(a, path.len() as int);
            next.lemma_path_subrange(path, a, path.len() as int);
            assert forall|k: int| 1 <= k < q.len() implies q[k] != p by {
                assert(q[k] == path[a + k]);
            }
            self.lemma_walk_avoiding_target(next, p, q);
            assert(self.slot(p.0 as int, p.1 as int) == self.slot(p.0 as int, p.1 as int));
            assert(self.deps(x).contains((p.0 as int as i16, p.1 as int as i16)));
            assert(q.last() == x);
            self.lemma_path_push(q, p);
            assert(q.push(p)[0] == p);
            assert(self.is_path(q.push(p)) && q.push(p).len() >= 2);
        }
    }
}

impl Spreadsheet {
    /// The recorded dependents are exactly the readers: a cell lists `d` as
    /// a dependent if and only if `d` is a cell of the grid whose formula
    /// reads it.
    pub open spec fn deps_exact(self) -> bool {
        forall|q: (i16, i16), d: (i16, i16)| #[trigger] self.deps(q).contains(d) <==>
            (self.valid(d.0 as int, d.1 as int) && refs(self.cell(d.0 as int, d.1 as int).formula).contains(q))
    }

    /// A formula the grid can hold reads only cells of the grid.
    pub proof fn lemma_refs_valid(self, f: ParsedRHS, q: (i16, i16))
        requires
            self.formula_ok(f),
            refs(f).contains(q),
        ensures
            self.valid(q.0 as int, q.1 as int),
    {
        assert(reads(f).contains(q));
        self.lemma_reads_valid(f, q);
    }

    /// Two grids of the same size in order, with exact dependents and the
    /// same formulas, record the same dependents, so they reach the same
    /// cells.
    pub proof fn lemma_exact_same_graph(self, other: Spreadsheet)
        requires
            self.sheet_ok(),
            other.sheet_ok(),
            self.deps_exact(),
            other.deps_exact(),
            self.rows == other.rows,
            self.cols == other.cols,
            self.same_formulas(other),
        ensures
            forall|a: (i16, i16), b: (i16, i16)| #[trigger] other.reaches(a, b) == self.reaches(a, b),
    {
        assert forall|r: int, c: int| #![trigger other.slot(r, c)]
            self.valid(r, c) implies other.cell(r, c).dependents@ == self.cell(r, c).dependents@ by {
            let q = (r as i16, c as i16);
            assert(self.deps(q) == self.cell(r, c).dependents@);
            assert(other.deps(q) == other.cell(r, c).dependents@);
            assert forall|d: (i16, i16)| other.deps(q).contains(d) == self.deps(q).contains(d) by {
                if self.valid(d.0 as int, d.1 as int) {
                    assert(other.slot(d.0 as int, d.1 as int) == other.slot(d.0 as int, d.1 as int));
                }
            }
            assert(other.deps(q) =~= self.deps(q));
        }
        self.lemma_same_graph(other);
    }
}

/// A grid without formulas and without dependents has exact dependents.
pub proof fn law_fresh_exact(s: Spreadsheet)
    requires
        s.grid_wf(),
        forall|r: int, c: int| #![trigger s.slot(r, c)]
            s.valid(r, c) ==> s.cell(r, c).formula == ParsedRHS::Empty && s.cell(r, c).dependents@ == Set::<(i16, i16)>::empty(),
    ensures
        s.deps_exact(),
{
    assert forall|q: (i16, i16), d: (i16, i16)| #[trigger] s.deps(q).contains(d) <==>
        (s.valid(d.0 as int, d.1 as int) && refs(s.cell(d.0 as int, d.1 as int).formula).contains(q)) by {
        if s.valid(q.0 as int, q.1 as int) {
            assert(s.slot(q.0 as int, q.1 as int) == s.slot(q.0 as int, q.1 as int));
        }
        if s.valid(d.0 as int, d.1 as int) {
            assert(s.slot(d.0 as int, d.1 as int) == s.slot(d.0 as int, d.1 as int));
        }
    }
}

/// An assignment other than `COPY` keeps the dependents exact.
pub proof fn law_assign_keeps_exact(
    before: Spreadsheet,
    after: Spreadsheet,
    p: (i16, i16),
    rhs: ParsedRHS,
    status: Seq<char>,
    sleeps: Seq<u32>,
)
    requires
        before.sheet_ok(),
        before.deps_exact(),
        before.valid(p.0 as int, p.1 as int),
        before.formula_ok(rhs),
        !is_copy_range(rhs),
        before.assign_rel(after, p, rhs, status, sleeps),
    ensures
        after.deps_exact(),
{
    if before.cycle_with(p, rhs) {
        return;
    }
    let f0 = before.cell(p.0 as int, p.1 as int).formula;
    assert(before.slot(p.0 as int, p.1 as int) == before.slot(p.0 as int, p.1 as int));
    assert(after.slot(p.0 as int, p.1 as int) == after.slot(p.0 as int, p.1 as int));
    assert forall|q: (i16, i16), d: (i16, i16)| #[trigger] after.deps(q).contains(d) <==>
        (after.valid(d.0 as int, d.1 as int) && refs(after.cell(d.0 as int, d.1 as int).formula).contains(q)) by {
        let dv = after.valid(d.0 as int, d.1 as int);
        if dv {
            assert(after.slot(d.0 as int, d.1 as int) == after.slot(d.0 as int, d.1 as int));
            assert(before.slot(d.0 as int, d.1 as int) == before.slot(d.0 as int, d.1 as int));
        }
        if before.valid(q.0 as int, q.1 as int) {
            assert(after.slot(q.0 as int, q.1 as int) == after.slot(q.0 as int, q.1 as int));
            assert(before.deps(q).contains(d) <==> (dv && refs(before.cell(d.0 as int, d.1 as int).formula).contains(q)));
            assert(before.deps(q).contains(p) <==> refs(f0).contains(q));
        } else {
            if dv && refs(after.cell(d.0 as int, d.1 as int).formula).contains(q) {
                if d == p {
                    before.lemma_refs_valid(rhs, q);
                } else {
                    assert(before.storable(before.cell(d.0 as int, d.1 as int).formula));
                    before.lemma_refs_valid(before.cell(d.0 as int, d.1 as int).formula, q);
                }
            }
        }
    }
}

/// Each assignment of a `COPY` names a cell of the grid and a constant.
proof fn lemma_copy_plan_ok(s: Spreadsheet, p: (i16, i16), first: (i16, i16), second: (i16, i16), upto: int)
    requires
        s.grid_wf(),
    ensures
        forall|k: int| 0 <= k < s.copy_plan(p, first, second, upto).len() ==> {
            let a = #[trigger] s.copy_plan(p, first, second, upto)[k];
            &&& s.valid(a.0.0 as int, a.0.1 as int)
            &&& a.1 matches ParsedRHS::SingleValue(crate::spreadsheet::Operand::Number(_))
        },
    decreases upto,
{
    if upto > 0 {
        lemma_copy_plan_ok(s, p, first, second, upto - 1);
        if s.copy_lands(p, first, second, upto - 1) {
            s.lemma_cell_at(s.copy_target(p, first, second, upto - 1));
            let prev = s.copy_plan(p, first, second, upto - 1);
            let cur = s.copy_plan(p, first, second, upto);
            assert forall|k: int| 0 <= k < cur.len() implies {
                let a = #[trigger] cur[k];
                &&& s.valid(a.0.0 as int, a.0.1 as int)
                &&& a.1 matches ParsedRHS::SingleValue(crate::spreadsheet::Operand::Number(_))
            } by {
                if k < prev.len() {
                    assert(cur[k] == prev[k]);
                }
            }
        }
    }
}

/// A run of assignments of constants to cells of a grid in order keeps it in
/// order, with exact dependents when they were exact.
proof fn lemma_assigns_keep(
    states: Seq<Spreadsheet>,
    statuses: Seq<Seq<char>>,
    waits: Seq<Seq<u32>>,
    plan: Seq<((i16, i16), ParsedRHS)>,
    k: int,
)
    requires
        assigns(states, statuses, waits, plan),
        states[0].consistent(),
        forall|j: int| 0 <= j < plan.len() ==> {
            let a = #[trigger] plan[j];
            &&& states[0].valid(a.0.0 as int, a.0.1 as int)
            &&& a.1 matches ParsedRHS::SingleValue(crate::spreadsheet::Operand::Number(_))
        },
        0 <= k <= plan.len(),
    ensures
        states[k].consistent(),
        states[0].deps_exact() ==> states[k].deps_exact(),
        states[k].rows == states[0].rows,
        states[k].cols == states[0].cols,
    decreases k,
{
    if k > 0 {
        let m = k - 1;
        lemma_assigns_keep(states, statuses, waits, plan, m);
        let a = plan[m];
        assert(states[m].assign_rel(states[k], a.0, a.1, statuses[m], waits[m]));
        assert(!is_copy_range(a.1));
        assert(states[m].formula_ok(a.1));
        law_assign_keeps_consistent(states[m], states[k], a.0, a.1, statuses[m], waits[m]);
        if states[0].deps_exact() {
            law_assign_keeps_exact(states[m], states[k], a.0, a.1, statuses[m], waits[m]);
        }
    }
}

/// Every assignment the grid accepts keeps a grid in order in order and its
/// dependents exact, a `COPY` of a range included: the dependents again match
/// the formulas and every cell again holds the value of its formula.
pub proof fn law_set_keeps_consistent(
    before: Spreadsheet,
    after: Spreadsheet,
    p: (i16, i16),
    rhs: ParsedRHS,
    status: Seq<char>,
    sleeps: Seq<u32>,
)
    requires
        before.consistent(),
        before.valid(p.0 as int, p.1 as int),
        is_copy_range(rhs) ==> before.copy_ok(range_args(rhs).0, range_args(rhs).1),
        !is_copy_range(rhs) ==> before.formula_ok(rhs),
        before.set_rel(after, p, rhs, status, sleeps),
    ensures
        after.consistent(),
        before.deps_exact() ==> after.deps_exact(),
{
    if is_copy_range(rhs) {
        reveal(Spreadsheet::copy_rel);
        let first = range_args(rhs).0;
        let second = range_args(rhs).1;
        let plan = before.copy_plan(p, first, second, range_len(first, second));
        let (states, statuses, waits) = choose|states: Seq<Spreadsheet>, statuses: Seq<Seq<char>>, waits: Seq<Seq<u32>>| {
            &&& #[trigger] assigns(states, statuses, waits, plan)
            &&& states[0] == before
            &&& states.last() == after
            &&& sleeps == waits.flatten()
        };
        lemma_copy_plan_ok(before, p, first, second, range_len(first, second));
        lemma_assigns_keep(states, statuses, waits, plan, plan.len() as int);
    } else {
        law_assign_keeps_consistent(before, after, p, rhs, status, sleeps);
        if before.deps_exact() {
            law_assign_keeps_exact(before, after, p, rhs, status, sleeps);
        }
    }
}

/// Undo right after one assignment (not a `COPY`) to a grid in order with an
/// empty undo stack gives every cell back its former formula, value and error
/// flag, and leaves the grid in order; the undo stack then holds the assignment undone, so that a
/// second undo redoes it (see [`law_redo_after_undo`]). A refused assignment
/// leaves nothing to undo.
pub proof fn law_undo_restores(
    s0: Spreadsheet,
    s1: Spreadsheet,
    p: (i16, i16),
    rhs: ParsedRHS,
    status: Seq<char>,
    sleeps: Seq<u32>,
    states: Seq<Spreadsheet>,
    statuses: Seq<Seq<char>>,
    waits: Seq<Seq<u32>>,
)
    requires
        s0.consistent(),
        s0.valid(p.0 as int, p.1 as int),
        s0.undo_stack@.len() == 0,
        s0.formula_ok(rhs),
        !is_copy_range(rhs),
        s0.set_rel(s1, p, rhs, status, sleeps),
        s1.undo_replay(states, statuses, waits),
    ensures
        states.last().consistent(),
        forall|r: int, c: int| #![trigger states.last().slot(r, c)]
            s0.valid(r, c) ==> states.last().valid(r, c) && states.last().cell(r, c).formula == s0.cell(r, c).formula
                && states.last().cell(r, c).value == s0.cell(r, c).value
                && states.last().cell(r, c).error == s0.cell(r, c).error,
        states.last().undo_stack@ == if status == "ok"@ {
            seq![(rhs, p.0, p.1)]
        } else {
            Seq::<(ParsedRHS, i16, i16)>::empty()
        },
{
    law_assign_keeps_consistent(s0, s1, p, rhs, status, sleeps);
    let t0 = states[0];
    t0.lemma_emptied_undo_consistent(s1);
    assert(t0.cells@ == s1.cells@);
    if s0.cycle_with(p, rhs) {
        assert(status == "Cycle Detected"@);
        assert(status != "ok"@) by {
            reveal_strlit("ok");
            reveal_strlit("Cycle Detected");
            assert(status.len() != "ok"@.len());
        }
        assert(states.len() == 1);
        assert forall|r: int, c: int| #![trigger states.last().slot(r, c)]
            s0.valid(r, c) implies states.last().valid(r, c) && states.last().cell(r, c).formula == s0.cell(r, c).formula by {
            assert(t0.slot(r, c) == s1.slot(r, c));
        }
    } else {
        let f0 = s0.cell(p.0 as int, p.1 as int).formula;
        assert(s1.undo_stack@ == seq![(f0, p.0, p.1)]);
        let e = s1.undo_stack@[0];
        assert(e == (f0, p.0, p.1));
        assert(s0.slot(p.0 as int, p.1 as int) == s0.slot(p.0 as int, p.1 as int));
        assert(!is_copy_range(f0));
        let t1 = states[1];
        assert(t0.set_rel(t1, (e.1, e.2), e.0, statuses[0], waits[0]));
        s0.lemma_reassign_no_cycle(s1, p, rhs, status, sleeps);
        assert forall|x: (i16, i16)| t0.reaches(p, x) == s1.reaches(p, x) by {
            s1.lemma_same_graph(t0);
        }
        assert(!t0.cycle_with(p, f0));
        assert(s1.storable(f0));
        assert(t0.formula_ok(f0));
        law_assign_keeps_consistent(t0, t1, p, f0, statuses[0], waits[0]);
        assert(states.last() == t1);
        assert forall|r: int, c: int| #![trigger states.last().slot(r, c)]
            s0.valid(r, c) implies states.last().valid(r, c) && states.last().cell(r, c).formula == s0.cell(r, c).formula by {
            assert(t1.slot(r, c) == t1.slot(r, c));
            assert(t0.slot(r, c) == s1.slot(r, c));
            assert(s1.slot(r, c) == s1.slot(r, c));
        }
        assert(t0.slot(p.0 as int, p.1 as int) == s1.slot(p.0 as int, p.1 as int));
        assert(s1.slot(p.0 as int, p.1 as int) == s1.slot(p.0 as int, p.1 as int));
        assert(t0.cell(p.0 as int, p.1 as int).formula == rhs);
    }
    assert(states.last().rows == s0.rows && states.last().cols == s0.cols);
    law_values_determined(s0, states.last());
}

/// A second undo, right after the undo of [`law_undo_restores`], redoes the
/// assignment: every cell has the formula, value and error flag it had just
/// after the assignment,
/// the grid is in order, and the undo stack again holds the former formula.
pub proof fn law_redo_after_undo(
    s0: Spreadsheet,
    s1: Spreadsheet,
    p: (i16, i16),
    rhs: ParsedRHS,
    status: Seq<char>,
    sleeps: Seq<u32>,
    states: Seq<Spreadsheet>,
    statuses: Seq<Seq<char>>,
    waits: Seq<Seq<u32>>,
    again: Seq<Spreadsheet>,
    again_statuses: Seq<Seq<char>>,
    again_waits: Seq<Seq<u32>>,
)
    requires
        s0.consistent(),
        s0.valid(p.0 as int, p.1 as int),
        s0.undo_stack@.len() == 0,
        s0.formula_ok(rhs),
        !is_copy_range(rhs),
        s0.set_rel(s1, p, rhs, status, sleeps),
        status == "ok"@,
        s1.undo_replay(states, statuses, waits),
        states.last().undo_replay(again, again_statuses, again_waits),
    ensures
        again.last().consistent(),
        forall|r: int, c: int| #![trigger again.last().slot(r, c)]
            s1.valid(r, c) ==> again.last().valid(r, c) && again.last().cell(r, c).formula == s1.cell(r, c).formula
                && again.last().cell(r, c).value == s1.cell(r, c).value
                && again.last().cell(r, c).error == s1.cell(r, c).error,
        again.last().undo_stack@ == seq![(s0.cell(p.0 as int, p.1 as int).formula, p.0, p.1)],
{
    law_undo_restores(s0, s1, p, rhs, status, sleeps, states, statuses, waits);
    law_assign_keeps_consistent(s0, s1, p, rhs, status, sleeps);
    let f0 = s0.cell(p.0 as int, p.1 as int).formula;
    assert(!s0.cycle_with(p, rhs)) by {
        if s0.cycle_with(p, rhs) {
            reveal_strlit("ok");
            reveal_strlit("Cycle Detected");
            assert(status.len() != "ok"@.len());
        }
    }
    let t0 = states[0];
    let t1 = states[1];
    t0.lemma_emptied_undo_consistent(s1);
    assert(t0.cells@ == s1.cells@);
    assert(s1.undo_stack@ == seq![(f0, p.0, p.1)]);
    assert(s1.undo_stack@[0] == (f0, p.0, p.1));
    assert(s0.slot(p.0 as int, p.1 as int) == s0.slot(p.0 as int, p.1 as int));
    assert(!is_copy_range(f0));
    assert(t0.set_rel(t1, p, f0, statuses[0], waits[0]));
    s0.lemma_reassign_no_cycle(s1, p, rhs, status, sleeps);
    s1.lemma_same_graph(t0);
    assert(!t0.cycle_with(p, f0));
    assert(t0.formula_ok(f0));
    law_assign_keeps_consistent(t0, t1, p, f0, statuses[0], waits[0]);
    assert(t0.slot(p.0 as int, p.1 as int) == s1.slot(p.0 as int, p.1 as int));
    assert(s1.slot(p.0 as int, p.1 as int) == s1.slot(p.0 as int, p.1 as int));
    assert(t0.cell(p.0 as int, p.1 as int).formula == rhs);
    t0.lemma_reassign_no_cycle(t1, p, f0, statuses[0], waits[0]);
    assert(states.last() == t1);
    let u0 = again[0];
    let u1 = again[1];
    u0.lemma_emptied_undo_consistent(t1);
    assert(u0.cells@ == t1.cells@);
    assert(t1.undo_stack@ == seq![(rhs, p.0, p.1)]);
    assert(t1.undo_stack@[0] == (rhs, p.0, p.1));
    assert(u0.set_rel(u1, p, rhs, again_statuses[0], again_waits[0]));
    t1.lemma_same_graph(u0);
    assert(!u0.cycle_with(p, rhs));
    assert(t1.storable(rhs));
    assert(u0.formula_ok(rhs));
    law_assign_keeps_consistent(u0, u1, p, rhs, again_statuses[0], again_waits[0]);
    assert(again.last() == u1);
    assert forall|r: int, c: int| #![trigger again.last().slot(r, c)]
        s1.valid(r, c) implies again.last().valid(r, c) && again.last().cell(r, c).formula == s1.cell(r, c).formula by {
        assert(u1.slot(r, c) == u1.slot(r, c));
        assert(u0.slot(r, c) == t1.slot(r, c));
        assert(t1.slot(r, c) == t1.slot(r, c));
        assert(t0.slot(r, c) == s1.slot(r, c));
        assert(s1.slot(r, c) == s1.slot(r, c));
    }
    assert(u0.slot(p.0 as int, p.1 as int) == t1.slot(p.0 as int, p.1 as int));
    assert(t1.slot(p.0 as int, p.1 as int) == t1.slot(p.0 as int, p.1 as int));
    assert(u0.cell(p.0 as int, p.1 as int).formula == f0);
    assert(again.last().rows == s1.rows && again.last().cols == s1.cols);
    law_values_determined(s1, again.last());
}

/// `xs` runs from `xs[0]` through the assignment of each of `entries`, the
/// last entry first; `sts` and `ws` are what each assignment reported.
pub open spec fn replays(xs: Seq<Spreadsheet>, sts: Seq<Seq<char>>, ws: Seq<Seq<u32>>, entries: Seq<(ParsedRHS, i16, i16)>) -> bool {
    let n = entries.len();
    &&& xs.len() == n + 1
    &&& sts.len() == n
    &&& ws.len() == n
    &&& forall|k: int| 0 <= k < n ==> {
        let e = entries[n - 1 - k];
        (#[trigger] xs[k]).set_rel(xs[k + 1], (e.1, e.2), e.0, sts[k], ws[k])
    }
}

/// Each assignment of `plan` names a cell of grid `s` and a formula, not a
/// `COPY`, that the grid can hold.
pub open spec fn plan_ok(s: Spreadsheet, plan: Seq<((i16, i16), ParsedRHS)>) -> bool {
    forall|k: int| 0 <= k < plan.len() ==> {
        let a = #[trigger] plan[k];
        s.valid(a.0.0 as int, a.0.1 as int) && s.formula_ok(a.1) && !is_copy_range(a.1)
    }
}

impl Spreadsheet {
    /// A grid that differs from one with exact dependents only by its undo
    /// stack has exact dependents and the same formulas.
    pub proof fn lemma_emptied_undo_exact(self, other: Spreadsheet)
        requires
            other.grid_wf(),
            other.deps_exact(),
            self.same_but_undo(other),
        ensures
            self.deps_exact(),
            other.same_formulas(self),
    {
        assert(self.cells@ == other.cells@);
        assert forall|q: (i16, i16), d: (i16, i16)| #[trigger] self.deps(q).contains(d) <==>
            (self.valid(d.0 as int, d.1 as int) && refs(self.cell(d.0 as int, d.1 as int).formula).contains(q)) by {
            assert(other.deps(q).contains(d) <==>
                (other.valid(d.0 as int, d.1 as int) && refs(other.cell(d.0 as int, d.1 as int).formula).contains(q)));
        }
    }
}

/// The grids an order-keeping plan runs through stay in order, with exact
/// dependents and the size of the first.
proof fn lemma_plan_states(
    states: Seq<Spreadsheet>,
    statuses: Seq<Seq<char>>,
    waits: Seq<Seq<u32>>,
    plan: Seq<((i16, i16), ParsedRHS)>,
    k: int,
)
    requires
        applies(states, statuses, waits, plan),
        plan_ok(states[0], plan),
        states[0].consistent(),
        states[0].deps_exact(),
        0 <= k <= plan.len(),
    ensures
        states[k].consistent(),
        states[k].deps_exact(),
        states[k].rows == states[0].rows,
        states[k].cols == states[0].cols,
    decreases k,
{
    if k > 0 {
        let m = k - 1;
        lemma_plan_states(states, statuses, waits, plan, m);
        let a = plan[m];
        assert(states[m].set_rel(states[k], a.0, a.1, statuses[m], waits[m]));
        assert(states[m].formula_ok(a.1));
        law_assign_keeps_consistent(states[m], states[k], a.0, a.1, statuses[m], waits[m]);
        law_assign_keeps_exact(states[m], states[k], a.0, a.1, statuses[m], waits[m]);
    }
}

/// Giving `p` back its former formula in a grid with the formulas that
/// assigning `g` to `p` left restores the formulas from before, and keeps
/// the grid in order with exact dependents.
proof fn lemma_reassign_step(
    sm: Spreadsheet,
    sn: Spreadsheet,
    p: (i16, i16),
    g: ParsedRHS,
    status: Seq<char>,
    sleeps: Seq<u32>,
    x0: Spreadsheet,
    x1: Spreadsheet,
    st: Seq<char>,
    w: Seq<u32>,
)
    requires
        sm.consistent(),
        sm.deps_exact(),
        sn.consistent(),
        sn.deps_exact(),
        sm.valid(p.0 as int, p.1 as int),
        !sm.cycle_with(p, g),
        sm.assign_rel(sn, p, g, status, sleeps),
        x0.consistent(),
        x0.deps_exact(),
        x0.rows == sm.rows,
        x0.cols == sm.cols,
        sn.same_formulas(x0),
        x0.set_rel(x1, p, sm.cell(p.0 as int, p.1 as int).formula, st, w),
    ensures
        x1.consistent(),
        x1.deps_exact(),
        x1.rows == sm.rows,
        x1.cols == sm.cols,
        sm.same_formulas(x1),
{
    let f0 = sm.cell(p.0 as int, p.1 as int).formula;
    assert(sm.slot(p.0 as int, p.1 as int) == sm.slot(p.0 as int, p.1 as int));
    assert(!is_copy_range(f0));
    assert(x0.formula_ok(f0));
    sm.lemma_reassign_no_cycle(sn, p, g, status, sleeps);
    sn.lemma_exact_same_graph(x0);
    assert(!x0.cycle_with(p, f0));
    law_assign_keeps_consistent(x0, x1, p, f0, st, w);
    law_assign_keeps_exact(x0, x1, p, f0, st, w);
    assert forall|r: int, c: int| #![trigger x1.slot(r, c)] sm.valid(r, c) implies
        x1.cell(r, c).formula == sm.cell(r, c).formula by {
        assert(x0.slot(r, c) == x0.slot(r, c));
        assert(sn.slot(r, c) == sn.slot(r, c));
        assert(sm.slot(r, c) == sm.slot(r, c));
    }
}

/// A replay of `rest` with one more entry pushed starts with that entry and
/// goes on as a replay of `rest`.
proof fn lemma_replays_split(
    xs: Seq<Spreadsheet>,
    sts: Seq<Seq<char>>,
    ws: Seq<Seq<u32>>,
    rest: Seq<(ParsedRHS, i16, i16)>,
    e: (ParsedRHS, i16, i16),
)
    requires
        replays(xs, sts, ws, rest.push(e)),
    ensures
        xs[0].set_rel(xs[1], (e.1, e.2), e.0, sts[0], ws[0]),
        replays(xs.drop_first(), sts.drop_first(), ws.drop_first(), rest),
        xs.drop_first().last() == xs.last(),
{
    let entries = rest.push(e);
    let len = entries.len();
    assert(entries[len - 1 - 0] == e);
    let xs2 = xs.drop_first();
    let sts2 = sts.drop_first();
    let ws2 = ws.drop_first();
    assert forall|k: int| 0 <= k < rest.len() implies {
        let g = rest[rest.len() - 1 - k];
        (#[trigger] xs2[k]).set_rel(xs2[k + 1], (g.1, g.2), g.0, sts2[k], ws2[k])
    } by {
        assert(entries[len - 1 - (k + 1)] == rest[rest.len() - 1 - k]);
        assert(xs[k + 1].set_rel(xs[k + 2], (entries[len - 1 - (k + 1)].1, entries[len - 1 - (k + 1)].2),
            entries[len - 1 - (k + 1)].0, sts[k + 1], ws[k + 1]));
    }
}

/// Replaying, last first, the undo entries that the first `n` assignments of
/// a plan recorded, from a grid with the formulas those assignments left,
/// gives back the formulas the plan started from.
#[verifier::spinoff_prover]
proof fn lemma_replay_restores(
    states: Seq<Spreadsheet>,
    statuses: Seq<Seq<char>>,
    waits: Seq<Seq<u32>>,
    plan: Seq<((i16, i16), ParsedRHS)>,
    n: int,
    xs: Seq<Spreadsheet>,
    sts: Seq<Seq<char>>,
    ws: Seq<Seq<u32>>,
)
    requires
        applies(states, statuses, waits, plan),
        plan_ok(states[0], plan),
        states[0].consistent(),
        states[0].deps_exact(),
        states[0].undo_stack@.len() == 0,
        0 <= n <= plan.len(),
        replays(xs, sts, ws, states[n].undo_stack@),
        xs[0].consistent(),
        xs[0].deps_exact(),
        xs[0].rows == states[0].rows,
        xs[0].cols == states[0].cols,
        states[n].same_formulas(xs[0]),
    ensures
        xs.last().consistent(),
        xs.last().deps_exact(),
        xs.last().rows == states[0].rows,
        xs.last().cols == states[0].cols,
        states[0].same_formulas(xs.last()),
    decreases n,
{
    if n == 0 {
        assert(xs.len() == 1);
        return;
    }
    let m = n - 1;
    lemma_plan_states(states, statuses, waits, plan, m);
    lemma_plan_states(states, statuses, waits, plan, n);
    let a = plan[m];
    let p = a.0;
    let rhs = a.1;
    let sm = states[m];
    let sn = states[n];
    assert(sm.set_rel(sn, p, rhs, statuses[m], waits[m]));
    if sm.cycle_with(p, rhs) {
        assert(sn == sm);
        lemma_replay_restores(states, statuses, waits, plan, m, xs, sts, ws);
        return;
    }
    let f0 = sm.cell(p.0 as int, p.1 as int).formula;
    let e = (f0, p.0, p.1);
    assert(sn.undo_stack@ == sm.undo_stack@.push(e));
    lemma_replays_split(xs, sts, ws, sm.undo_stack@, e);
    lemma_reassign_step(sm, sn, p, rhs, statuses[m], waits[m], xs[0], xs[1], sts[0], ws[0]);
    lemma_replay_restores(states, statuses, waits, plan, m, xs.drop_first(), sts.drop_first(), ws.drop_first());
}

/// Undo after a run of assignments, none of them a `COPY`, restores the grid
/// as [`law_undo_restores_all`] says.
proof fn lemma_undo_restores_plain(
    s0: Spreadsheet,
    plan: Seq<((i16, i16), ParsedRHS)>,
    states: Seq<Spreadsheet>,
    statuses: Seq<Seq<char>>,
    waits: Seq<Seq<u32>>,
    again: Seq<Spreadsheet>,
    again_statuses: Seq<Seq<char>>,
    again_waits: Seq<Seq<u32>>,
)
    requires
        s0.consistent(),
        s0.deps_exact(),
        s0.undo_stack@.len() == 0,
        plan_ok(s0, plan),
        applies(states, statuses, waits, plan),
        states[0] == s0,
        states.last().undo_replay(again, again_statuses, again_waits),
    ensures
        again.last().consistent(),
        again.last().deps_exact(),
        forall|r: int, c: int| #![trigger again.last().slot(r, c)]
            s0.valid(r, c) ==> again.last().valid(r, c) && again.last().cell(r, c).formula == s0.cell(r, c).formula
                && again.last().cell(r, c).value == s0.cell(r, c).value
                && again.last().cell(r, c).error == s0.cell(r, c).error,
{
    let n = plan.len() as int;
    lemma_plan_states(states, statuses, waits, plan, n);
    let t = states[n];
    assert(states.last() == t);
    let a0 = again[0];
    a0.lemma_emptied_undo_consistent(t);
    a0.lemma_emptied_undo_exact(t);
    assert(replays(again, again_statuses, again_waits, t.undo_stack@));
    lemma_replay_restores(states, statuses, waits, plan, n, again, again_statuses, again_waits);
    law_values_determined(s0, again.last());
    assert forall|r: int, c: int| #![trigger again.last().slot(r, c)]
        s0.valid(r, c) implies again.last().valid(r, c) && again.last().cell(r, c).formula == s0.cell(r, c).formula
            && again.last().cell(r, c).value == s0.cell(r, c).value
            && again.last().cell(r, c).error == s0.cell(r, c).error by {
        assert(s0.slot(r, c) == s0.slot(r, c));
    }
}

/// The assignments an undo carries out: the undo entries, last first.
pub open spec fn replay_plan(entries: Seq<(ParsedRHS, i16, i16)>) -> Seq<((i16, i16), ParsedRHS)> {
    Seq::new(entries.len(), |k: int| {
        let e = entries[entries.len() - 1 - k];
        ((e.1, e.2), e.0)
    })
}

/// A second undo after a run of assignments, none of them a `COPY`, redoes
/// it as [`law_redo_all`] says.
proof fn lemma_redo_plain(
    s0: Spreadsheet,
    plan: Seq<((i16, i16), ParsedRHS)>,
    states: Seq<Spreadsheet>,
    statuses: Seq<Seq<char>>,
    waits: Seq<Seq<u32>>,
    again: Seq<Spreadsheet>,
    again_statuses: Seq<Seq<char>>,
    again_waits: Seq<Seq<u32>>,
    redo: Seq<Spreadsheet>,
    redo_statuses: Seq<Seq<char>>,
    redo_waits: Seq<Seq<u32>>,
)
    requires
        s0.consistent(),
        s0.deps_exact(),
        s0.undo_stack@.len() == 0,
        plan_ok(s0, plan),
        applies(states, statuses, waits, plan),
        states[0] == s0,
        states.last().undo_replay(again, again_statuses, again_waits),
        again.last().undo_replay(redo, redo_statuses, redo_waits),
    ensures
        redo.last().consistent(),
        redo.last().deps_exact(),
        forall|r: int, c: int| #![trigger redo.last().slot(r, c)]
            s0.valid(r, c) ==> redo.last().valid(r, c) && redo.last().cell(r, c).formula == states.last().cell(r, c).formula
                && redo.last().cell(r, c).value == states.last().cell(r, c).value
                && redo.last().cell(r, c).error == states.last().cell(r, c).error,
{
    let n = plan.len() as int;
    lemma_plan_states(states, statuses, waits, plan, n);
    let t = states[n];
    assert(states.last() == t);
    let a0 = again[0];
    a0.lemma_emptied_undo_consistent(t);
    a0.lemma_emptied_undo_exact(t);
    let entries = t.undo_stack@;
    let plan2 = replay_plan(entries);
    assert forall|k: int| 0 <= k < plan2.len() implies
        (#[trigger] again[k]).set_rel(again[k + 1], plan2[k].0, plan2[k].1, again_statuses[k], again_waits[k]) by {
        let e = entries[entries.len() - 1 - k];
        assert(plan2[k] == ((e.1, e.2), e.0));
    }
    assert(applies(again, again_statuses, again_waits, plan2));
    assert forall|k: int| 0 <= k < plan2.len() implies {
        let a = #[trigger] plan2[k];
        a0.valid(a.0.0 as int, a.0.1 as int) && a0.formula_ok(a.1) && !is_copy_range(a.1)
    } by {
        let e = entries[entries.len() - 1 - k];
        assert(t.valid(e.1 as int, e.2 as int) && t.storable(e.0));
    }
    assert(plan_ok(a0, plan2));
    lemma_undo_restores_plain(a0, plan2, again, again_statuses, again_waits, redo, redo_statuses, redo_waits);
    assert forall|r: int, c: int| #![trigger redo.last().slot(r, c)]
        s0.valid(r, c) implies redo.last().valid(r, c) && redo.last().cell(r, c).formula == t.cell(r, c).formula
            && redo.last().cell(r, c).value == t.cell(r, c).value
            && redo.last().cell(r, c).error == t.cell(r, c).error by {
        assert(a0.slot(r, c) == t.slot(r, c));
        assert(a0.slot(r, c) == a0.slot(r, c));
    }
}


/// Each assignment of `plan` names a cell of grid `s` and either a formula
/// the grid can hold or a `COPY` of a range that can be carried out: what
/// `spreadsheet_set_cell_value` asks of each.
pub open spec fn plan_fits(s: Spreadsheet, plan: Seq<((i16, i16), ParsedRHS)>) -> bool {
    forall|k: int| 0 <= k < plan.len() ==> {
        let a = #[trigger] plan[k];
        &&& s.valid(a.0.0 as int, a.0.1 as int)
        &&& is_copy_range(a.1) ==> s.copy_ok(range_args(a.1).0, range_args(a.1).1)
        &&& !is_copy_range(a.1) ==> s.formula_ok(a.1)
    }
}

/// A run of accepted assignments, `COPY` included, is also a run of
/// assignments none of which is a `COPY`: each `COPY` stands for the
/// assignments of constants it carries out. The first `n` steps of the run
/// lead where such a run leads.
proof fn lemma_expand_copies(
    plan: Seq<((i16, i16), ParsedRHS)>,
    states: Seq<Spreadsheet>,
    statuses: Seq<Seq<char>>,
    waits: Seq<Seq<u32>>,
    n: int,
) -> (r: (Seq<((i16, i16), ParsedRHS)>, Seq<Spreadsheet>, Seq<Seq<char>>, Seq<Seq<u32>>))
    requires
        applies(states, statuses, waits, plan),
        states[0].consistent(),
        plan_fits(states[0], plan),
        0 <= n <= plan.len(),
    ensures
        plan_ok(states[0], r.0),
        applies(r.1, r.2, r.3, r.0),
        r.1[0] == states[0],
        r.1.last() == states[n],
        states[n].consistent(),
        states[n].rows == states[0].rows,
        states[n].cols == states[0].cols,
    decreases n,
{
    let s0 = states[0];
    if n == 0 {
        let r = (Seq::<((i16, i16), ParsedRHS)>::empty(), seq![s0], Seq::<Seq<char>>::empty(), Seq::<Seq<u32>>::empty());
        assert(applies(r.1, r.2, r.3, r.0));
        r
    } else {
        let m = n - 1;
        let (p1, s1, t1, w1) = lemma_expand_copies(plan, states, statuses, waits, m);
        let a = plan[m];
        let before = states[m];
        let after = states[n];
        assert(before.set_rel(after, a.0, a.1, statuses[m], waits[m]));
        law_set_keeps_consistent(before, after, a.0, a.1, statuses[m], waits[m]);
        if is_copy_range(a.1) {
            reveal(Spreadsheet::copy_rel);
            let first = range_args(a.1).0;
            let second = range_args(a.1).1;
            let cplan = before.copy_plan(a.0, first, second, range_len(first, second));
            let (cs, ct, cw) = choose|cs: Seq<Spreadsheet>, ct: Seq<Seq<char>>, cw: Seq<Seq<u32>>| {
                &&& #[trigger] assigns(cs, ct, cw, cplan)
                &&& cs[0] == before
                &&& cs.last() == after
                &&& waits[m] == cw.flatten()
            };
            lemma_copy_plan_ok(before, a.0, first, second, range_len(first, second));
            lemma_assigns_keep(cs, ct, cw, cplan, cplan.len() as int);
            assert forall|j: int| 0 <= j < cplan.len() implies
                (#[trigger] cs[j]).set_rel(cs[j + 1], cplan[j].0, cplan[j].1, ct[j], cw[j]) by {
                assert(cs[j].assign_rel(cs[j + 1], cplan[j].0, cplan[j].1, ct[j], cw[j]));
                assert(!is_copy_range(cplan[j].1));
            }
            assert(applies(cs, ct, cw, cplan));
            lemma_applies_concat(s1, t1, w1, p1, cs, ct, cw, cplan);
            let p2 = p1 + cplan;
            assert forall|k: int| 0 <= k < p2.len() implies {
                let b = #[trigger] p2[k];
                s0.valid(b.0.0 as int, b.0.1 as int) && s0.formula_ok(b.1) && !is_copy_range(b.1)
            } by {
                if k < p1.len() {
                    assert(p2[k] == p1[k]);
                } else {
                    assert(p2[k] == cplan[k - p1.len()]);
                }
            }
            (p2, s1 + cs.drop_first(), t1 + ct, w1 + cw)
        } else {
            lemma_applies_push(s1, t1, w1, p1, after, a.0, a.1, statuses[m], waits[m]);
            let p2 = p1.push((a.0, a.1));
            assert forall|k: int| 0 <= k < p2.len() implies {
                let b = #[trigger] p2[k];
                s0.valid(b.0.0 as int, b.0.1 as int) && s0.formula_ok(b.1) && !is_copy_range(b.1)
            } by {
                if k < p1.len() {
                    assert(p2[k] == p1[k]);
                }
            }
            if before.cycle_with(a.0, a.1) {
                assert(after == before);
            }
            (p2, s1.push(after), t1.push(statuses[m]), w1.push(waits[m]))
        }
    }
}

/// Undo after any run of accepted assignments, `COPY` included, to a grid in
/// order, with exact dependents and an empty undo stack, gives every cell
/// back the formula, value and error flag it had before the run, and leaves
/// the grid in order with exact dependents. Refused assignments record
/// nothing and so need no undoing.
pub proof fn law_undo_restores_all(
    s0: Spreadsheet,
    plan: Seq<((i16, i16), ParsedRHS)>,
    states: Seq<Spreadsheet>,
    statuses: Seq<Seq<char>>,
    waits: Seq<Seq<u32>>,
    again: Seq<Spreadsheet>,
    again_statuses: Seq<Seq<char>>,
    again_waits: Seq<Seq<u32>>,
)
    requires
        s0.consistent(),
        s0.deps_exact(),
        s0.undo_stack@.len() == 0,
        plan_fits(s0, plan),
        applies(states, statuses, waits, plan),
        states[0] == s0,
        states.last().undo_replay(again, again_statuses, again_waits),
    ensures
        again.last().consistent(),
        again.last().deps_exact(),
        forall|r: int, c: int| #![trigger again.last().slot(r, c)]
            s0.valid(r, c) ==> again.last().valid(r, c) && again.last().cell(r, c).formula == s0.cell(r, c).formula
                && again.last().cell(r, c).value == s0.cell(r, c).value
                && again.last().cell(r, c).error == s0.cell(r, c).error,
{
    let (p2, s2, t2, w2) = lemma_expand_copies(plan, states, statuses, waits, plan.len() as int);
    assert(states.last() == states[plan.len() as int]);
    lemma_undo_restores_plain(s0, p2, s2, t2, w2, again, again_statuses, again_waits);
}

/// A second undo, right after the undo of [`law_undo_restores_all`], redoes
/// the whole run, `COPY` included: every cell has the formula, value and
/// error flag it had after the run, and the grid is in order with exact
/// dependents.
pub proof fn law_redo_all(
    s0: Spreadsheet,
    plan: Seq<((i16, i16), ParsedRHS)>,
    states: Seq<Spreadsheet>,
    statuses: Seq<Seq<char>>,
    waits: Seq<Seq<u32>>,
    again: Seq<Spreadsheet>,
    again_statuses: Seq<Seq<char>>,
    again_waits: Seq<Seq<u32>>,
    redo: Seq<Spreadsheet>,
    redo_statuses: Seq<Seq<char>>,
    redo_waits: Seq<Seq<u32>>,
)
    requires
        s0.consistent(),
        s0.deps_exact(),
        s0.undo_stack@.len() == 0,
        plan_fits(s0, plan),
        applies(states, statuses, waits, plan),
        states[0] == s0,
        states.last().undo_replay(again, again_statuses, again_waits),
        again.last().undo_replay(redo, redo_statuses, redo_waits),
    ensures
        redo.last().consistent(),
        redo.last().deps_exact(),
        forall|r: int, c: int| #![trigger redo.last().slot(r, c)]
            s0.valid(r, c) ==> redo.last().valid(r, c) && redo.last().cell(r, c).formula == states.last().cell(r, c).formula
                && redo.last().cell(r, c).value == states.last().cell(r, c).value
                && redo.last().cell(r, c).error == states.last().cell(r, c).error,
{
    let (p2, s2, t2, w2) = lemma_expand_copies(plan, states, statuses, waits, plan.len() as int);
    assert(states.last() == states[plan.len() as int]);
    lemma_redo_plain(s0, p2, s2, t2, w2, again, again_statuses, again_waits, redo, redo_statuses, redo_waits);
}

/// Where `COPY` of a range starting at `first` into `p` sends cell `s`: moved
/// by the offset from `first` to `p`.
pub open spec fn paste_cell(p: (i16, i16), first: (i16, i16), s: (i16, i16)) -> (int, int) {
    (s.0 + (p.0 - first.0), s.1 + (p.1 - first.1))
}

/// A run of assignments of constants, no two to the same cell, leaves each
/// assigned cell with the constant assigned to it.
proof fn lemma_assigns_constants(
    states: Seq<Spreadsheet>,
    statuses: Seq<Seq<char>>,
    waits: Seq<Seq<u32>>,
    plan: Seq<((i16, i16), ParsedRHS)>,
    j: int,
)
    requires
        assigns(states, statuses, waits, plan),
        states[0].consistent(),
        forall|k: int| 0 <= k < plan.len() ==> {
            let a = #[trigger] plan[k];
            &&& states[0].valid(a.0.0 as int, a.0.1 as int)
            &&& a.1 matches ParsedRHS::SingleValue(crate::spreadsheet::Operand::Number(_))
        },
        forall|i: int, k: int| 0 <= i < plan.len() && 0 <= k < plan.len() && i != k ==> (#[trigger] plan[i]).0
            != (#[trigger] plan[k]).0,
        0 <= j <= plan.len(),
    ensures
        states[j].consistent(),
        states[j].rows == states[0].rows,
        states[j].cols == states[0].cols,
        forall|i: int| 0 <= i < j ==> #[trigger] states[j].cell(plan[i].0.0 as int, plan[i].0.1 as int).formula
            == plan[i].1,
        forall|r: int, c: int| #![trigger states[j].slot(r, c)]
            states[0].valid(r, c) && (forall|i: int| 0 <= i < j ==> plan[i].0 != (r as i16, c as i16))
                ==> states[j].cell(r, c).formula == states[0].cell(r, c).formula,
    decreases j,
{
    lemma_assigns_keep(states, statuses, waits, plan, j);
    if j > 0 {
        let m = j - 1;
        lemma_assigns_constants(states, statuses, waits, plan, m);
        let t = states[m];
        let u = states[j];
        let a = plan[m];
        assert(t.assign_rel(u, a.0, a.1, statuses[m], waits[m]));
        assert(refs(a.1) =~= Set::<(i16, i16)>::empty());
        assert(!t.cycle_with(a.0, a.1));
        assert forall|i: int| 0 <= i < j implies #[trigger] u.cell(plan[i].0.0 as int, plan[i].0.1 as int).formula
            == plan[i].1 by {
            let x = plan[i].0;
            assert(t.valid(x.0 as int, x.1 as int));
            assert(u.slot(x.0 as int, x.1 as int) == u.slot(x.0 as int, x.1 as int));
            if i < m {
                assert(plan[i].0 != plan[m].0);
                assert(t.cell(x.0 as int, x.1 as int).formula == plan[i].1);
            }
        }
        assert forall|r: int, c: int| #![trigger u.slot(r, c)]
            states[0].valid(r, c) && (forall|i: int| 0 <= i < j ==> plan[i].0 != (r as i16, c as i16))
                implies u.cell(r, c).formula == states[0].cell(r, c).formula by {
            assert(plan[m].0 != (r as i16, c as i16));
            assert(t.slot(r, c) == t.slot(r, c));
            assert(forall|i: int| 0 <= i < m ==> plan[i].0 != (r as i16, c as i16));
        }
    }
}

/// With the whole paste block inside the grid, every cell of the range
/// lands, on its moved cell, with the constant of the value it holds.
proof fn lemma_copy_plan_cells(s: Spreadsheet, p: (i16, i16), first: (i16, i16), second: (i16, i16), upto: int)
    requires
        s.grid_wf(),
        s.copy_ok(first, second),
        first.0 <= second.0,
        first.1 <= second.1,
        1 <= p.0,
        1 <= p.1,
        second.0 + (p.0 - first.0) <= s.rows,
        second.1 + (p.1 - first.1) <= s.cols,
        0 <= upto <= range_len(first, second),
    ensures
        s.copy_plan(p, first, second, upto).len() == upto,
        forall|k: int| 0 <= k < upto ==> {
            let src = range_cell(first, second, k);
            let dst = paste_cell(p, first, src);
            #[trigger] s.copy_plan(p, first, second, upto)[k] == ((dst.0 as i16, dst.1 as i16),
                ParsedRHS::SingleValue(crate::spreadsheet::Operand::Number(s.cell(src.0 as int, src.1 as int).value)))
        },
    decreases upto,
{
    if upto > 0 {
        let k = upto - 1;
        lemma_copy_plan_cells(s, p, first, second, k);
        s.lemma_copy_target(p, first, second, k);
        lemma_range_cell(first, second, k);
        let src = range_cell(first, second, k);
        let dst = paste_cell(p, first, src);
        assert(s.valid(dst.0, dst.1));
        crate::spreadsheet::lemma_cell_index(dst.0, dst.1, s.rows as int, s.cols as int);
        crate::spreadsheet::lemma_cell_index(src.0 as int, src.1 as int, s.rows as int, s.cols as int);
        let cols = s.cols as int;
        assert(s.idx(dst.0, dst.1) == s.idx(src.0 as int, src.1 as int) + (p.0 - first.0) * cols + (p.1 - first.1))
            by (nonlinear_arith)
            requires
                dst.0 == src.0 + (p.0 - first.0),
                dst.1 == src.1 + (p.1 - first.1),
                s.idx(dst.0, dst.1) == (dst.0 - 1) * cols + (dst.1 - 1),
                s.idx(src.0 as int, src.1 as int) == (src.0 - 1) * cols + (src.1 - 1),
        ;
        assert(s.copy_target(p, first, second, k) == s.idx(dst.0, dst.1));
        assert(s.copy_lands(p, first, second, k));
        assert(s.cell_of_index(s.copy_target(p, first, second, k)) == (dst.0 as i16, dst.1 as i16));
        let prev = s.copy_plan(p, first, second, k);
        let cur = s.copy_plan(p, first, second, upto);
        assert forall|j: int| 0 <= j < upto implies {
            let src2 = range_cell(first, second, j);
            let dst2 = paste_cell(p, first, src2);
            #[trigger] cur[j] == ((dst2.0 as i16, dst2.1 as i16),
                ParsedRHS::SingleValue(crate::spreadsheet::Operand::Number(s.cell(src2.0 as int, src2.1 as int).value)))
        } by {
            if j < k {
                assert(cur[j] == prev[j]);
            }
        }
    }
}

/// No two cells of the range are pasted onto the same cell.
proof fn lemma_copy_plan_distinct(s: Spreadsheet, p: (i16, i16), first: (i16, i16), second: (i16, i16))
    requires
        s.grid_wf(),
        s.copy_ok(first, second),
        first.0 <= second.0,
        first.1 <= second.1,
        1 <= p.0,
        1 <= p.1,
        second.0 + (p.0 - first.0) <= s.rows,
        second.1 + (p.1 - first.1) <= s.cols,
    ensures
        forall|i: int, k: int| 0 <= i < s.copy_plan(p, first, second, range_len(first, second)).len() && 0 <= k
            < s.copy_plan(p, first, second, range_len(first, second)).len() && i != k
            ==> (#[trigger] s.copy_plan(p, first, second, range_len(first, second))[i]).0
            != (#[trigger] s.copy_plan(p, first, second, range_len(first, second))[k]).0,
{
    let n = range_len(first, second);
    let plan = s.copy_plan(p, first, second, n);
    lemma_copy_plan_cells(s, p, first, second, n);
    assert forall|i: int, k: int| 0 <= i < plan.len() && 0 <= k < plan.len() && i != k implies (#[trigger] plan[i]).0
        != (#[trigger] plan[k]).0 by {
        lemma_range_cell(first, second, i);
        lemma_range_cell(first, second, k);
        if plan[i].0 == plan[k].0 {
            assert(range_cell(first, second, i) == range_cell(first, second, k));
            lemma_range_cell_injective(first, second, i, k);
        }
    }
}

/// The cell that `(r, c)` of the range is pasted onto holds its value.
proof fn lemma_pasted_cell(
    before: Spreadsheet,
    after: Spreadsheet,
    p: (i16, i16),
    first: (i16, i16),
    second: (i16, i16),
    r: int,
    c: int,
)
    requires
        before.grid_wf(),
        before.copy_ok(first, second),
        1 <= p.0,
        1 <= p.1,
        second.0 + (p.0 - first.0) <= before.rows,
        second.1 + (p.1 - first.1) <= before.cols,
        first.0 <= r <= second.0,
        first.1 <= c <= second.1,
        after.consistent(),
        after.rows == before.rows,
        after.cols == before.cols,
        forall|i: int| 0 <= i < range_len(first, second) ==> #[trigger] after.cell(
            before.copy_plan(p, first, second, range_len(first, second))[i].0.0 as int,
            before.copy_plan(p, first, second, range_len(first, second))[i].0.1 as int,
        ).formula == before.copy_plan(p, first, second, range_len(first, second))[i].1,
    ensures
        after.valid(r + (p.0 - first.0), c + (p.1 - first.1)),
        after.cell(r + (p.0 - first.0), c + (p.1 - first.1)).value == before.cell(r, c).value,
        !after.cell(r + (p.0 - first.0), c + (p.1 - first.1)).error,
        after.cell(r + (p.0 - first.0), c + (p.1 - first.1)).formula == ParsedRHS::SingleValue(
            crate::spreadsheet::Operand::Number(before.cell(r, c).value)),
{
    let n = range_len(first, second);
    let plan = before.copy_plan(p, first, second, n);
    lemma_copy_plan_cells(before, p, first, second, n);
    let w = second.1 - first.1 + 1;
    let h = second.0 - first.0 + 1;
    let k = (r - first.0) * w + (c - first.1);
    assert(0 <= k < n) by (nonlinear_arith)
        requires
            k == (r - first.0) * w + (c - first.1),
            0 <= r - first.0 < h,
            0 <= c - first.1 < w,
            n == h * w,
    ;
    vstd::arithmetic::div_mod::lemma_fundamental_div_mod_converse(k, w, r - first.0, c - first.1);
    assert(range_cell(first, second, k) == (r as i16, c as i16));
    let d0 = r + (p.0 - first.0);
    let d1 = c + (p.1 - first.1);
    assert(plan[k].0 == (d0 as i16, d1 as i16));
    assert(after.cell(d0, d1).formula == plan[k].1);
    assert(after.slot(d0, d1) == after.slot(d0, d1));
    assert(after.vals()(d0, d1) == eval_vals(after.vals(), after.formulas()(d0, d1)));
}

/// `COPY` pastes values: after a `COPY` of the range `first..=second` into
/// cell `p` whose paste block lies inside the grid, every cell `(r, c)` of
/// the range gives the cell `(r + p.0 - first.0, c + p.1 - first.1)` the
/// value `(r, c)` held before the copy, as a constant and without error;
/// every cell outside the paste block keeps its formula.
pub proof fn law_copy_pastes_values(
    before: Spreadsheet,
    after: Spreadsheet,
    p: (i16, i16),
    rhs: ParsedRHS,
    status: Seq<char>,
    sleeps: Seq<u32>,
)
    requires
        before.consistent(),
        before.valid(p.0 as int, p.1 as int),
        is_copy_range(rhs),
        before.copy_ok(range_args(rhs).0, range_args(rhs).1),
        range_args(rhs).1.0 + (p.0 - range_args(rhs).0.0) <= before.rows,
        range_args(rhs).1.1 + (p.1 - range_args(rhs).0.1) <= before.cols,
        before.set_rel(after, p, rhs, status, sleeps),
    ensures
        forall|r: int, c: int| #![trigger before.cell(r, c)]
            range_args(rhs).0.0 <= r <= range_args(rhs).1.0 && range_args(rhs).0.1 <= c <= range_args(rhs).1.1 ==> {
                &&& after.valid(r + (p.0 - range_args(rhs).0.0), c + (p.1 - range_args(rhs).0.1))
                &&& after.cell(r + (p.0 - range_args(rhs).0.0), c + (p.1 - range_args(rhs).0.1)).value
                    == before.cell(r, c).value
                &&& !after.cell(r + (p.0 - range_args(rhs).0.0), c + (p.1 - range_args(rhs).0.1)).error
                &&& after.cell(r + (p.0 - range_args(rhs).0.0), c + (p.1 - range_args(rhs).0.1)).formula
                    == ParsedRHS::SingleValue(crate::spreadsheet::Operand::Number(before.cell(r, c).value))
            },
        forall|r: int, c: int| #![trigger after.slot(r, c)]
            before.valid(r, c) && !(range_args(rhs).0.0 <= r - (p.0 - range_args(rhs).0.0) <= range_args(rhs).1.0
                && range_args(rhs).0.1 <= c - (p.1 - range_args(rhs).0.1) <= range_args(rhs).1.1)
                ==> after.cell(r, c).formula == before.cell(r, c).formula,
{
    let first = range_args(rhs).0;
    let second = range_args(rhs).1;
    if first.0 <= second.0 && first.1 <= second.1 {
        reveal(Spreadsheet::copy_rel);
        let n = range_len(first, second);
        let plan = before.copy_plan(p, first, second, n);
        let (states, statuses, waits) = choose|states: Seq<Spreadsheet>, statuses: Seq<Seq<char>>, waits: Seq<Seq<u32>>| {
            &&& #[trigger] assigns(states, statuses, waits, plan)
            &&& states[0] == before
            &&& states.last() == after
            &&& sleeps == waits.flatten()
        };
        lemma_copy_plan_cells(before, p, first, second, n);
        lemma_copy_plan_ok(before, p, first, second, n);
        lemma_copy_plan_distinct(before, p, first, second);
        lemma_assigns_constants(states, statuses, waits, plan, n);
        assert(after == states[n]);
        assert forall|r: int, c: int| #![trigger before.cell(r, c)]
            first.0 <= r <= second.0 && first.1 <= c <= second.1 implies {
                &&& after.valid(r + (p.0 - first.0), c + (p.1 - first.1))
                &&& after.cell(r + (p.0 - first.0), c + (p.1 - first.1)).value == before.cell(r, c).value
                &&& !after.cell(r + (p.0 - first.0), c + (p.1 - first.1)).error
                &&& after.cell(r + (p.0 - first.0), c + (p.1 - first.1)).formula == ParsedRHS::SingleValue(
                    crate::spreadsheet::Operand::Number(before.cell(r, c).value))
            } by {
            lemma_pasted_cell(before, after, p, first, second, r, c);
        }
        assert forall|r: int, c: int| #![trigger after.slot(r, c)]
            before.valid(r, c) && !(first.0 <= r - (p.0 - first.0) <= second.0
                && first.1 <= c - (p.1 - first.1) <= second.1)
                implies after.cell(r, c).formula == before.cell(r, c).formula by {
            assert forall|i: int| 0 <= i < n implies plan[i].0 != (r as i16, c as i16) by {
                lemma_range_cell(first, second, i);
            }
        }
    } else {
        reveal(Spreadsheet::copy_rel);
        let plan = before.copy_plan(p, first, second, range_len(first, second));
        assert(plan.len() == 0);
        let (states, statuses, waits) = choose|states: Seq<Spreadsheet>, statuses: Seq<Seq<char>>, waits: Seq<Seq<u32>>| {
            &&& #[trigger] assigns(states, statuses, waits, plan)
            &&& states[0] == before
            &&& states.last() == after
            &&& sleeps == waits.flatten()
        };
        assert(after == before);
    }
}

} // verus!
