use vstd::prelude::*;
use crate::spreadsheet::{FunctionName, Operand, ParsedRHS, Spreadsheet};
use crate::graph::in_target;
use crate::update::{refs, inserted};
use crate::recalc::{run_evals, run_sleeps};

verus! {

/// A `COPY` of a range given by two cells: carried out at once, never stored.
pub open spec fn is_copy_range(f: ParsedRHS) -> bool {
    f matches ParsedRHS::Function {
        name: FunctionName::Copy,
        args: (Operand::Cell(_, _), Operand::Cell(_, _)),
    }
}

impl Spreadsheet {
    /// Whether this grid can carry out `rhs` when it is a `COPY` of a range
    /// (see [`copy_fits`]); any other formula is allowed.
    pub fn copy_allowed(&self, rhs: &ParsedRHS) -> (r: bool)
        ensures
            r == (is_copy_range(*rhs) ==> self.copy_ok(range_args(*rhs).0, range_args(*rhs).1)),
    {
        match rhs {
            ParsedRHS::Function {
                name: FunctionName::Copy,
                args: (Operand::Cell(r1, c1), Operand::Cell(r2, c2)),
            } => {
                if !(*r1 <= *r2 && *c1 <= *c2) {
                    return true;
                }
                assert(range_len((*r1, *c1), (*r2, *c2)) > 0) by (nonlinear_arith)
                    requires
                        *r1 <= *r2,
                        *c1 <= *c2,
                        range_len((*r1, *c1), (*r2, *c2)) == (*r2 - *r1 + 1) * (*c2 - *c1 + 1),
                ;
                let rows = self.rows as i64;
                let cols = self.cols as i64;
                let inside = 1 <= *r1 as i64 && *r1 as i64 <= rows && 1 <= *c1 as i64 && *c1 as i64 <= cols
                    && 1 <= *r2 as i64 && *r2 as i64 <= rows && 1 <= *c2 as i64 && *c2 as i64 <= cols;
                if !inside {
                    return false;
                }
                assert(0 <= (*r2 as i64 - 1) * cols <= 32767 * 32767) by (nonlinear_arith)
                    requires
                        1 <= *r2 <= 32767,
                        0 <= cols <= 32767,
                ;
                (*r2 as i64 - 1) * cols + (*c2 as i64 - 1) <= 32767
            },
            _ => true,
        }
    }
}

/// The cells a cycle search for formula `f` looks for and the cells on which
/// its cell is recorded as a dependent: the range of a range function, or the
/// cells of its operands, with `(0, 0)` in place of a number.
pub open spec fn search_params(f: ParsedRHS) -> ((i16, i16), (i16, i16), bool) {
    match f {
        ParsedRHS::Function { name, args } => match args {
            (Operand::Cell(w, x), Operand::Cell(y, z)) => ((w, x), (y, z), true),
            _ => ((0, 0), (0, 0), false),
        },
        ParsedRHS::Arithmetic { lhs, operator, rhs } => (
            match lhs {
                Operand::Cell(w, x) => (w, x),
                Operand::Number(_) => (0, 0),
            },
            match rhs {
                Operand::Cell(y, z) => (y, z),
                Operand::Number(_) => (0, 0),
            },
            false,
        ),
        ParsedRHS::Sleep(Operand::Cell(r, c)) => ((r, c), (0, 0), false),
        ParsedRHS::SingleValue(Operand::Cell(r, c)) => ((r, c), (0, 0), false),
        _ => ((0, 0), (0, 0), false),
    }
}

impl Spreadsheet {
    /// Assigning `rhs` to cell `p` would close a cycle: `p` reaches a cell the
    /// formula reads.
    pub open spec fn cycle_with(self, p: (i16, i16), rhs: ParsedRHS) -> bool {
        exists|x: (i16, i16)| self.reaches(p, x) && #[trigger] refs(rhs).contains(x)
    }

    /// The dependents of cell `(r, c)` once `p` no longer reads the cells of
    /// its old formula and reads those of `rhs`.
    pub open spec fn deps_after(self, p: (i16, i16), rhs: ParsedRHS, r: int, c: int) -> Set<(i16, i16)> {
        let q = (r as i16, c as i16);
        let kept = if refs(self.cell(p.0 as int, p.1 as int).formula).contains(q) {
            self.cell(r, c).dependents@.remove(p)
        } else {
            self.cell(r, c).dependents@
        };
        if refs(rhs).contains(q) {
            kept.insert(p)
        } else {
            kept
        }
    }

    /// The outcome of assigning formula `rhs` (not a `COPY` of a range) to cell
    /// `p`, from this grid to `next`. When it would close a cycle nothing
    /// changes and the status is `Cycle Detected`. Otherwise the old formula is
    /// pushed on the undo stack, `p` gets `rhs`, the dependents are re-recorded
    /// (see [`Spreadsheet::deps_after`]), and the cells reached from `p` are
    /// evaluated in an order that puts every cell before its dependents; the
    /// others keep their values. `sleeps` are the seconds each evaluation waits.
    pub open spec fn assign_rel(self, next: Spreadsheet, p: (i16, i16), rhs: ParsedRHS, status: Seq<char>, sleeps: Seq<u32>) -> bool {
        if self.cycle_with(p, rhs) {
            &&& next == self
            &&& status == "Cycle Detected"@
            &&& sleeps.len() == 0
        } else {
            &&& status == "ok"@
            &&& next.grid_wf()
            &&& next.same_frame(self)
            &&& next.undo_stack@ == self.undo_stack@.push((self.cell(p.0 as int, p.1 as int).formula, p.0, p.1))
            &&& forall|r: int, c: int| #![trigger next.slot(r, c)]
                self.valid(r, c) ==> next.cell(r, c).formula == if (r, c) == (p.0 as int, p.1 as int) {
                    rhs
                } else {
                    self.cell(r, c).formula
                }
            &&& forall|r: int, c: int| #![trigger next.slot(r, c)]
                self.valid(r, c) ==> next.cell(r, c).dependents@ == self.deps_after(p, rhs, r, c)
            &&& exists|order: Seq<(i16, i16)>| {
                &&& #[trigger] next.topo_order(p, order)
                &&& next.vals() == run_evals(self.vals(), next.formulas(), order)
                &&& sleeps == run_sleeps(self.vals(), next.formulas(), order)
            }
        }
    }

    pub proof fn lemma_search_params(self, f: ParsedRHS, x: (i16, i16))
        requires
            self.formula_ok(f),
            !is_copy_range(f),
            self.valid(x.0 as int, x.1 as int),
        ensures
            in_target(x, (search_params(f).0.0, search_params(f).1.0), (search_params(f).0.1, search_params(f).1.1),
                search_params(f).2) == refs(f).contains(x),
            inserted(search_params(f).0, search_params(f).1, search_params(f).2).contains(x) == refs(f).contains(x),
    {
    }

    /// Assigns a formula that is not a `COPY` of a range; see [`Spreadsheet::assign_rel`].
    #[verifier::rlimit(40)]
    fn assign_formula(&mut self, row: i16, col: i16, rhs: ParsedRHS, status_out: &mut String) -> (sleeps: Vec<u32>)
        requires
            old(self).grid_wf(),
            old(self).deps_valid(),
            old(self).acyclic(),
            old(self).formulas_ok(),
            old(self).valid(row as int, col as int),
            old(self).formula_ok(rhs),
            !is_copy_range(rhs),
        ensures
            old(self).assign_rel(*final(self), (row, col), rhs, final(status_out)@, sleeps@),
            final(self).deps_valid(),
            final(self).acyclic(),
            final(self).formulas_ok(),
    {
        let ghost orig = *self;
        let p = (row, col);
        let mut r1: i16 = 0;
        let mut r2: i16 = 0;
        let mut c1: i16 = 0;
        let mut c2: i16 = 0;
        let mut is_range = false;
        match &rhs {
            ParsedRHS::Function { name: _, args: (Operand::Cell(w, x), Operand::Cell(y, z)) } => {
                r1 = *w;
                r2 = *y;
                c1 = *x;
                c2 = *z;
                is_range = true;
            },
            ParsedRHS::Arithmetic { lhs, operator: _, rhs } => {
                if let Operand::Cell(w, x) = lhs {
                    r1 = *w;
                    c1 = *x;
                }
                if let Operand::Cell(y, z) = rhs {
                    r2 = *y;
                    c2 = *z;
                }
            },
            ParsedRHS::Sleep(Operand::Cell(r, c)) => {
                r1 = *r;
                c1 = *c;
            },
            ParsedRHS::SingleValue(Operand::Cell(r, c)) => {
                r1 = *r;
                c1 = *c;
            },
            _ => {},
        }
        assert(search_params(rhs) == ((r1, c1), (r2, c2), is_range));
        let found = self.first_step_find_cycle(p, (r1, c1), (r2, c2), is_range);
        proof {
            if found {
                let x = choose|x: (i16, i16)|
                    #![trigger in_target(x, (r1, r2), (c1, c2), is_range)]
                    self.reaches(p, x) && in_target(x, (r1, r2), (c1, c2), is_range);
                self.lemma_reach_valid(p, x);
                self.lemma_search_params(rhs, x);
                assert(refs(rhs).contains(x));
            } else {
                assert forall|x: (i16, i16)| #[trigger] refs(rhs).contains(x) implies !self.reaches(p, x) by {
                    if self.reaches(p, x) {
                        self.lemma_reach_valid(p, x);
                        self.lemma_search_params(rhs, x);
                        assert(in_target(x, (r1, r2), (c1, c2), is_range));
                    }
                }
            }
        }
        if found {
            *status_out = "Cycle Detected".to_owned();
            return Vec::new();
        }
        self.update_dependencies(p, (r1, c1), (r2, c2), is_range);
        let ghost mid1 = *self;
        proof {
            assert forall|i: int, j: int| #![trigger mid1.slot(i, j)] orig.valid(i, j) implies
                mid1.cell(i, j).dependents@ == orig.deps_after(p, rhs, i, j) by {
                orig.lemma_search_params(rhs, (i as i16, j as i16));
            }
            assert forall|x: (i16, i16), y: (i16, i16)| y != p && #[trigger] mid1.deps(x).contains(y)
                implies orig.deps(x).contains(y) by {
                if orig.valid(x.0 as int, x.1 as int) {
                    assert(mid1.slot(x.0 as int, x.1 as int) == mid1.slot(x.0 as int, x.1 as int));
                }
            }
            assert forall|x: (i16, i16)| #[trigger] mid1.deps(x).contains(p)
                implies orig.deps(x).contains(p) || refs(rhs).contains(x) by {
                if orig.valid(x.0 as int, x.1 as int) {
                    assert(mid1.slot(x.0 as int, x.1 as int) == mid1.slot(x.0 as int, x.1 as int));
                }
            }
            orig.lemma_acyclic_after_insert(mid1, p, refs(rhs));
            assert forall|r: int, c: int, d: (i16, i16)|
                #![trigger mid1.slot(r, c), mid1.cell(r, c).dependents@.contains(d)]
                mid1.valid(r, c) && mid1.cell(r, c).dependents@.contains(d) implies mid1.valid(d.0 as int, d.1 as int) by {
                assert(orig.slot(r, c) == orig.slot(r, c));
                if d != p {
                    assert(orig.cell(r, c).dependents@.contains(d));
                }
            }
        }
        let index = self.index_of(row, col);
        assert(self.slot(row as int, col as int) is Some);
        let old_formula = match &self.cells[index] {
            Some(b) => b.formula,
            None => ParsedRHS::Empty,
        };
        assert(old_formula == orig.cell(row as int, col as int).formula);
        self.undo_stack.push((old_formula, row, col));
        let ghost mid2 = *self;
        proof {
            assert forall|r: int, c: int| #![trigger mid2.slot(r, c)] mid2.valid(r, c) implies mid2.cell(r, c) == mid1.cell(r, c) by {}
            mid1.lemma_same_graph(mid2);
        }
        self.write_formula(p, rhs);
        let ghost mid3 = *self;
        proof {
            mid2.lemma_same_graph(mid3);
            assert forall|r: int, c: int| #![trigger mid3.slot(r, c)] mid3.valid(r, c) implies
                mid3.formula_ok(mid3.cell(r, c).formula) by {
                assert(orig.slot(r, c) == orig.slot(r, c));
                assert(mid1.slot(r, c) == mid1.slot(r, c));
                assert(mid2.slot(r, c) == mid2.slot(r, c));
            }
        }
        let sleeps = self.recalculate(p);
        *status_out = "ok".to_owned();
        proof {
            let fin = *self;
            mid3.lemma_same_graph(fin);
            let order = choose|order: Seq<(i16, i16)>| {
                &&& #[trigger] mid3.topo_order(p, order)
                &&& forall|r: int, c: int| #![trigger fin.slot(r, c)]
                    mid3.valid(r, c) ==> (fin.cell(r, c).value, fin.cell(r, c).error)
                        == run_evals(mid3.vals(), mid3.formulas(), order)(r, c)
                &&& sleeps@ == run_sleeps(mid3.vals(), mid3.formulas(), order)
            };
            assert forall|r: int, c: int| #[trigger] mid3.vals()(r, c) == orig.vals()(r, c) by {
                if orig.valid(r, c) {
                    assert(mid1.slot(r, c) == mid1.slot(r, c));
                    assert(mid2.slot(r, c) == mid2.slot(r, c));
                    assert(mid3.slot(r, c) == mid3.slot(r, c));
                }
            }
            assert(mid3.vals() =~= orig.vals());
            assert forall|r: int, c: int| #[trigger] mid3.formulas()(r, c) == fin.formulas()(r, c) by {
                if orig.valid(r, c) {
                    assert(fin.slot(r, c) == fin.slot(r, c));
                }
            }
            assert(mid3.formulas() =~= fin.formulas());
            assert forall|r: int, c: int| #[trigger] fin.vals()(r, c) == run_evals(orig.vals(), fin.formulas(), order)(r, c) by {
                if orig.valid(r, c) {
                    assert(fin.slot(r, c) == fin.slot(r, c));
                } else {
                    assert forall|k: int| 0 <= k < order.len() implies #[trigger] order[k] != (r as i16, c as i16)
                        || r != order[k].0 || c != order[k].1 by {
                        assert(order.contains(order[k]));
                        mid3.lemma_reach_valid(p, order[k]);
                    }
                    crate::recalc::lemma_run_evals_outside(orig.vals(), fin.formulas(), order, r, c);
                }
            }
            assert(fin.vals() =~= run_evals(orig.vals(), fin.formulas(), order));
            assert(fin.topo_order(p, order)) by {
                assert forall|x: (i16, i16)| order.contains(x) <==> fin.reaches(p, x) by {
                    assert(fin.reaches(p, x) == mid3.reaches(p, x));
                }
                assert forall|i: int, j: int|
                    0 <= i < order.len() && 0 <= j < order.len() && #[trigger] fin.deps(order[i]).contains(#[trigger] order[j])
                        implies i < j by {
                    assert(fin.deps(order[i]) == mid3.deps(order[i]));
                }
            }
            assert forall|r: int, c: int| #![trigger fin.slot(r, c)] orig.valid(r, c) implies
                fin.cell(r, c).formula == (if (r, c) == (p.0 as int, p.1 as int) { rhs } else { orig.cell(r, c).formula })
                && fin.cell(r, c).dependents@ == orig.deps_after(p, rhs, r, c) by {
                assert(mid1.slot(r, c) == mid1.slot(r, c));
                assert(mid2.slot(r, c) == mid2.slot(r, c));
                assert(mid3.slot(r, c) == mid3.slot(r, c));
            }
        }
        sleeps
    }
}


/// The number of cells of the range `first..=second` (0 when it is empty).
pub open spec fn range_len(first: (i16, i16), second: (i16, i16)) -> int {
    if first.0 <= second.0 && first.1 <= second.1 {
        (second.0 - first.0 + 1) * (second.1 - first.1 + 1)
    } else {
        0
    }
}

/// The `k`-th cell of the range `first..=second`, counted row by row.
pub open spec fn range_cell(first: (i16, i16), second: (i16, i16), k: int) -> (i16, i16) {
    let w = second.1 - first.1 + 1;
    ((first.0 + k / w) as i16, (first.1 + k % w) as i16)
}

impl Spreadsheet {
    /// The row-major position to which `COPY` of `first..=second` into `p`
    /// writes its `k`-th cell: the cell moved by the offset from `first` to `p`.
    pub open spec fn copy_target(self, p: (i16, i16), first: (i16, i16), second: (i16, i16), k: int) -> int {
        let s = range_cell(first, second, k);
        (s.0 + (p.0 - first.0) - 1) * self.cols + (s.1 + (p.1 - first.1) - 1)
    }

    /// The `k`-th cell lands inside the vector of cells (it is written then).
    pub open spec fn copy_lands(self, p: (i16, i16), first: (i16, i16), second: (i16, i16), k: int) -> bool {
        0 <= self.copy_target(p, first, second, k) < self.cells@.len()
    }

    /// The cell at row-major position `t`.
    pub open spec fn cell_of_index(self, t: int) -> (i16, i16) {
        ((t / (self.cols as int) + 1) as i16, (t % (self.cols as int) + 1) as i16)
    }

    /// The assignments that `COPY` of `first..=second` into `p` carries out
    /// for the first `upto` cells of the range, row by row: each cell whose
    /// destination lands in the grid gives the destination its value (as it
    /// was before the copy) as a constant.
    pub open spec fn copy_plan(self, p: (i16, i16), first: (i16, i16), second: (i16, i16), upto: int) -> Seq<((i16, i16), ParsedRHS)>
        decreases upto,
    {
        if upto <= 0 {
            Seq::empty()
        } else {
            let prev = self.copy_plan(p, first, second, upto - 1);
            if self.copy_lands(p, first, second, upto - 1) {
                let s = range_cell(first, second, upto - 1);
                prev.push((
                    self.cell_of_index(self.copy_target(p, first, second, upto - 1)),
                    ParsedRHS::SingleValue(Operand::Number(self.cell(s.0 as int, s.1 as int).value)),
                ))
            } else {
                prev
            }
        }
    }

    /// `COPY` of `first..=second` into `p` can be carried out: a nonempty range
    /// lies in the grid and its cells' row-major positions fit in `i16`.
    pub open spec fn copy_ok(self, first: (i16, i16), second: (i16, i16)) -> bool {
        copy_fits(self.rows as int, self.cols as int, first, second)
    }

    /// The grid has just been created: no formula, value, error, dependent,
    /// undo entry or scrolling yet.
    pub open spec fn fresh(self, rows: i16, cols: i16) -> bool {
        &&& self.rows == rows
        &&& self.cols == cols
        &&& self.view_row == 0
        &&& self.view_col == 0
        &&& self.undo_stack@ == Seq::<(ParsedRHS, i16, i16)>::empty()
        &&& self.grid_wf()
        &&& forall|i: int, j: int|
            #![trigger self.slot(i, j)]
            self.valid(i, j) ==> {
                &&& self.cell(i, j).value == 0
                &&& !self.cell(i, j).error
                &&& self.cell(i, j).formula == ParsedRHS::Empty
                &&& self.cell(i, j).dependents is Empty
            }
    }
}

/// `COPY` of `first..=second` can be carried out in a grid of `rows` x `cols`:
/// a nonempty range lies in the grid and its cells' row-major positions fit
/// in `i16`.
pub open spec fn copy_fits(rows: int, cols: int, first: (i16, i16), second: (i16, i16)) -> bool {
    range_len(first, second) > 0 ==> {
        &&& 1 <= first.0 <= rows && 1 <= first.1 <= cols
        &&& 1 <= second.0 <= rows && 1 <= second.1 <= cols
        &&& (second.0 - 1) * cols + (second.1 - 1) <= 32767
    }
}

/// `states` runs through the assignments of `plan`, in order, each related to
/// the next by [`Spreadsheet::set_rel`]; `statuses` and `waits` are what each
/// assignment reported.
pub open spec fn applies(states: Seq<Spreadsheet>, statuses: Seq<Seq<char>>, waits: Seq<Seq<u32>>, plan: Seq<((i16, i16), ParsedRHS)>) -> bool {
    &&& states.len() == plan.len() + 1
    &&& statuses.len() == plan.len()
    &&& waits.len() == plan.len()
    &&& forall|k: int| 0 <= k < plan.len() ==>
        (#[trigger] states[k]).set_rel(states[k + 1], plan[k].0, plan[k].1, statuses[k], waits[k])
}

/// `states` runs through the assignments of `plan` (none a `COPY`), in
/// order, each related to the next by [`Spreadsheet::assign_rel`].
pub open spec fn assigns(states: Seq<Spreadsheet>, statuses: Seq<Seq<char>>, waits: Seq<Seq<u32>>, plan: Seq<((i16, i16), ParsedRHS)>) -> bool {
    &&& states.len() == plan.len() + 1
    &&& statuses.len() == plan.len()
    &&& waits.len() == plan.len()
    &&& forall|k: int| 0 <= k < plan.len() ==>
        (#[trigger] states[k]).assign_rel(states[k + 1], plan[k].0, plan[k].1, statuses[k], waits[k])
}

pub proof fn lemma_assigns_push(
    states: Seq<Spreadsheet>, statuses: Seq<Seq<char>>, waits: Seq<Seq<u32>>, plan: Seq<((i16, i16), ParsedRHS)>,
    next: Spreadsheet, p: (i16, i16), f: ParsedRHS, status: Seq<char>, wait: Seq<u32>,
)
    requires
        assigns(states, statuses, waits, plan),
        states.last().assign_rel(next, p, f, status, wait),
    ensures
        assigns(states.push(next), statuses.push(status), waits.push(wait), plan.push((p, f))),
        states.push(next)[0] == states[0],
        states.push(next).last() == next,
{
    let s = states.push(next);
    let t = statuses.push(status);
    let w = waits.push(wait);
    let q = plan.push((p, f));
    assert forall|k: int| 0 <= k < q.len() implies (#[trigger] s[k]).assign_rel(s[k + 1], q[k].0, q[k].1, t[k], w[k]) by {
        if k < plan.len() {
            assert(states[k].assign_rel(states[k + 1], plan[k].0, plan[k].1, statuses[k], waits[k]));
        }
    }
}

/// The cells of a nonempty range, taken row by row, are distinct cells of the range.
pub proof fn lemma_range_cell(first: (i16, i16), second: (i16, i16), k: int)
    requires
        first.0 <= second.0,
        first.1 <= second.1,
        0 <= k < range_len(first, second),
    ensures
        first.0 <= range_cell(first, second, k).0 <= second.0,
        first.1 <= range_cell(first, second, k).1 <= second.1,
        range_cell(first, second, k).0 == first.0 + k / (second.1 - first.1 + 1),
        range_cell(first, second, k).1 == first.1 + k % (second.1 - first.1 + 1),
{
    let w = second.1 - first.1 + 1;
    let h = second.0 - first.0 + 1;
    assert(k < w * h) by (nonlinear_arith)
        requires
            k < h * w,
    ;
    vstd::arithmetic::div_mod::lemma_multiply_divide_lt(k, w, h);
    assert(0 <= k / w) by {
        vstd::arithmetic::div_mod::lemma_div_pos_is_pos(k, w);
    }
    vstd::arithmetic::div_mod::lemma_mod_bound(k, w);
}

pub proof fn lemma_range_cell_injective(first: (i16, i16), second: (i16, i16), j: int, k: int)
    requires
        first.0 <= second.0,
        first.1 <= second.1,
        0 <= j < range_len(first, second),
        0 <= k < range_len(first, second),
        range_cell(first, second, j) == range_cell(first, second, k),
    ensures
        j == k,
{
    let w = second.1 - first.1 + 1;
    lemma_range_cell(first, second, j);
    lemma_range_cell(first, second, k);
    vstd::arithmetic::div_mod::lemma_fundamental_div_mod(j, w);
    vstd::arithmetic::div_mod::lemma_fundamental_div_mod(k, w);
}

impl Spreadsheet {
    pub proof fn lemma_copy_target(self, p: (i16, i16), first: (i16, i16), second: (i16, i16), k: int)
        requires
            self.grid_wf(),
            self.copy_ok(first, second),
            0 <= k < range_len(first, second),
        ensures
            self.valid(range_cell(first, second, k).0 as int, range_cell(first, second, k).1 as int),
            self.copy_target(p, first, second, k) == self.idx(range_cell(first, second, k).0 as int,
                range_cell(first, second, k).1 as int) + (p.0 - first.0) * self.cols + (p.1 - first.1),
    {
        lemma_range_cell(first, second, k);
        let s = range_cell(first, second, k);
        let cols = self.cols as int;
        assert((s.0 + (p.0 - first.0) - 1) * cols == (s.0 - 1) * cols + (p.0 - first.0) * cols) by (nonlinear_arith);
    }

    /// A landing position names a cell of the grid, at that position.
    pub proof fn lemma_cell_at(self, t: int)
        requires
            self.grid_wf(),
            0 <= t < self.cells@.len(),
        ensures
            self.valid(t / (self.cols as int) + 1, t % (self.cols as int) + 1),
            self.idx(t / (self.cols as int) + 1, t % (self.cols as int) + 1) == t,
    {
        let cols = self.cols as int;
        let rows = self.rows as int;
        assert(cols > 0) by (nonlinear_arith)
            requires
                rows * cols > 0,
                rows >= 0,
                cols >= 0,
        ;
        vstd::arithmetic::div_mod::lemma_fundamental_div_mod(t, cols);
        assert((t / cols) * cols == cols * (t / cols)) by (nonlinear_arith);
        vstd::arithmetic::div_mod::lemma_mod_bound(t, cols);
        vstd::arithmetic::div_mod::lemma_div_pos_is_pos(t, cols);
        assert(t < cols * rows) by (nonlinear_arith)
            requires
                t < rows * cols,
        ;
        vstd::arithmetic::div_mod::lemma_multiply_divide_lt(t, cols, rows);
    }

}

impl Spreadsheet {
    /// After an assignment (not a `COPY`) to a grid that keeps its invariant,
    /// the grid keeps it.
    pub proof fn lemma_assign_keeps_sheet_ok(
        self,
        next: Spreadsheet,
        p: (i16, i16),
        rhs: ParsedRHS,
        status: Seq<char>,
        sleeps: Seq<u32>,
    )
        requires
            self.sheet_ok(),
            self.valid(p.0 as int, p.1 as int),
            self.formula_ok(rhs),
            !is_copy_range(rhs),
            self.assign_rel(next, p, rhs, status, sleeps),
            next.deps_valid(),
            next.acyclic(),
        ensures
            next.sheet_ok(),
            next.rows == self.rows,
            next.cols == self.cols,
            next.cells@.len() == self.cells@.len(),
    {
        if !self.cycle_with(p, rhs) {
            assert forall|r: int, c: int| #![trigger next.slot(r, c)] next.valid(r, c) implies
                next.storable(next.cell(r, c).formula) by {
                assert(self.slot(r, c) == self.slot(r, c));
            }
            assert forall|k: int| 0 <= k < next.undo_stack@.len() implies {
                let e = #[trigger] next.undo_stack@[k];
                next.valid(e.1 as int, e.2 as int) && next.storable(e.0)
            } by {
                if k < self.undo_stack@.len() {
                    assert(next.undo_stack@[k] == self.undo_stack@[k]);
                } else {
                    assert(self.slot(p.0 as int, p.1 as int) == self.slot(p.0 as int, p.1 as int));
                }
            }
        }
    }

    /// Carries out `COPY` of `first..=second` into `p`: the values of the
    /// range are read first, then each is assigned, as a constant, to its
    /// destination; see [`Spreadsheet::copy_plan`].
    #[verifier::rlimit(60)]
    fn copy_range(&mut self, p: (i16, i16), first: (i16, i16), second: (i16, i16)) -> (sleeps: Vec<u32>)
        requires
            old(self).sheet_ok(),
            old(self).copy_ok(first, second),
            old(self).valid(p.0 as int, p.1 as int),
        ensures
            final(self).sheet_ok(),
            final(self).rows == old(self).rows,
            final(self).cols == old(self).cols,
            exists|states: Seq<Spreadsheet>, statuses: Seq<Seq<char>>, waits: Seq<Seq<u32>>| {
                &&& #[trigger] assigns(states, statuses, waits, old(self).copy_plan(p, first, second, range_len(first, second)))
                &&& states[0] == *old(self)
                &&& states.last() == *final(self)
                &&& sleeps@ == waits.flatten()
            },
            old(self).consistent() ==> final(self).consistent(),
            old(self).deps_exact() ==> final(self).deps_exact(),
    {
        let ghost orig = *self;
        let (sr, sc) = first;
        let (er, ec) = second;
        let nonempty = sr <= er && sc <= ec;
        proof {
            assert(self.rows * self.cols <= 32767 * 32767) by (nonlinear_arith)
                requires
                    0 <= self.rows <= 32767,
                    0 <= self.cols <= 32767,
            ;
            if nonempty {
                assert((er - sr + 1) * (ec - sc + 1) > 0) by (nonlinear_arith)
                    requires
                        0 < er - sr + 1,
                        0 < ec - sc + 1,
                ;
                assert((er - sr + 1) * (ec - sc + 1) <= 32767 * 32767) by (nonlinear_arith)
                    requires
                        0 < er - sr + 1 <= 32767,
                        0 < ec - sc + 1 <= 32767,
                ;
            }
        }
        let n: usize = if nonempty { ((er - sr + 1) as usize) * ((ec - sc + 1) as usize) } else { 0 };
        let w: i32 = if sc <= ec { ec as i32 - sc as i32 + 1 } else { 1 };
        assert(n as int == range_len(first, second));
        let mut src_val: Vec<i32> = Vec::new();
        for k in 0..n
            invariant
                n as int == range_len(first, second),
                nonempty == (sr <= er && sc <= ec),
                w == (if sc <= ec { ec - sc + 1 } else { 1 }),
                *self == orig,
                orig.sheet_ok(),
                orig.copy_ok(first, second),
                src_val@.len() == k,
                forall|j: int| 0 <= j < k ==> {
                    let s = #[trigger] range_cell(first, second, j);
                    src_val@[j] == orig.cell(s.0 as int, s.1 as int).value
                },
        {
            proof {
                self.lemma_copy_target(p, first, second, k as int);
                lemma_range_cell(first, second, k as int);
            }
            let r: i32 = sr as i32 + (k as i32) / w;
            let c: i32 = sc as i32 + (k as i32) % w;
            let idx = self.index_of(r as i16, c as i16);
            assert(self.slot(r as int, c as int) is Some);
            match &self.cells[idx] {
                Some(b) => {
                    src_val.push(b.value);
                },
                None => {
                    src_val.push(0);
                },
            }
        }
        let row_offset: i64 = p.0 as i64 - sr as i64;
        let col_offset: i64 = p.1 as i64 - sc as i64;
        let cols64: i64 = self.cols as i64;
        let len64: i64 = self.cells.len() as i64;
        let ghost mut states: Seq<Spreadsheet> = seq![orig];
        let ghost mut statuses: Seq<Seq<char>> = Seq::empty();
        let ghost mut waits: Seq<Seq<u32>> = Seq::empty();
        let mut sleeps: Vec<u32> = Vec::new();
        proof {
            assert(orig.copy_plan(p, first, second, 0) =~= Seq::empty());
        }
        for k in 0..n
            invariant
                n as int == range_len(first, second),
                nonempty == (sr <= er && sc <= ec),
                w == (if sc <= ec { ec - sc + 1 } else { 1 }),
                row_offset == p.0 - sr,
                col_offset == p.1 - sc,
                cols64 == orig.cols,
                len64 == orig.cells@.len(),
                orig.sheet_ok(),
                orig.copy_ok(first, second),
                orig.valid(p.0 as int, p.1 as int),
                src_val@.len() == n,
                forall|j: int| 0 <= j < n ==> {
                    let s = #[trigger] range_cell(first, second, j);
                    src_val@[j] == orig.cell(s.0 as int, s.1 as int).value
                },
                self.sheet_ok(),
                self.rows == orig.rows,
                self.cols == orig.cols,
                self.cells@.len() == orig.cells@.len(),
                assigns(states, statuses, waits, orig.copy_plan(p, first, second, k as int)),
                states[0] == orig,
                states.last() == *self,
                sleeps@ == waits.flatten(),
                orig.consistent() ==> self.consistent(),
                orig.deps_exact() ==> self.deps_exact(),
        {
            proof {
                orig.lemma_copy_target(p, first, second, k as int);
                lemma_range_cell(first, second, k as int);
            }
            let r: i32 = sr as i32 + (k as i32) / w;
            let c: i32 = sc as i32 + (k as i32) % w;
            let ghost s = range_cell(first, second, k as int);
            assert(s == (r as i16, c as i16));
            proof {
                assert(-0x1_0000_0000 <= (r + row_offset - 1) * cols64 <= 0x1_0000_0000) by (nonlinear_arith)
                    requires
                        -0x10000 <= r + row_offset - 1 <= 0x10000,
                        0 <= cols64 <= 0x8000,
                ;
            }
            let di: i64 = (r as i64 + row_offset - 1) * cols64 + (c as i64 + col_offset - 1);
            assert(di == orig.copy_target(p, first, second, k as int));
            if di >= 0 && di < len64 {
                proof {
                    orig.lemma_cell_at(di as int);
                }
                let d: (i16, i16) = ((di / cols64 + 1) as i16, (di % cols64 + 1) as i16);
                assert(d == orig.cell_of_index(di as int));
                let v = src_val[k];
                let f = ParsedRHS::SingleValue(Operand::Number(v));
                let ghost cur = *self;
                let mut status = String::new();
                proof {
                    assert forall|rr: int, cc: int| #![trigger cur.slot(rr, cc)] cur.valid(rr, cc) implies
                        cur.formula_ok(cur.cell(rr, cc).formula) by {}
                }
                let more = self.assign_formula(d.0, d.1, f, &mut status);
                proof {
                    let fin = *self;
                    cur.lemma_assign_keeps_sheet_ok(fin, d, f, status@, more@);
                    if orig.consistent() {
                        crate::laws::law_assign_keeps_consistent(cur, fin, d, f, status@, more@);
                    }
                    if orig.deps_exact() {
                        crate::laws::law_assign_keeps_exact(cur, fin, d, f, status@, more@);
                    }
                    lemma_assigns_push(states, statuses, waits, orig.copy_plan(p, first, second, k as int), fin, d, f, status@, more@);
                    assert(orig.copy_plan(p, first, second, k + 1) == orig.copy_plan(p, first, second, k as int).push((d, f)));
                    waits.lemma_flatten_push(more@);
                    states = states.push(fin);
                    statuses = statuses.push(status@);
                    waits = waits.push(more@);
                }
                let m = more.len();
                let ghost base = sleeps@;
                for i in 0..m
                    invariant
                        m == more@.len(),
                        sleeps@ == base + more@.take(i as int),
                {
                    sleeps.push(more[i]);
                    assert(more@.take(i + 1) == more@.take(i as int).push(more@[i as int]));
                }
                assert(more@.take(m as int) == more@);
            } else {
                proof {
                    assert(orig.copy_plan(p, first, second, k + 1) == orig.copy_plan(p, first, second, k as int));
                }
            }
        }
        sleeps
    }
}

/// The two cells of a range function's arguments (`(0, 0)` for a number).
pub open spec fn range_args(f: ParsedRHS) -> ((i16, i16), (i16, i16)) {
    match f {
        ParsedRHS::Function { name, args } => (
            match args.0 {
                Operand::Cell(r, c) => (r, c),
                Operand::Number(_) => (0, 0),
            },
            match args.1 {
                Operand::Cell(r, c) => (r, c),
                Operand::Number(_) => (0, 0),
            },
        ),
        _ => ((0, 0), (0, 0)),
    }
}

impl Spreadsheet {
    /// A formula the grid can hold: it stays inside the grid and is not a `COPY`.
    pub open spec fn storable(self, f: ParsedRHS) -> bool {
        self.formula_ok(f) && !is_copy_range(f)
    }

    /// The invariant the operations keep: a well-formed grid whose recorded
    /// dependents are cells of the grid and form no cycle, whose formulas can
    /// be held, and whose undo entries name cells of the grid and formulas it
    /// can hold.
    pub open spec fn sheet_ok(self) -> bool {
        &&& self.grid_wf()
        &&& self.deps_valid()
        &&& self.acyclic()
        &&& forall|r: int, c: int| #![trigger self.slot(r, c)] self.valid(r, c) ==> self.storable(self.cell(r, c).formula)
        &&& forall|k: int| 0 <= k < self.undo_stack@.len() ==> {
            let e = #[trigger] self.undo_stack@[k];
            self.valid(e.1 as int, e.2 as int) && self.storable(e.0)
        }
    }

    /// `next` is this grid after `COPY` of `first..=second` into `p`: the
    /// assignments of [`Spreadsheet::copy_plan`] carried out in order, with
    /// `sleeps` the seconds their evaluations asked to wait.
    #[verifier::opaque]
    pub open spec fn copy_rel(self, next: Spreadsheet, p: (i16, i16), first: (i16, i16), second: (i16, i16), sleeps: Seq<u32>) -> bool {
        exists|states: Seq<Spreadsheet>, statuses: Seq<Seq<char>>, waits: Seq<Seq<u32>>| {
            &&& #[trigger] assigns(states, statuses, waits, self.copy_plan(p, first, second, range_len(first, second)))
            &&& states[0] == self
            &&& states.last() == next
            &&& sleeps == waits.flatten()
        }
    }

    /// The outcome of [`Spreadsheet::spreadsheet_set_cell_value`]: a `COPY`
    /// of a range carries out its assignments of constants (see
    /// [`Spreadsheet::copy_plan`]) and reports `ok`; any other formula is
    /// assigned as [`Spreadsheet::assign_rel`] says.
    pub open spec fn set_rel(self, next: Spreadsheet, p: (i16, i16), rhs: ParsedRHS, status: Seq<char>, sleeps: Seq<u32>) -> bool {
        if is_copy_range(rhs) {
            &&& status == "ok"@
            &&& self.copy_rel(next, p, range_args(rhs).0, range_args(rhs).1, sleeps)
        } else {
            self.assign_rel(next, p, rhs, status, sleeps)
        }
    }

    /// Assigns formula `rhs` to cell `(row, col)` and brings the grid up to
    /// date. A `COPY` of a range pastes the range's values, offset to start at
    /// `(row, col)`, as constants, each an assignment that re-records the
    /// destination's dependencies and recomputes its dependents (see
    /// [`Spreadsheet::copy_plan`]); any other formula is refused when it would
    /// close a cycle and otherwise stored and propagated (see
    /// [`Spreadsheet::assign_rel`]). Returns the seconds each evaluation of a
    /// `SLEEP` asks to wait, in order.
    pub fn spreadsheet_set_cell_value(&mut self, row: i16, col: i16, rhs: ParsedRHS, status_out: &mut String) -> (sleeps: Vec<u32>)
        requires
            old(self).sheet_ok(),
            old(self).valid(row as int, col as int),
            is_copy_range(rhs) ==> old(self).copy_ok(range_args(rhs).0, range_args(rhs).1),
            !is_copy_range(rhs) ==> old(self).formula_ok(rhs),
        ensures
            old(self).set_rel(*final(self), (row, col), rhs, final(status_out)@, sleeps@),
            final(self).sheet_ok(),
            final(self).rows == old(self).rows,
            final(self).cols == old(self).cols,
            old(self).consistent() ==> final(self).consistent(),
            old(self).deps_exact() ==> final(self).deps_exact(),
    {
        let ghost orig = *self;
        proof {
            assert forall|r: int, c: int| #![trigger self.slot(r, c)] self.valid(r, c) implies
                self.formula_ok(self.cell(r, c).formula) by {}
        }
        match rhs {
            ParsedRHS::Function {
                name: FunctionName::Copy,
                args: (Operand::Cell(start_row, start_col), Operand::Cell(end_row, end_col)),
            } => {
                let sleeps = self.copy_range((row, col), (start_row, start_col), (end_row, end_col));
                *status_out = "ok".to_owned();
                proof {
                    reveal(Spreadsheet::copy_rel);
                }
                sleeps
            },
            _ => {
                let sleeps = self.assign_formula(row, col, rhs, status_out);
                proof {
                    let fin = *self;
                    if orig.consistent() {
                        crate::laws::law_assign_keeps_consistent(orig, fin, (row, col), rhs, status_out@, sleeps@);
                    }
                    if orig.deps_exact() {
                        crate::laws::law_assign_keeps_exact(orig, fin, (row, col), rhs, status_out@, sleeps@);
                    }
                    orig.lemma_assign_keeps_sheet_ok(fin, (row, col), rhs, status_out@, sleeps@);
                }
                sleeps
            },
        }
    }

}

impl Spreadsheet {
    /// The same grid, apart from the undo stack.
    pub open spec fn same_but_undo(self, other: Spreadsheet) -> bool {
        &&& self.rows == other.rows
        &&& self.cols == other.cols
        &&& self.view_row == other.view_row
        &&& self.view_col == other.view_col
        &&& self.cells == other.cells
    }

    /// `states` runs from this grid with its undo stack emptied through the
    /// assignment of each undo entry, newest first; `statuses` and `waits` are
    /// what each assignment reported.
    pub open spec fn undo_replay(self, states: Seq<Spreadsheet>, statuses: Seq<Seq<char>>, waits: Seq<Seq<u32>>) -> bool {
        let n = self.undo_stack@.len();
        &&& states.len() == n + 1
        &&& statuses.len() == n
        &&& waits.len() == n
        &&& states[0].same_but_undo(self)
        &&& states[0].undo_stack@ == Seq::<(ParsedRHS, i16, i16)>::empty()
        &&& forall|k: int| 0 <= k < n ==> {
            let e = self.undo_stack@[n - 1 - k];
            (#[trigger] states[k]).set_rel(states[k + 1], (e.1, e.2), e.0, statuses[k], waits[k])
        }
    }

    /// Undoes every assignment recorded since the last undo: the undo stack is
    /// emptied and its entries are assigned again, newest first, through
    /// [`Spreadsheet::spreadsheet_set_cell_value`] (which records them anew, so
    /// a second undo redoes). The status is that of the last assignment.
    /// Returns the seconds each evaluation of a `SLEEP` asks to wait, in order.
    #[verifier::rlimit(80)]
    pub fn spreadsheet_undo(&mut self, status_out: &mut String) -> (sleeps: Vec<u32>)
        requires
            old(self).sheet_ok(),
        ensures
            final(self).sheet_ok(),
            old(self).consistent() ==> final(self).consistent(),
            old(self).deps_exact() ==> final(self).deps_exact(),
            exists|states: Seq<Spreadsheet>, statuses: Seq<Seq<char>>, waits: Seq<Seq<u32>>| {
                &&& #[trigger] old(self).undo_replay(states, statuses, waits)
                &&& *final(self) == states.last()
                &&& final(status_out)@ == if statuses.len() == 0 { old(status_out)@ } else { statuses.last() }
                &&& sleeps@ == waits.flatten()
            },
    {
        let ghost orig = *self;
        let ghost orig_status = status_out@;
        let n = self.undo_stack.len();
        let mut undo_stack: Vec<(ParsedRHS, i16, i16)> = Vec::new();
        for i in 0..n
            invariant
                n == self.undo_stack@.len(),
                *self == orig,
                undo_stack@ == self.undo_stack@.take(i as int),
        {
            undo_stack.push(self.undo_stack[i]);
            assert(self.undo_stack@.take(i + 1) == self.undo_stack@.take(i as int).push(self.undo_stack@[i as int]));
        }
        assert(self.undo_stack@.take(n as int) == self.undo_stack@);
        self.undo_stack.clear();
        let ghost s0 = *self;
        let ghost mut states: Seq<Spreadsheet> = seq![s0];
        let ghost mut statuses: Seq<Seq<char>> = Seq::empty();
        let ghost mut waits: Seq<Seq<u32>> = Seq::empty();
        proof {
            assert forall|r: int, c: int| #![trigger s0.slot(r, c)] s0.valid(r, c) implies s0.slot(r, c) == orig.slot(r, c) by {}
            orig.lemma_same_graph(s0);
            assert(s0.vals() =~= orig.vals());
            assert(s0.formulas() =~= orig.formulas());
            if orig.deps_exact() {
                s0.lemma_emptied_undo_exact(orig);
            }
        }
        let mut sleeps: Vec<u32> = Vec::new();
        for k in 0..n
            invariant
                n == orig.undo_stack@.len(),
                undo_stack@ == orig.undo_stack@.take(n - k),
                orig.sheet_ok(),
                self.sheet_ok(),
                self.rows == orig.rows,
                self.cols == orig.cols,
                states.len() == k + 1,
                statuses.len() == k,
                waits.len() == k,
                states[0] == s0,
                s0.same_but_undo(orig),
                s0.undo_stack@ == Seq::<(ParsedRHS, i16, i16)>::empty(),
                forall|j: int| 0 <= j < k ==> {
                    let e = orig.undo_stack@[n - 1 - j];
                    (#[trigger] states[j]).set_rel(states[j + 1], (e.1, e.2), e.0, statuses[j], waits[j])
                },
                *self == states[k as int],
                status_out@ == if k == 0 { orig_status } else { statuses[k - 1] },
                sleeps@ == waits.flatten(),
                orig.consistent() ==> self.consistent(),
                orig.deps_exact() ==> self.deps_exact(),
        {
            let ghost before = undo_stack@;
            let (formula_new, row, col) = undo_stack.pop().unwrap();
            proof {
                assert(before.last() == orig.undo_stack@[n - 1 - k]);
                assert(undo_stack@ == orig.undo_stack@.take(n - (k + 1)));
                let e = orig.undo_stack@[n - 1 - k];
                assert(orig.valid(e.1 as int, e.2 as int) && orig.storable(e.0));
            }
            let ghost cur = *self;
            let ghost old_waits = waits;
            let more = self.spreadsheet_set_cell_value(row, col, formula_new, status_out);
            proof {
                states = states.push(*self);
                statuses = statuses.push(status_out@);
                waits = waits.push(more@);
                assert(states[k as int] == cur);
                assert forall|j: int| 0 <= j < k + 1 implies {
                    let e = orig.undo_stack@[n - 1 - j];
                    (#[trigger] states[j]).set_rel(states[j + 1], (e.1, e.2), e.0, statuses[j], waits[j])
                } by {
                    if j < k {
                        assert(states[j] == states.drop_last()[j]);
                    }
                }
                old_waits.lemma_flatten_push(more@);
                assert(waits == old_waits.push(more@));
            }
            let m = more.len();
            let ghost base = sleeps@;
            for i in 0..m
                invariant
                    m == more@.len(),
                    sleeps@ == base + more@.take(i as int),
            {
                sleeps.push(more[i]);
                assert(more@.take(i + 1) == more@.take(i as int).push(more@[i as int]));
            }
            proof {
                assert(more@.take(m as int) == more@);
            }
        }
        proof {
            assert(orig.undo_replay(states, statuses, waits));
            assert(states.last() == states[n as int]);
        }
        sleeps
    }
}
} // verus!
