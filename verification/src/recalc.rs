use vstd::prelude::*;
use crate::spreadsheet::{ParsedRHS, Spreadsheet};
use crate::eval::{Vals, eval_vals, sleep_vals, reads, lemma_eval_agree};

verus! {

/// The formula of every cell, by row and column.
pub type Formulas = spec_fn(int, int) -> ParsedRHS;

/// The values after evaluating the cells of `order` in turn, each with its
/// formula from `fs`, starting from the values `v`.
pub open spec fn run_evals(v: Vals, fs: Formulas, order: Seq<(i16, i16)>) -> Vals
    decreases order.len(),
{
    if order.len() == 0 {
        v
    } else {
        let prev = run_evals(v, fs, order.drop_last());
        let q = order.last();
        let x = eval_vals(prev, fs(q.0 as int, q.1 as int));
        |r: int, c: int| if r == q.0 as int && c == q.1 as int { x } else { prev(r, c) }
    }
}

/// The seconds each evaluation of [`run_evals`] waits, in order.
pub open spec fn run_sleeps(v: Vals, fs: Formulas, order: Seq<(i16, i16)>) -> Seq<u32>
    decreases order.len(),
{
    if order.len() == 0 {
        Seq::empty()
    } else {
        let q = order.last();
        run_sleeps(v, fs, order.drop_last()).push(
            sleep_vals(run_evals(v, fs, order.drop_last()), fs(q.0 as int, q.1 as int)) as u32,
        )
    }
}

/// A cell keeps its value through evaluations that do not include it.
pub proof fn lemma_run_evals_outside(v: Vals, fs: Formulas, order: Seq<(i16, i16)>, r: int, c: int)
    requires
        forall|k: int| 0 <= k < order.len() ==> #[trigger] order[k] != (r as i16, c as i16) || r != order[k].0 || c != order[k].1,
    ensures
        run_evals(v, fs, order)(r, c) == v(r, c),
    decreases order.len(),
{
    if order.len() > 0 {
        assert forall|k: int| 0 <= k < order.drop_last().len() implies #[trigger] order.drop_last()[k] != (r as i16, c as i16)
            || r != order.drop_last()[k].0 || c != order.drop_last()[k].1 by {
            assert(order.drop_last()[k] == order[k]);
        }
        lemma_run_evals_outside(v, fs, order.drop_last(), r, c);
        assert(order[order.len() - 1] != (r as i16, c as i16) || r != order.last().0 || c != order.last().1);
    }
}

/// A cell evaluated once, at position `j`, ends with the value its formula had
/// on the values before position `j`.
pub proof fn lemma_run_evals_at(v: Vals, fs: Formulas, order: Seq<(i16, i16)>, j: int)
    requires
        order.no_duplicates(),
        0 <= j < order.len(),
    ensures
        run_evals(v, fs, order)(order[j].0 as int, order[j].1 as int)
            == eval_vals(run_evals(v, fs, order.take(j)), fs(order[j].0 as int, order[j].1 as int)),
    decreases order.len(),
{
    let q = order[j];
    if j == order.len() - 1 {
        assert(order.drop_last() == order.take(j));
    } else {
        let o = order.drop_last();
        assert(o[j] == q);
        assert(o.take(j) == order.take(j));
        lemma_run_evals_at(v, fs, o, j);
        assert(order.last() != q);
        assert(order.last().0 != q.0 || order.last().1 != q.1);
    }
}

impl Spreadsheet {
    /// The formula of every cell of this grid (none outside it).
    pub open spec fn formulas(self) -> Formulas {
        |r: int, c: int| if self.valid(r, c) {
            self.cell(r, c).formula
        } else {
            ParsedRHS::Empty
        }
    }

    /// `order` lists the cells reached from `p`, each once, every cell before
    /// its dependents.
    pub open spec fn topo_order(self, p: (i16, i16), order: Seq<(i16, i16)>) -> bool {
        &&& order.no_duplicates()
        &&& forall|x: (i16, i16)| order.contains(x) <==> self.reaches(p, x)
        &&& forall|i: int, j: int|
            0 <= i < order.len() && 0 <= j < order.len() && #[trigger] self.deps(order[i]).contains(#[trigger] order[j])
                ==> i < j
    }

    /// Every cell of the grid has a formula that stays inside the grid.
    pub open spec fn formulas_ok(self) -> bool {
        forall|r: int, c: int| #![trigger self.slot(r, c)] self.valid(r, c) ==> self.formula_ok(self.cell(r, c).formula)
    }

    pub proof fn lemma_reads_valid(self, f: ParsedRHS, q: (i16, i16))
        requires
            self.formula_ok(f),
            reads(f).contains(q),
        ensures
            self.valid(q.0 as int, q.1 as int),
    {
    }

    /// A cell reached from a cell of the grid is a cell of the grid.
    pub proof fn lemma_reach_valid(self, p: (i16, i16), x: (i16, i16))
        requires
            self.deps_valid(),
            self.grid_wf(),
            self.valid(p.0 as int, p.1 as int),
            self.reaches(p, x),
        ensures
            self.valid(x.0 as int, x.1 as int),
    {
        let path = choose|path: Seq<(i16, i16)>| #[trigger] self.is_path(path) && path[0] == p && path.last() == x;
        self.lemma_path_valid(path);
    }

    pub proof fn lemma_path_valid(self, path: Seq<(i16, i16)>)
        requires
            self.deps_valid(),
            self.grid_wf(),
            self.is_path(path),
            self.valid(path[0].0 as int, path[0].1 as int),
        ensures
            self.valid(path.last().0 as int, path.last().1 as int),
        decreases path.len(),
    {
        if path.len() > 1 {
            let p = path.drop_last();
            assert forall|k: int| 0 <= k < p.len() - 1 implies #[trigger] self.step(p, k) by {
                assert(self.step(path, k));
            }
            self.lemma_path_valid(p);
            let n = path.len() - 1;
            assert(self.step(path, n - 1));
            let a = path[n - 1];
            assert(self.slot(a.0 as int, a.1 as int) == self.slot(a.0 as int, a.1 as int));
            assert(self.cell(a.0 as int, a.1 as int).dependents@.contains(path[n]));
        }
    }

    /// Re-evaluates, in dependency order, every cell reached from `p` by
    /// following recorded dependents, `p` included. Returns the seconds each
    /// evaluation waits.
    #[verifier::rlimit(30)]
    pub fn recalculate(&mut self, p: (i16, i16)) -> (sleeps: Vec<u32>)
        requires
            old(self).grid_wf(),
            old(self).deps_valid(),
            old(self).acyclic(),
            old(self).formulas_ok(),
            old(self).valid(p.0 as int, p.1 as int),
        ensures
            final(self).grid_wf(),
            final(self).same_frame(*old(self)),
            final(self).undo_stack@ == old(self).undo_stack@,
            old(self).same_formulas(*final(self)),
            old(self).same_deps(*final(self)),
            exists|order: Seq<(i16, i16)>| {
                &&& #[trigger] old(self).topo_order(p, order)
                &&& forall|r: int, c: int| #![trigger final(self).slot(r, c)]
                    old(self).valid(r, c) ==> (final(self).cell(r, c).value, final(self).cell(r, c).error)
                        == run_evals(old(self).vals(), old(self).formulas(), order)(r, c)
                &&& sleeps@ == run_sleeps(old(self).vals(), old(self).formulas(), order)
            },
    {
        let ghost orig = *self;
        let index = self.index_of(p.0, p.1);
        assert(self.slot(p.0 as int, p.1 as int) is Some);
        let sorted = match &self.cells[index] {
            Some(b) => self.topo_sort(&**b),
            None => Box::new(Vec::new()),
        };
        let ghost order = sorted@;
        assert(orig.topo_order(p, order));
        let mut sleeps: Vec<u32> = Vec::new();
        let n = sorted.len();
        for k in 0..n
            invariant
                n == order.len(),
                order == sorted@,
                orig.topo_order(p, order),
                orig.grid_wf(),
                orig.deps_valid(),
                orig.formulas_ok(),
                orig.valid(p.0 as int, p.1 as int),
                self.grid_wf(),
                self.same_frame(orig),
                self.undo_stack@ == orig.undo_stack@,
                orig.same_formulas(*self),
                orig.same_deps(*self),
                forall|r: int, c: int| #![trigger self.slot(r, c)]
                    orig.valid(r, c) ==> (self.cell(r, c).value, self.cell(r, c).error)
                        == run_evals(orig.vals(), orig.formulas(), order.take(k as int))(r, c),
                sleeps@ == run_sleeps(orig.vals(), orig.formulas(), order.take(k as int)),
        {
            let q = sorted[k];
            proof {
                assert(order.contains(q));
                orig.lemma_reach_valid(p, q);
            }
            let idx = self.index_of(q.0, q.1);
            assert(self.slot(q.0 as int, q.1 as int) is Some);
            let formula = match &self.cells[idx] {
                Some(b) => b.formula,
                None => ParsedRHS::Empty,
            };
            assert(orig.slot(q.0 as int, q.1 as int) == orig.slot(q.0 as int, q.1 as int));
            assert(formula == orig.formulas()(q.0 as int, q.1 as int));
            let ghost before = run_evals(orig.vals(), orig.formulas(), order.take(k as int));
            proof {
                assert forall|x: (i16, i16)| #[trigger] reads(formula).contains(x) implies self.vals()(x.0 as int, x.1 as int)
                    == before(x.0 as int, x.1 as int) by {
                    orig.lemma_reads_valid(formula, x);
                    assert(self.slot(x.0 as int, x.1 as int) == self.slot(x.0 as int, x.1 as int));
                }
                lemma_eval_agree(self.vals(), before, formula);
            }
            let (value, error) = self.spreadsheet_evaluate_expression(&formula, q.0, q.1);
            let secs = self.sleep_seconds(&formula);
            let ghost mid = *self;
            self.write_value(q, value, error);
            sleeps.push(secs);
            proof {
                assert(order.take(k + 1).drop_last() == order.take(k as int));
                assert(order.take(k + 1).last() == q);
                assert forall|r: int, c: int| #![trigger self.slot(r, c)] orig.valid(r, c) implies
                    (self.cell(r, c).value, self.cell(r, c).error)
                        == run_evals(orig.vals(), orig.formulas(), order.take(k + 1))(r, c)
                    && self.cell(r, c).formula == orig.cell(r, c).formula
                    && self.cell(r, c).dependents@ == orig.cell(r, c).dependents@ by {
                    assert(mid.slot(r, c) == mid.slot(r, c));
                }
            }
        }
        proof {
            assert(order.take(n as int) == order);
        }
        sleeps
    }
}

} // verus!
