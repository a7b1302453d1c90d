use vstd::prelude::*;
use crate::cell::cell_dep_insert;
use crate::cell::cell_dep_remove;
use crate::spreadsheet::{FunctionName, Operand, ParsedRHS, Spreadsheet};
use crate::eval::{operand_refs, rect};

verus! {

/// The cells whose values a formula reads and on which its cell is recorded
/// as a dependent. `COPY` is carried out when it is assigned and reads nothing
/// afterwards.
pub open spec fn refs(f: ParsedRHS) -> Set<(i16, i16)> {
    match f {
        ParsedRHS::Function { name, args } => match args {
            (Operand::Cell(r1, c1), Operand::Cell(r2, c2)) => if name == FunctionName::Copy {
                Set::empty()
            } else {
                rect(r1, c1, r2, c2)
            },
            _ => Set::empty(),
        },
        ParsedRHS::Sleep(op) => operand_refs(op),
        ParsedRHS::Arithmetic { lhs, operator, rhs } => operand_refs(lhs).union(operand_refs(rhs)),
        ParsedRHS::SingleValue(op) => operand_refs(op),
        ParsedRHS::Empty => Set::empty(),
    }
}

/// The cells on which [`Spreadsheet::update_dependencies`] records a new
/// dependent: the range when `is_range`, otherwise each of the two cells whose
/// row is positive.
pub open spec fn inserted(first: (i16, i16), second: (i16, i16), is_range: bool) -> Set<(i16, i16)> {
    if is_range {
        rect(first.0, first.1, second.0, second.1)
    } else {
        Set::new(|q: (i16, i16)| (first.0 > 0 && q == first) || (second.0 > 0 && q == second))
    }
}

/// The corner a range argument names: the cell itself, or `(0, 0)` for a number.
pub open spec fn range_end(op: Operand) -> (i16, i16) {
    match op {
        Operand::Cell(r, c) => (r, c),
        Operand::Number(_) => (0, 0),
    }
}

impl Spreadsheet {
    /// The cells that the dependency bookkeeping of formula `f` visits are
    /// cells of the grid: the cells it names, and the two corners of a
    /// nonempty range. (An inverted range visits no cell.)
    pub open spec fn refs_in_grid(self, f: ParsedRHS) -> bool {
        match f {
            ParsedRHS::Function { name, args } => name == FunctionName::Copy || {
                let first = range_end(args.0);
                let second = range_end(args.1);
                first.0 <= second.0 && first.1 <= second.1 ==> self.valid(first.0 as int, first.1 as int)
                    && self.valid(second.0 as int, second.1 as int)
            },
            ParsedRHS::Sleep(op) => self.operand_ok(op),
            ParsedRHS::Arithmetic { lhs, operator, rhs } => self.operand_ok(lhs) && self.operand_ok(rhs),
            ParsedRHS::SingleValue(op) => self.operand_ok(op),
            ParsedRHS::Empty => true,
        }
    }

    /// Same dimensions, scroll position and undo stack.
    pub open spec fn same_frame(self, other: Spreadsheet) -> bool {
        &&& self.rows == other.rows
        &&& self.cols == other.cols
        &&& self.view_row == other.view_row
        &&& self.view_col == other.view_col
        &&& self.cells@.len() == other.cells@.len()
    }

    /// Every cell keeps its formula.
    pub open spec fn same_formulas(self, other: Spreadsheet) -> bool {
        forall|r: int, c: int| #![trigger other.slot(r, c)]
            self.valid(r, c) ==> other.cell(r, c).formula == self.cell(r, c).formula
    }

    /// Every cell keeps its value and error flag.
    pub open spec fn same_values(self, other: Spreadsheet) -> bool {
        forall|r: int, c: int| #![trigger other.slot(r, c)]
            self.valid(r, c) ==> other.cell(r, c).value == self.cell(r, c).value
                && other.cell(r, c).error == self.cell(r, c).error
    }

    /// Every cell keeps its recorded dependents.
    pub open spec fn same_deps(self, other: Spreadsheet) -> bool {
        forall|r: int, c: int| #![trigger other.slot(r, c)]
            self.valid(r, c) ==> other.cell(r, c).dependents@ == self.cell(r, c).dependents@
    }

    /// Records on cell `q` that `who` depends on it (`insert`) or no longer does.
    pub(crate) fn edit_dependents(&mut self, q: (i16, i16), who: (i16, i16), insert: bool)
        requires
            old(self).grid_wf(),
            old(self).valid(q.0 as int, q.1 as int),
        ensures
            final(self).grid_wf(),
            final(self).same_frame(*old(self)),
            final(self).undo_stack@ == old(self).undo_stack@,
            old(self).same_formulas(*final(self)),
            old(self).same_values(*final(self)),
            forall|r: int, c: int| #![trigger final(self).slot(r, c)]
                old(self).valid(r, c) ==> final(self).cell(r, c).dependents@ == if (r, c) == (q.0 as int, q.1 as int) {
                    if insert {
                        old(self).cell(r, c).dependents@.insert(who)
                    } else {
                        old(self).cell(r, c).dependents@.remove(who)
                    }
                } else {
                    old(self).cell(r, c).dependents@
                },
    {
        let idx = self.index_of(q.0, q.1);
        proof {
            crate::spreadsheet::lemma_cell_index(q.0 as int, q.1 as int, self.rows as int, self.cols as int);
            assert(self.slot(q.0 as int, q.1 as int) is Some);
        }
        let ghost before = *self;
        match &mut self.cells[idx] {
            Some(b) => {
                if insert {
                    cell_dep_insert(&mut **b, who.0, who.1);
                } else {
                    cell_dep_remove(&mut **b, who.0, who.1);
                }
            },
            None => {},
        }
        proof {
            assert forall|r: int, c: int| #![trigger self.slot(r, c)] self.valid(r, c) implies {
                &&& self.slot(r, c) is Some
                &&& self.cell(r, c).row == r
                &&& self.cell(r, c).col == c
                &&& self.cell(r, c).formula == before.cell(r, c).formula
                &&& self.cell(r, c).value == before.cell(r, c).value
                &&& self.cell(r, c).error == before.cell(r, c).error
                &&& self.cell(r, c).dependents@ == if (r, c) == (q.0 as int, q.1 as int) {
                    if insert {
                        before.cell(r, c).dependents@.insert(who)
                    } else {
                        before.cell(r, c).dependents@.remove(who)
                    }
                } else {
                    before.cell(r, c).dependents@
                }
            } by {
                assert(before.slot(r, c) is Some);
                if (r, c) != (q.0 as int, q.1 as int) {
                    crate::spreadsheet::lemma_cell_index(r, c, self.rows as int, self.cols as int);
                    if self.idx(r, c) == idx {
                        crate::spreadsheet::lemma_cell_index_injective(
                            r, c, q.0 as int, q.1 as int, self.rows as int, self.cols as int);
                    }
                }
            }
        }
    }
}


/// A set of dependents after recording `who` (`insert`) or removing it.
pub open spec fn edited(s: Set<(i16, i16)>, who: (i16, i16), insert: bool) -> Set<(i16, i16)> {
    if insert {
        s.insert(who)
    } else {
        s.remove(who)
    }
}

impl Spreadsheet {
    /// Records on every cell of the range `first..=second` that `who` depends
    /// on it (`insert`) or no longer does.
    pub(crate) fn edit_range(&mut self, first: (i16, i16), second: (i16, i16), who: (i16, i16), insert: bool)
        requires
            old(self).grid_wf(),
            first.0 <= second.0 && first.1 <= second.1 ==> old(self).valid(first.0 as int, first.1 as int)
                && old(self).valid(second.0 as int, second.1 as int),
        ensures
            final(self).grid_wf(),
            final(self).same_frame(*old(self)),
            final(self).undo_stack@ == old(self).undo_stack@,
            old(self).same_formulas(*final(self)),
            old(self).same_values(*final(self)),
            forall|r: int, c: int| #![trigger final(self).slot(r, c)]
                old(self).valid(r, c) ==> final(self).cell(r, c).dependents@ == if rect(first.0, first.1, second.0, second.1).contains((r as i16, c as i16)) {
                    edited(old(self).cell(r, c).dependents@, who, insert)
                } else {
                    old(self).cell(r, c).dependents@
                },
    {
        let ghost orig = *self;
        let mut i: i32 = first.0 as i32;
        while i <= second.0 as i32
            invariant
                first.0 <= i <= second.0 + 1 || i == first.0,
                self.grid_wf(),
                self.same_frame(orig),
                self.undo_stack@ == orig.undo_stack@,
                orig.same_formulas(*self),
                orig.same_values(*self),
                orig.grid_wf(),
                forall|r: int, c: int| #![trigger self.slot(r, c)]
                    orig.valid(r, c) ==> self.cell(r, c).dependents@ == if rect(first.0, first.1, second.0, second.1).contains((r as i16, c as i16)) && r < i {
                        edited(orig.cell(r, c).dependents@, who, insert)
                    } else {
                        orig.cell(r, c).dependents@
                    },
            decreases second.0 + 1 - i,
        {
            let mut j: i32 = first.1 as i32;
            while j <= second.1 as i32
                invariant
                    first.0 <= i <= second.0,
                    first.1 <= j <= second.1 + 1 || j == first.1,
                    self.grid_wf(),
                    self.same_frame(orig),
                    self.undo_stack@ == orig.undo_stack@,
                    orig.same_formulas(*self),
                    orig.same_values(*self),
                    orig.grid_wf(),
                    forall|r: int, c: int| #![trigger self.slot(r, c)]
                        orig.valid(r, c) ==> self.cell(r, c).dependents@ == if rect(first.0, first.1, second.0, second.1).contains((r as i16, c as i16))
                            && (r < i || (r == i && c < j)) {
                            edited(orig.cell(r, c).dependents@, who, insert)
                        } else {
                            orig.cell(r, c).dependents@
                        },
                decreases second.1 + 1 - j,
            {
                let ghost before = *self;
                self.edit_dependents((i as i16, j as i16), who, insert);
                proof {
                    assert forall|r: int, c: int| #![trigger self.slot(r, c)] orig.valid(r, c) implies
                        self.cell(r, c).dependents@ == if rect(first.0, first.1, second.0, second.1).contains((r as i16, c as i16))
                            && (r < i || (r == i && c < j + 1)) {
                            edited(orig.cell(r, c).dependents@, who, insert)
                        } else {
                            orig.cell(r, c).dependents@
                        } by {
                        assert(before.slot(r, c) == before.slot(r, c));
                        assert(orig.slot(r, c) == orig.slot(r, c));
                    }
                    assert forall|r: int, c: int| #![trigger self.slot(r, c)] orig.valid(r, c) implies
                        self.cell(r, c).formula == orig.cell(r, c).formula
                        && self.cell(r, c).value == orig.cell(r, c).value
                        && self.cell(r, c).error == orig.cell(r, c).error by {
                        assert(before.slot(r, c) == before.slot(r, c));
                    }
                }
                j = j + 1;
            }
            i = i + 1;
        }
    }

    /// Removes cell `(r, c)` from the dependents of every cell its current
    /// formula reads (see [`refs`]).
    pub fn remove_old_dependents(&mut self, r: i16, c: i16)
        requires
            old(self).grid_wf(),
            old(self).valid(r as int, c as int),
            old(self).refs_in_grid(old(self).cell(r as int, c as int).formula),
        ensures
            final(self).grid_wf(),
            final(self).same_frame(*old(self)),
            final(self).undo_stack@ == old(self).undo_stack@,
            old(self).same_formulas(*final(self)),
            old(self).same_values(*final(self)),
            forall|i: int, j: int| #![trigger final(self).slot(i, j)]
                old(self).valid(i, j) ==> final(self).cell(i, j).dependents@ == if refs(old(self).cell(r as int, c as int).formula).contains((i as i16, j as i16)) {
                    old(self).cell(i, j).dependents@.remove((r, c))
                } else {
                    old(self).cell(i, j).dependents@
                },
    {
        let ghost orig = *self;
        let index = self.index_of(r, c);
        assert(self.slot(r as int, c as int) is Some);
        let formula = match &self.cells[index] {
            Some(b) => b.formula,
            None => ParsedRHS::Empty,
        };
        match formula {
            ParsedRHS::Function { name, args } => {
                if !name.is_copy() {
                    let (arg1, arg2) = args;
                    let (start_row, start_col) = match arg1 {
                        Operand::Cell(row, col) => (row, col),
                        Operand::Number(_) => (0, 0),
                    };
                    let (end_row, end_col) = match arg2 {
                        Operand::Cell(row, col) => (row, col),
                        Operand::Number(_) => (0, 0),
                    };
                    self.edit_range((start_row, start_col), (end_row, end_col), (r, c), false);
                }
            },
            ParsedRHS::Arithmetic { lhs, operator: _, rhs } => {
                if let Operand::Cell(dep_r, dep_c) = lhs {
                    self.edit_dependents((dep_r, dep_c), (r, c), false);
                }
                let ghost mid = *self;
                if let Operand::Cell(dep_r, dep_c) = rhs {
                    self.edit_dependents((dep_r, dep_c), (r, c), false);
                }
                proof {
                    assert forall|i: int, j: int| #![trigger self.slot(i, j)] orig.valid(i, j) implies
                        self.cell(i, j).dependents@ == if refs(formula).contains((i as i16, j as i16)) {
                            orig.cell(i, j).dependents@.remove((r, c))
                        } else {
                            orig.cell(i, j).dependents@
                        } && self.cell(i, j).formula == orig.cell(i, j).formula
                        && self.cell(i, j).value == orig.cell(i, j).value
                        && self.cell(i, j).error == orig.cell(i, j).error by {
                        assert(mid.slot(i, j) == mid.slot(i, j));
                        assert(orig.cell(i, j).dependents@.remove((r, c)).remove((r, c))
                            =~= orig.cell(i, j).dependents@.remove((r, c)));
                    }
                }
            },
            ParsedRHS::SingleValue(Operand::Cell(dep_r, dep_c)) => {
                self.edit_dependents((dep_r, dep_c), (r, c), false);
            },
            ParsedRHS::Sleep(Operand::Cell(dep_r, dep_c)) => {
                self.edit_dependents((dep_r, dep_c), (r, c), false);
            },
            _ => {},
        }
    }
}

impl Spreadsheet {
    /// Re-records the dependencies of cell `target`: it is removed from the
    /// dependents of the cells its current formula reads, then recorded as a
    /// dependent of the cells given (see [`inserted`]). Returns 0.
    pub fn update_dependencies(&mut self, target: (i16, i16), first: (i16, i16), second: (i16, i16), is_range: bool) -> (res: i32)
        requires
            old(self).grid_wf(),
            old(self).valid(target.0 as int, target.1 as int),
            old(self).refs_in_grid(old(self).cell(target.0 as int, target.1 as int).formula),
            is_range && first.0 <= second.0 && first.1 <= second.1 ==> old(self).valid(first.0 as int, first.1 as int)
                && old(self).valid(second.0 as int, second.1 as int),
            !is_range && first.0 > 0 ==> old(self).valid(first.0 as int, first.1 as int),
            !is_range && second.0 > 0 ==> old(self).valid(second.0 as int, second.1 as int),
        ensures
            res == 0,
            final(self).grid_wf(),
            final(self).same_frame(*old(self)),
            final(self).undo_stack@ == old(self).undo_stack@,
            old(self).same_formulas(*final(self)),
            old(self).same_values(*final(self)),
            forall|i: int, j: int| #![trigger final(self).slot(i, j)]
                old(self).valid(i, j) ==> final(self).cell(i, j).dependents@ == {
                    let kept = if refs(old(self).cell(target.0 as int, target.1 as int).formula).contains((i as i16, j as i16)) {
                        old(self).cell(i, j).dependents@.remove(target)
                    } else {
                        old(self).cell(i, j).dependents@
                    };
                    if inserted(first, second, is_range).contains((i as i16, j as i16)) {
                        kept.insert(target)
                    } else {
                        kept
                    }
                },
    {
        let ghost orig = *self;
        self.remove_old_dependents(target.0, target.1);
        let ghost mid = *self;
        if is_range {
            self.edit_range(first, second, target, true);
            proof {
                assert forall|i: int, j: int| #![trigger self.slot(i, j)] orig.valid(i, j) implies
                    self.cell(i, j).formula == orig.cell(i, j).formula
                    && self.cell(i, j).value == orig.cell(i, j).value
                    && self.cell(i, j).error == orig.cell(i, j).error
                    && self.cell(i, j).dependents@ == (if inserted(first, second, is_range).contains((i as i16, j as i16)) {
                        mid.cell(i, j).dependents@.insert(target)
                    } else {
                        mid.cell(i, j).dependents@
                    }) by {
                    assert(mid.slot(i, j) == mid.slot(i, j));
                }
            }
        } else {
            if first.0 > 0 {
                self.edit_dependents(first, target, true);
            }
            let ghost mid2 = *self;
            if second.0 > 0 {
                self.edit_dependents(second, target, true);
            }
            proof {
                assert forall|i: int, j: int| #![trigger self.slot(i, j)] orig.valid(i, j) implies
                    self.cell(i, j).formula == orig.cell(i, j).formula
                    && self.cell(i, j).value == orig.cell(i, j).value
                    && self.cell(i, j).error == orig.cell(i, j).error
                    && self.cell(i, j).dependents@ == (if inserted(first, second, is_range).contains((i as i16, j as i16)) {
                        mid.cell(i, j).dependents@.insert(target)
                    } else {
                        mid.cell(i, j).dependents@
                    }) by {
                    assert(mid.slot(i, j) == mid.slot(i, j));
                    assert(mid2.slot(i, j) == mid2.slot(i, j));
                    assert(mid.cell(i, j).dependents@.insert(target).insert(target)
                        =~= mid.cell(i, j).dependents@.insert(target));
                }
            }
        }
        proof {
            assert forall|i: int, j: int| #![trigger self.slot(i, j)] orig.valid(i, j) implies
                self.cell(i, j).formula == orig.cell(i, j).formula by {
                assert(mid.slot(i, j) == mid.slot(i, j));
            }
        }
        0
    }
}

impl Spreadsheet {
    /// Sets the value and error flag of cell `q`.
    pub(crate) fn write_value(&mut self, q: (i16, i16), value: i32, error: bool)
        requires
            old(self).grid_wf(),
            old(self).valid(q.0 as int, q.1 as int),
        ensures
            final(self).grid_wf(),
            final(self).same_frame(*old(self)),
            final(self).undo_stack@ == old(self).undo_stack@,
            old(self).same_formulas(*final(self)),
            old(self).same_deps(*final(self)),
            forall|r: int, c: int| #![trigger final(self).slot(r, c)]
                old(self).valid(r, c) ==> (final(self).cell(r, c).value, final(self).cell(r, c).error) == if (r, c) == (q.0 as int, q.1 as int) {
                    (value, error)
                } else {
                    (old(self).cell(r, c).value, old(self).cell(r, c).error)
                },
    {
        let idx = self.index_of(q.0, q.1);
        proof {
            assert(self.slot(q.0 as int, q.1 as int) is Some);
        }
        let ghost before = *self;
        match &mut self.cells[idx] {
            Some(b) => {
                b.value = value;
                b.error = error;
            },
            None => {},
        }
        proof {
            assert forall|r: int, c: int| #![trigger self.slot(r, c)] self.valid(r, c) implies {
                &&& self.slot(r, c) is Some
                &&& self.cell(r, c).row == r
                &&& self.cell(r, c).col == c
                &&& self.cell(r, c).formula == before.cell(r, c).formula
                &&& self.cell(r, c).dependents@ == before.cell(r, c).dependents@
                &&& (self.cell(r, c).value, self.cell(r, c).error) == if (r, c) == (q.0 as int, q.1 as int) {
                    (value, error)
                } else {
                    (before.cell(r, c).value, before.cell(r, c).error)
                }
            } by {
                assert(before.slot(r, c) is Some);
                if (r, c) != (q.0 as int, q.1 as int) {
                    crate::spreadsheet::lemma_cell_index(r, c, self.rows as int, self.cols as int);
                    if self.idx(r, c) == idx {
                        crate::spreadsheet::lemma_cell_index_injective(
                            r, c, q.0 as int, q.1 as int, self.rows as int, self.cols as int);
                    }
                }
            }
        }
    }

    /// Sets the formula of cell `q`.
    pub(crate) fn write_formula(&mut self, q: (i16, i16), f: ParsedRHS)
        requires
            old(self).grid_wf(),
            old(self).valid(q.0 as int, q.1 as int),
        ensures
            final(self).grid_wf(),
            final(self).same_frame(*old(self)),
            final(self).undo_stack@ == old(self).undo_stack@,
            old(self).same_values(*final(self)),
            old(self).same_deps(*final(self)),
            forall|r: int, c: int| #![trigger final(self).slot(r, c)]
                old(self).valid(r, c) ==> final(self).cell(r, c).formula == if (r, c) == (q.0 as int, q.1 as int) {
                    f
                } else {
                    old(self).cell(r, c).formula
                },
    {
        let idx = self.index_of(q.0, q.1);
        proof {
            assert(self.slot(q.0 as int, q.1 as int) is Some);
        }
        let ghost before = *self;
        match &mut self.cells[idx] {
            Some(b) => {
                b.formula = f;
            },
            None => {},
        }
        proof {
            assert forall|r: int, c: int| #![trigger self.slot(r, c)] self.valid(r, c) implies {
                &&& self.slot(r, c) is Some
                &&& self.cell(r, c).row == r
                &&& self.cell(r, c).col == c
                &&& self.cell(r, c).value == before.cell(r, c).value
                &&& self.cell(r, c).error == before.cell(r, c).error
                &&& self.cell(r, c).dependents@ == before.cell(r, c).dependents@
                &&& self.cell(r, c).formula == if (r, c) == (q.0 as int, q.1 as int) {
                    f
                } else {
                    before.cell(r, c).formula
                }
            } by {
                assert(before.slot(r, c) is Some);
                if (r, c) != (q.0 as int, q.1 as int) {
                    crate::spreadsheet::lemma_cell_index(r, c, self.rows as int, self.cols as int);
                    if self.idx(r, c) == idx {
                        crate::spreadsheet::lemma_cell_index_injective(
                            r, c, q.0 as int, q.1 as int, self.rows as int, self.cols as int);
                    }
                }
            }
        }
    }
}
} // verus!
