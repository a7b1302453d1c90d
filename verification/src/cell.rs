use vstd::prelude::*;
use std::collections::BTreeSet;
use crate::spreadsheet::ParsedRHS;

verus! {

broadcast use {
    vstd::std_specs::btree::group_btree_axioms,
    vstd::laws_cmp::group_laws_cmp,
    vstd::seq_lib::group_seq_properties,
    vstd::seq::Seq::lemma_push_to_set_commute,
};

/// The cells that depend on a cell, kept as a short vector or, once it grows,
/// as an ordered set.
#[derive(Clone, Debug)]
pub enum Dependents {
    Vector(Vec<(i16, i16)>),
    OrderedSet(BTreeSet<(i16, i16)>),
    Empty,
}

impl View for Dependents {
    type V = Set<(i16, i16)>;

    open spec fn view(&self) -> Set<(i16, i16)> {
        match self {
            Dependents::Vector(v) => v@.to_set(),
            Dependents::OrderedSet(s) => s@,
            Dependents::Empty => Set::empty(),
        }
    }
}

/// A cell of the grid: its position, value, error flag, formula and dependents.
#[derive(Clone, Debug)]
pub struct Cell {
    pub row: i16,
    pub col: i16,
    pub error: bool,
    pub value: i32,
    pub formula: ParsedRHS,
    pub dependents: Dependents,
}

impl Cell {
    /// A fresh cell at `(row, col)`: value 0, no error, no formula, no dependents.
    pub fn create(row: i16, col: i16) -> (c: Self)
        ensures
            c.row == row,
            c.col == col,
            c.value == 0,
            !c.error,
            c.formula == ParsedRHS::Empty,
            c.dependents is Empty,
    {
        Cell { row, col, value: 0, error: false, formula: ParsedRHS::Empty, dependents: Dependents::Empty }
    }

    /// Records that the cell `(row, col)` depends on this cell. A vector holds
    /// up to seven dependents; the eighth insertion turns it into an ordered set.
    pub fn dep_insert(&mut self, row: i16, col: i16)
        ensures
            final(self).dependents@ == old(self).dependents@.insert((row, col)),
            final(self).row == old(self).row,
            final(self).col == old(self).col,
            final(self).value == old(self).value,
            final(self).error == old(self).error,
            final(self).formula == old(self).formula,
            match old(self).dependents {
                Dependents::Empty => final(self).dependents is Vector
                    && final(self).dependents->Vector_0@ == seq![(row, col)],
                Dependents::Vector(v) => if v.len() >= 7 {
                    final(self).dependents is OrderedSet
                } else {
                    final(self).dependents is Vector
                        && final(self).dependents->Vector_0@ == v@.push((row, col))
                },
                Dependents::OrderedSet(_) => final(self).dependents is OrderedSet,
            },
    {
        let key = (row, col);
        match &mut self.dependents {
            Dependents::Empty => {
                let mut v = Vec::new();
                v.push(key);
                self.dependents = Dependents::Vector(v);
            }
            Dependents::Vector(vec) => {
                if vec.len() >= 7 {
                    let mut set = BTreeSet::new();
                    let n = vec.len();
                    for i in 0..n
                        invariant
                            n == vec.len(),
                            set@ == vec@.take(i as int).to_set(),
                    {
                        set.insert(vec[i]);
                        assert(vec@.take(i + 1) == vec@.take(i as int).push(vec@[i as int]));
                    }
                    assert(vec@.take(n as int) == vec@);
                    set.insert(key);
                    self.dependents = Dependents::OrderedSet(set);
                } else {
                    vec.push(key);
                }
            }
            Dependents::OrderedSet(set) => {
                set.insert(key);
            }
        }
    }

    /// Removes the record that the cell `(row, col)` depends on this cell.
    /// The representation is kept: a vector stays a vector (in order, without
    /// the removed key), a set stays a set, and no dependents stay none.
    #[verifier::loop_isolation(false)]
    pub fn dep_remove(&mut self, row: i16, col: i16)
        ensures
            final(self).dependents@ == old(self).dependents@.remove((row, col)),
            final(self).row == old(self).row,
            final(self).col == old(self).col,
            final(self).value == old(self).value,
            final(self).error == old(self).error,
            final(self).formula == old(self).formula,
            match old(self).dependents {
                Dependents::Empty => final(self).dependents is Empty,
                Dependents::Vector(v) => final(self).dependents is Vector
                    && final(self).dependents->Vector_0@ == v@.filter(|k: (i16, i16)| k != (row, col)),
                Dependents::OrderedSet(_) => final(self).dependents is OrderedSet,
            },
    {
        let key = (row, col);
        match &mut self.dependents {
            Dependents::Vector(vec) => {
                let ghost pred = |k: (i16, i16)| k != (row, col);
                let mut kept: Vec<(i16, i16)> = Vec::new();
                let n = vec.len();
                for i in 0..n
                    invariant
                        n == vec.len(),
                        kept@ == vec@.take(i as int).filter(pred),
                {
                    proof {
                        vec@.take(i as int).lemma_filter_push(vec@[i as int], pred);
                    }
                    let k = vec[i];
                    assert(pred(k) == (k.0 != row || k.1 != col));
                    if k.0 != row || k.1 != col {
                        kept.push(k);
                    }
                    assert(vec@.take(i + 1) == vec@.take(i as int).push(vec@[i as int]));
                }
                assert(vec@.take(n as int) == vec@);
                proof {
                    assert(kept@.to_set() =~= vec@.to_set().remove(key)) by {
                        assert forall|x: (i16, i16)| kept@.to_set().contains(x)
                            <==> vec@.to_set().remove(key).contains(x) by {
                            if kept@.contains(x) {
                                vec@.lemma_filter_contains_rev(pred, x);
                                vec@.lemma_filter_pred(pred, kept@.index_of(x));
                            }
                            if vec@.contains(x) && x != key {
                                vec@.lemma_filter_contains(pred, vec@.index_of(x));
                            }
                        }
                    }
                }
                *vec = kept;
            }
            Dependents::OrderedSet(set) => {
                set.remove(&key);
            }
            Dependents::Empty => {}
        }
    }

    /// Whether the cell `(row, col)` is recorded as depending on this cell.
    #[verifier::loop_isolation(false)]
    pub fn contains(&self, row: i16, col: i16) -> (r: bool)
        ensures
            r == self.dependents@.contains((row, col)),
    {
        let key = (row, col);
        match &self.dependents {
            Dependents::Vector(vec) => {
                let n = vec.len();
                for i in 0..n
                    invariant
                        n == vec.len(),
                        forall|j: int| 0 <= j < i ==> vec@[j] != key,
                {
                    if vec[i].0 == row && vec[i].1 == col {
                        assert(vec@[i as int] == key);
                        assert(vec@.contains(key));
                        return true;
                    }
                }
                false
            }
            Dependents::OrderedSet(set) => set.contains(&key),
            Dependents::Empty => false,
        }
    }
}

/// A boxed fresh cell at `(row, col)`; see [`Cell::create`].
pub fn cell_create(row: i16, col: i16) -> (c: Box<Cell>)
    ensures
        c.row == row,
        c.col == col,
        c.value == 0,
        !c.error,
        c.formula == ParsedRHS::Empty,
        c.dependents is Empty,
{
    Box::new(Cell::create(row, col))
}

/// Records that the cell `(row, col)` depends on `cell`; see [`Cell::dep_insert`].
pub fn cell_dep_insert(cell: &mut Cell, row: i16, col: i16)
    ensures
        final(cell).dependents@ == old(cell).dependents@.insert((row, col)),
        final(cell).row == old(cell).row,
        final(cell).col == old(cell).col,
        final(cell).value == old(cell).value,
        final(cell).error == old(cell).error,
        final(cell).formula == old(cell).formula,
        match old(cell).dependents {
            Dependents::Empty => final(cell).dependents is Vector
                && final(cell).dependents->Vector_0@ == seq![(row, col)],
            Dependents::Vector(v) => if v.len() >= 7 {
                final(cell).dependents is OrderedSet
            } else {
                final(cell).dependents is Vector
                    && final(cell).dependents->Vector_0@ == v@.push((row, col))
            },
            Dependents::OrderedSet(_) => final(cell).dependents is OrderedSet,
        },
{
    cell.dep_insert(row, col);
}

/// Removes the record that `(row, col)` depends on `cell`; see [`Cell::dep_remove`].
pub fn cell_dep_remove(cell: &mut Cell, row: i16, col: i16)
    ensures
        final(cell).dependents@ == old(cell).dependents@.remove((row, col)),
        final(cell).row == old(cell).row,
        final(cell).col == old(cell).col,
        final(cell).value == old(cell).value,
        final(cell).error == old(cell).error,
        final(cell).formula == old(cell).formula,
        match old(cell).dependents {
            Dependents::Empty => final(cell).dependents is Empty,
            Dependents::Vector(v) => final(cell).dependents is Vector
                && final(cell).dependents->Vector_0@ == v@.filter(|k: (i16, i16)| k != (row, col)),
            Dependents::OrderedSet(_) => final(cell).dependents is OrderedSet,
        },
{
    cell.dep_remove(row, col);
}

/// Whether `(row, col)` is recorded as depending on `cell`.
pub fn cell_contains(cell: &Cell, row: i16, col: i16) -> (r: bool)
    ensures
        r == cell.dependents@.contains((row, col)),
{
    cell.contains(row, col)
}

/// Recording `key` as a dependent makes [`Cell::contains`] report it and
/// removing it makes it report it no more; any other key is reported as
/// before either way, and removing a key just recorded, that was not there
/// before, gives back the dependents as they were.
pub proof fn law_dependents_membership(d: Set<(i16, i16)>, key: (i16, i16), other: (i16, i16))
    requires
        other != key,
    ensures
        d.insert(key).contains(key),
        !d.remove(key).contains(key),
        d.insert(key).contains(other) == d.contains(other),
        d.remove(key).contains(other) == d.contains(other),
        !d.contains(key) ==> d.insert(key).remove(key) == d,
{
    if !d.contains(key) {
        assert(d.insert(key).remove(key) =~= d);
    }
}

} // verus!
