use vstd::prelude::*;
use std::collections::BTreeSet;
use crate::cell::{Cell, Dependents};
use crate::spreadsheet::Spreadsheet;
use vstd::std_specs::iter::IteratorSpec;
use vstd::std_specs::cmp::OrdSpec;

verus! {

broadcast use {
    vstd::std_specs::btree::group_btree_axioms,
    vstd::laws_cmp::group_laws_cmp,
    vstd::seq_lib::group_seq_properties,
    vstd::set_lib::group_set_properties,
};

/// The pair of `i16` coordinates numbered `k`; every pair has a number below `2^32`.
pub open spec fn pair_of_code(k: int) -> (i16, i16) {
    ((k / 65536 - 32768) as i16, (k % 65536 - 32768) as i16)
}

/// There are finitely many pairs of `i16` coordinates.
pub proof fn lemma_pairs_finite()
    ensures
        Set::<(i16, i16)>::full().finite(),
{
    let range = vstd::set_lib::set_int_range(0, 0x1_0000_0000int);
    vstd::set_lib::lemma_int_range(0, 0x1_0000_0000int);
    let img = range.map(|k: int| pair_of_code(k));
    range.lemma_map_finite(|k: int| pair_of_code(k));
    assert forall|p: (i16, i16)| #[trigger] Set::<(i16, i16)>::full().contains(p) implies img.contains(p) by {
        let k = (p.0 + 32768) * 65536 + (p.1 + 32768);
        vstd::arithmetic::div_mod::lemma_fundamental_div_mod_converse(k, 65536, p.0 + 32768, p.1 + 32768);
        assert(range.contains(k));
        assert(pair_of_code(k) == p);
    }
    vstd::set_lib::lemma_set_subset_finite(img, Set::<(i16, i16)>::full());
}

impl Spreadsheet {
    /// The cells recorded as depending on cell `p` (none outside the grid).
    pub open spec fn deps(self, p: (i16, i16)) -> Set<(i16, i16)> {
        if self.valid(p.0 as int, p.1 as int) {
            self.cell(p.0 as int, p.1 as int).dependents@
        } else {
            Set::empty()
        }
    }

    /// `path[k]` to `path[k + 1]` is an edge of the dependency graph.
    pub open spec fn step(self, path: Seq<(i16, i16)>, k: int) -> bool {
        self.deps(path[k]).contains(path[k + 1])
    }

    /// A nonempty walk along recorded dependencies.
    pub open spec fn is_path(self, path: Seq<(i16, i16)>) -> bool {
        &&& path.len() >= 1
        &&& forall|k: int| 0 <= k < path.len() - 1 ==> #[trigger] self.step(path, k)
    }

    /// `b` is reached from `a` by following dependencies (zero or more steps).
    pub open spec fn reaches(self, a: (i16, i16), b: (i16, i16)) -> bool {
        exists|path: Seq<(i16, i16)>| #[trigger] self.is_path(path) && path[0] == a && path.last() == b
    }

    /// No walk of one or more steps returns to where it started.
    pub open spec fn acyclic(self) -> bool {
        forall|path: Seq<(i16, i16)>| #[trigger] self.is_path(path) && path.len() >= 2 ==> path[0] != path.last()
    }

    /// Every recorded dependent is a cell of the grid.
    pub open spec fn deps_valid(self) -> bool {
        forall|r: int, c: int, d: (i16, i16)|
            #![trigger self.slot(r, c), self.cell(r, c).dependents@.contains(d)]
            self.valid(r, c) && self.cell(r, c).dependents@.contains(d) ==> self.valid(d.0 as int, d.1 as int)
    }

    /// The cells recorded as depending on `cell`: the vector as it is, or the
    /// set in increasing order, or nothing.
    pub fn get_dependent_names(&self, cell: &Cell) -> (r: Vec<(i16, i16)>)
        ensures
            r@.to_set() == cell.dependents@,
            r@.no_duplicates() || cell.dependents is Vector,
            cell.dependents matches Dependents::Vector(v) ==> r@ == v@,
            cell.dependents is OrderedSet ==> forall|i: int, j: int|
                0 <= i < j < r@.len() ==> #[trigger] pair_before(r@[i], r@[j]),
    {
        match &cell.dependents {
            Dependents::Vector(vec) => {
                let mut v: Vec<(i16, i16)> = Vec::new();
                for i in 0..vec.len()
                    invariant
                        v@ == vec@.take(i as int),
                {
                    assert(vec@.take(i + 1) == vec@.take(i as int).push(vec@[i as int]));
                    v.push(vec[i]);
                }
                assert(vec@.take(vec@.len() as int) == vec@);
                v
            },
            Dependents::OrderedSet(set) => {
                let ghost keys = vstd::std_specs::btree::spec_btree_keys_iter(set).remaining().unref();
                let mut v: Vec<(i16, i16)> = Vec::new();
                for x in it: set.iter()
                    invariant
                        it.seq().unref() == keys,
                        v@ == keys.take(it.index() as int),
                {
                    assert(keys.take(it.index() + 1) == keys.take(it.index() as int).push(*x));
                    v.push(*x);
                }
                assert(v@ == keys);
                proof {
                    lemma_set_keys_in_order(vstd::std_specs::btree::spec_btree_keys_iter(set).remaining());
                }
                v
            },
            Dependents::Empty => Vec::new(),
        }
    }
}


/// `a` comes before `b` when cells are ordered by row, then by column.
pub open spec fn pair_before(a: (i16, i16), b: (i16, i16)) -> bool {
    a.0 < b.0 || (a.0 == b.0 && a.1 < b.1)
}

/// Two entries of an increasing sequence compare as less, in the order they come.
proof fn lemma_increasing_at<K: Ord>(s: Seq<K>, i: int, j: int)
    requires
        vstd::laws_cmp::obeys_cmp::<K>(),
        vstd::std_specs::btree::increasing_seq(s),
        0 <= i < j < s.len(),
    ensures
        s[i].cmp_spec(&s[j]) is Less,
{
    vstd::std_specs::btree::axiom_increasing_seq_meaning(s);
}

/// The keys of an ordered set come out by row, then by column.
proof fn lemma_set_keys_in_order<'a>(s: Seq<&'a (i16, i16)>)
    requires
        vstd::std_specs::btree::increasing_seq(s),
    ensures
        forall|i: int, j: int| 0 <= i < j < s.len() ==> #[trigger] pair_before(s.unref()[i], s.unref()[j]),
{
    assert(vstd::laws_cmp::obeys_cmp::<&'a (i16, i16)>());
    assert forall|i: int, j: int| 0 <= i < j < s.len() implies #[trigger] pair_before(s.unref()[i], s.unref()[j]) by {
        lemma_increasing_at(s, i, j);
    }
}

/// Any set of coordinate pairs is finite and no larger than the set of all pairs.
pub proof fn lemma_pair_set_bounded(s: Set<(i16, i16)>)
    ensures
        s.finite(),
        s.len() <= Set::<(i16, i16)>::full().len(),
{
    lemma_pairs_finite();
    vstd::set_lib::lemma_set_subset_finite(Set::<(i16, i16)>::full(), s);
    vstd::set_lib::lemma_len_subset(s, Set::<(i16, i16)>::full());
}

/// `q` is one of the cells a cycle search looks for: inside the range
/// `r1..=r2` x `c1..=c2`, or one of the two cells `(r1, c1)` and `(r2, c2)`.
pub open spec fn in_target(q: (i16, i16), rows: (i16, i16), cols: (i16, i16), range_bool: bool) -> bool {
    if range_bool {
        rows.0 <= q.0 <= rows.1 && cols.0 <= q.1 <= cols.1
    } else {
        (q.0 == rows.0 && q.1 == cols.0) || (q.0 == rows.1 && q.1 == cols.1)
    }
}

/// No cell of the walk lies in `avoid`.
pub open spec fn avoids(path: Seq<(i16, i16)>, avoid: Set<(i16, i16)>) -> bool {
    forall|k: int| 0 <= k < path.len() ==> !avoid.contains(#[trigger] path[k])
}

/// The coordinates of a sequence of cells.
pub open spec fn cell_keys(cells: Seq<&Cell>) -> Seq<(i16, i16)> {
    cells.map_values(|c: &Cell| (c.row, c.col))
}

impl Spreadsheet {
    /// `x` is reached from one of `starts` by a walk through cells outside `avoid`.
    pub open spec fn reaches_avoiding(self, starts: Set<(i16, i16)>, avoid: Set<(i16, i16)>, x: (i16, i16)) -> bool {
        exists|path: Seq<(i16, i16)>|
            #[trigger] self.is_path(path) && starts.contains(path[0]) && avoids(path, avoid) && path.last() == x
    }

    /// `c` is the cell of this grid at its own coordinates.
    pub open spec fn holds(self, c: Cell) -> bool {
        self.valid(c.row as int, c.col as int) && self.cell(c.row as int, c.col as int) == c
    }

    pub proof fn lemma_path_push(self, path: Seq<(i16, i16)>, d: (i16, i16))
        requires
            self.is_path(path),
            self.deps(path.last()).contains(d),
        ensures
            self.is_path(path.push(d)),
            path.push(d)[0] == path[0],
            path.push(d).last() == d,
    {
        let q = path.push(d);
        assert forall|k: int| 0 <= k < q.len() - 1 implies #[trigger] self.step(q, k) by {
            if k < path.len() - 1 {
                assert(self.step(path, k));
            }
        }
    }

    /// A walk that starts in `v` and avoids `v0` stays in `v`, when every cell
    /// of `v` outside `v0` has all its dependents in `v`.
    pub proof fn lemma_walk_stays(self, v: Set<(i16, i16)>, v0: Set<(i16, i16)>, path: Seq<(i16, i16)>)
        requires
            self.is_path(path),
            v.contains(path[0]),
            avoids(path, v0),
            forall|x: (i16, i16), d: (i16, i16)|
                v.contains(x) && !v0.contains(x) && #[trigger] self.deps(x).contains(d) ==> v.contains(d),
        ensures
            forall|k: int| 0 <= k < path.len() ==> v.contains(#[trigger] path[k]),
        decreases path.len(),
    {
        if path.len() > 1 {
            let p = path.drop_last();
            assert forall|k: int| 0 <= k < p.len() - 1 implies #[trigger] self.step(p, k) by {
                assert(self.step(path, k));
            }
            assert(avoids(p, v0)) by {
                assert forall|k: int| 0 <= k < p.len() implies !v0.contains(#[trigger] p[k]) by {
                    assert(p[k] == path[k]);
                }
            }
            self.lemma_walk_stays(v, v0, p);
            let n = path.len() - 1;
            assert(self.step(path, n - 1));
            assert(v.contains(p[n - 1]));
            assert(!v0.contains(path[n - 1]));
            assert(self.deps(path[n - 1]).contains(path[n]));
            assert forall|k: int| 0 <= k < path.len() implies v.contains(#[trigger] path[k]) by {
                if k < n {
                    assert(path[k] == p[k]);
                }
            }
        }
    }

    /// Depth-first search from the cells on `stack`, skipping cells already in
    /// `visited`, for a cell of the target (see [`in_target`]). Returns whether
    /// one is reached; cells are added to `visited` as they are searched.
    #[verifier::rlimit(50)]
    pub fn rec_find_cycle_using_stack<'a>(
        &'a self,
        rows: (i16, i16),
        cols: (i16, i16),
        range_bool: bool,
        visited: &mut BTreeSet<(i16, i16)>,
        stack: &mut Vec<&'a Cell>,
    ) -> (r: bool)
        requires
            self.grid_wf(),
            self.deps_valid(),
            forall|k: int| 0 <= k < old(stack)@.len() ==> self.holds(*#[trigger] old(stack)@[k]),
        ensures
            r == exists|x: (i16, i16)|
                #![trigger in_target(x, rows, cols, range_bool)]
                self.reaches_avoiding(cell_keys(old(stack)@).to_set(), old(visited)@, x)
                    && in_target(x, rows, cols, range_bool),
            old(visited)@.subset_of(final(visited)@),
            forall|x: (i16, i16)| #[trigger] final(visited)@.contains(x) ==>
                old(visited)@.contains(x) || self.reaches_avoiding(cell_keys(old(stack)@).to_set(), old(visited)@, x),
            !r ==> final(stack)@.len() == 0,
            !r ==> forall|x: (i16, i16)| self.reaches_avoiding(cell_keys(old(stack)@).to_set(), old(visited)@, x)
                ==> #[trigger] final(visited)@.contains(x),
    {
        let (r1, r2) = rows;
        let (c1, c2) = cols;
        let ghost s0 = cell_keys(stack@).to_set();
        let ghost v0 = visited@;
        let ghost full_len = Set::<(i16, i16)>::full().len();
        proof {
            lemma_pair_set_bounded(visited@);
            assert forall|k: int| 0 <= k < stack@.len() implies v0.contains(#[trigger] cell_keys(stack@)[k])
                || self.reaches_avoiding(s0, v0, cell_keys(stack@)[k]) by {
                let x = cell_keys(stack@)[k];
                if !v0.contains(x) {
                    let p = seq![x];
                    assert(self.is_path(p));
                    assert(cell_keys(stack@).contains(x));
                    assert(s0.contains(p[0]));
                    assert(avoids(p, v0));
                }
            }
        }
        while stack.len() > 0
            invariant
                s0 == cell_keys(old(stack)@).to_set(),
                v0 == old(visited)@,
                forall|k: int| 0 <= k < stack@.len() ==> self.holds(*#[trigger] stack@[k]),
                v0.subset_of(visited@),
                forall|x: (i16, i16)| #[trigger] visited@.contains(x) ==>
                    v0.contains(x) || (self.reaches_avoiding(s0, v0, x)
                        && !in_target(x, rows, cols, range_bool)),
                forall|x: (i16, i16), d: (i16, i16)|
                    visited@.contains(x) && !v0.contains(x) && #[trigger] self.deps(x).contains(d)
                        ==> visited@.contains(d) || cell_keys(stack@).contains(d),
                forall|x: (i16, i16)| #[trigger] s0.contains(x) ==> visited@.contains(x) || cell_keys(stack@).contains(x),
                forall|k: int| 0 <= k < stack@.len() ==> v0.contains(#[trigger] cell_keys(stack@)[k])
                    || self.reaches_avoiding(s0, v0, cell_keys(stack@)[k]),
                visited@.len() <= full_len,
            decreases full_len - visited@.len(), stack@.len(),
        {
            let ghost before = stack@;
            let my_node = stack.pop().unwrap();
            let key = (my_node.row, my_node.col);
            proof {
                assert(cell_keys(before) == cell_keys(stack@).push(key));
                assert(cell_keys(before)[before.len() - 1] == key);
                assert(self.holds(*before[before.len() - 1]));
            }
            proof {
                assert forall|k: int| 0 <= k < stack@.len() implies v0.contains(#[trigger] cell_keys(stack@)[k])
                    || self.reaches_avoiding(s0, v0, cell_keys(stack@)[k]) by {
                    assert(cell_keys(stack@)[k] == cell_keys(before)[k]);
                }
            }
            if visited.contains(&key) {
                proof {
                    assert forall|x: (i16, i16)| #[trigger] s0.contains(x) implies visited@.contains(x)
                        || cell_keys(stack@).contains(x) by {
                        if cell_keys(before).contains(x) && x != key {
                            let k = cell_keys(before).index_of(x);
                            assert(cell_keys(stack@)[k] == x);
                        }
                    }
                    assert forall|x: (i16, i16), d: (i16, i16)|
                        visited@.contains(x) && !v0.contains(x) && #[trigger] self.deps(x).contains(d)
                        implies visited@.contains(d) || cell_keys(stack@).contains(d) by {
                        if cell_keys(before).contains(d) && d != key {
                            let k = cell_keys(before).index_of(d);
                            assert(cell_keys(stack@)[k] == d);
                        }
                    }
                }
                continue;
            }
            proof {
                assert(v0.contains(key) || self.reaches_avoiding(s0, v0, key));
                assert(!v0.contains(key));
                lemma_pair_set_bounded(visited@);
                lemma_pair_set_bounded(visited@.insert(key));
                assert(visited@.insert(key).len() == visited@.len() + 1);
            }
            visited.insert(key);
            let in_range = if range_bool {
                my_node.row >= r1 && my_node.row <= r2 && my_node.col >= c1 && my_node.col <= c2
            } else {
                (my_node.row == r1 && my_node.col == c1) || (my_node.row == r2 && my_node.col == c2)
            };
            if in_range {
                assert(in_target(key, rows, cols, range_bool));
                return true;
            }
            let ghost kpath = choose|path: Seq<(i16, i16)>|
                #[trigger] self.is_path(path) && s0.contains(path[0]) && avoids(path, v0) && path.last() == key;
            let dependent_names = self.get_dependent_names(my_node);
            assert(self.deps(key) == my_node.dependents@);
            let ghost mid = stack@;
            let n = dependent_names.len();
            for i in 0..n
                invariant
                    n == dependent_names@.len(),
                    dependent_names@.to_set() == self.deps(key),
                    visited@.contains(key),
                    forall|k: int| 0 <= k < stack@.len() ==> self.holds(*#[trigger] stack@[k]),
                    stack@.len() >= mid.len(),
                    forall|k: int| 0 <= k < mid.len() ==> #[trigger] stack@[k] == mid[k],
                    forall|j: int| 0 <= j < i ==> visited@.contains(#[trigger] dependent_names@[j])
                        || cell_keys(stack@).contains(dependent_names@[j]),
                    forall|k: int| 0 <= k < stack@.len() ==> v0.contains(#[trigger] cell_keys(stack@)[k])
                        || self.reaches_avoiding(s0, v0, cell_keys(stack@)[k]),
            {
                let dep = dependent_names[i];
                proof {
                    assert(dependent_names@.to_set().contains(dep));
                }
                if !visited.contains(&dep) {
                    let idx = self.index_of(dep.0, dep.1);
                    assert(self.slot(dep.0 as int, dep.1 as int) is Some);
                    let ghost st = stack@;
                    match &self.cells[idx] {
                        Some(b) => {
                            stack.push(&**b);
                        },
                        None => {},
                    }
                    proof {
                        assert(cell_keys(stack@) == cell_keys(st).push(dep));
                        assert(cell_keys(stack@).last() == dep);
                        self.lemma_path_push(kpath, dep);
                        assert(avoids(kpath.push(dep), v0)) by {
                            assert forall|k: int| 0 <= k < kpath.push(dep).len() implies !v0.contains(
                                #[trigger] kpath.push(dep)[k]) by {
                                if k < kpath.len() {
                                    assert(kpath.push(dep)[k] == kpath[k]);
                                }
                            }
                        }
                        assert(self.reaches_avoiding(s0, v0, dep));
                        assert forall|j: int| 0 <= j < i + 1 implies visited@.contains(#[trigger] dependent_names@[j])
                            || cell_keys(stack@).contains(dependent_names@[j]) by {
                            if j < i && !visited@.contains(dependent_names@[j]) {
                                let k = cell_keys(st).index_of(dependent_names@[j]);
                                assert(cell_keys(stack@)[k] == dependent_names@[j]);
                            } else if j == i {
                                assert(cell_keys(stack@)[cell_keys(stack@).len() - 1] == dep);
                            }
                        }
                        assert forall|k: int| 0 <= k < stack@.len() implies v0.contains(
                            #[trigger] cell_keys(stack@)[k]) || self.reaches_avoiding(s0, v0, cell_keys(stack@)[k]) by {
                            if k < st.len() {
                                assert(cell_keys(stack@)[k] == cell_keys(st)[k]);
                            }
                        }
                    }
                }
            }
            proof {
                assert forall|x: (i16, i16), d: (i16, i16)|
                    visited@.contains(x) && !v0.contains(x) && #[trigger] self.deps(x).contains(d)
                    implies visited@.contains(d) || cell_keys(stack@).contains(d) by {
                    if x == key {
                        assert(dependent_names@.to_set().contains(d));
                        let j = dependent_names@.index_of(d);
                        assert(visited@.contains(dependent_names@[j]) || cell_keys(stack@).contains(dependent_names@[j]));
                    } else if !visited@.contains(d) && cell_keys(before).contains(d) {
                        assert(d != key);
                        let k = cell_keys(before).index_of(d);
                        assert(cell_keys(mid)[k] == d);
                        assert(cell_keys(stack@)[k] == d);
                    }
                }
                assert forall|x: (i16, i16)| #[trigger] s0.contains(x) implies visited@.contains(x)
                    || cell_keys(stack@).contains(x) by {
                    if !visited@.contains(x) && cell_keys(before).contains(x) {
                        let k = cell_keys(before).index_of(x);
                        assert(cell_keys(mid)[k] == x);
                        assert(cell_keys(stack@)[k] == x);
                    }
                }
            }
        }
        proof {
            assert forall|x: (i16, i16)| self.reaches_avoiding(s0, v0, x) implies #[trigger] visited@.contains(x)
                && !v0.contains(x) by {
                let path = choose|path: Seq<(i16, i16)>|
                    #[trigger] self.is_path(path) && s0.contains(path[0]) && avoids(path, v0) && path.last() == x;
                assert(cell_keys(stack@) =~= Seq::empty());
                self.lemma_walk_stays(visited@, v0, path);
                assert(visited@.contains(path[path.len() - 1]));
                assert(!v0.contains(path[path.len() - 1]));
            }
            assert forall|x: (i16, i16)| !(self.reaches_avoiding(s0, v0, x)
                && #[trigger] in_target(x, rows, cols, range_bool)) by {
                if self.reaches_avoiding(s0, v0, x) {
                    assert(visited@.contains(x));
                }
            }
        }
        false
    }

    /// Whether a cell of the target (see [`in_target`]) is reached from cell
    /// `(r_, c_)` by following recorded dependents: assigning to `(r_, c_)` a
    /// formula that reads the target would close a cycle.
    pub fn first_step_find_cycle(&self, start: (i16, i16), first: (i16, i16), second: (i16, i16), range_bool: bool) -> (r: bool)
        requires
            self.grid_wf(),
            self.deps_valid(),
            self.valid(start.0 as int, start.1 as int),
        ensures
            r == exists|x: (i16, i16)|
                #![trigger in_target(x, (first.0, second.0), (first.1, second.1), range_bool)]
                self.reaches(start, x) && in_target(x, (first.0, second.0), (first.1, second.1), range_bool),
    {
        let (r_, c_) = start;
        let rows = (first.0, second.0);
        let cols = (first.1, second.1);
        let index = self.index_of(r_, c_);
        assert(self.slot(r_ as int, c_ as int) is Some);
        let start_node: &Cell = match &self.cells[index] {
            Some(b) => &**b,
            None => { return false; },
        };
        let mut visited: BTreeSet<(i16, i16)> = BTreeSet::new();
        let mut stack: Vec<&Cell> = Vec::new();
        stack.push(start_node);
        proof {
            assert(cell_keys(stack@) == seq![start]);
            assert(cell_keys(stack@).to_set() == set![start]) by {
                assert(cell_keys(stack@).to_set().contains(start));
            }
            assert forall|x: (i16, i16)| self.reaches_avoiding(set![start], Set::empty(), x) == self.reaches(start, x) by {
                if self.reaches(start, x) {
                    let path = choose|path: Seq<(i16, i16)>| #[trigger] self.is_path(path) && path[0] == start && path.last() == x;
                    assert(avoids(path, Set::empty()));
                    assert(set![start].contains(path[0]));
                }
            }
        }
        let ghost st0 = cell_keys(stack@).to_set();
        let ghost vs0 = visited@;
        assert(vs0 =~= Set::<(i16, i16)>::empty());
        let r = self.rec_find_cycle_using_stack(rows, cols, range_bool, &mut visited, &mut stack);
        proof {
            if r {
                let x = choose|x: (i16, i16)|
                    #![trigger in_target(x, rows, cols, range_bool)]
                    self.reaches_avoiding(set![start], Set::empty(), x) && in_target(x, rows, cols, range_bool);
                assert(self.reaches(start, x));
            } else {
                assert forall|x: (i16, i16)| !(self.reaches(start, x) && #[trigger] in_target(x, rows, cols, range_bool)) by {
                    if self.reaches(start, x) {
                        let path = choose|path: Seq<(i16, i16)>| #[trigger] self.is_path(path) && path[0] == start && path.last() == x;
                        assert(avoids(path, Set::empty()));
                        assert(set![start].contains(path[0]));
                        assert(self.reaches_avoiding(st0, vs0, x));
                        assert(!(self.reaches_avoiding(st0, vs0, x) && in_target(x, rows, cols, range_bool)));
                    }
                }
            }
        }
        r
    }
}

impl Spreadsheet {
    /// A nonempty walk of a graph without cycles never returns to a cell.
    pub proof fn lemma_path_no_repeat(self, path: Seq<(i16, i16)>, d: (i16, i16))
        requires
            self.acyclic(),
            self.is_path(path),
            self.deps(path.last()).contains(d),
        ensures
            !path.contains(d),
    {
        if path.contains(d) {
            let i = path.index_of(d);
            let q = path.subrange(i, path.len() as int).push(d);
            assert forall|k: int| 0 <= k < q.len() - 1 implies #[trigger] self.step(q, k) by {
                if k < q.len() - 2 {
                    assert(self.step(path, i + k));
                }
            }
            assert(self.is_path(q));
            assert(q.len() >= 2 && q[0] == q.last());
        }
    }

    /// The cells reached from `starting` by following dependents, itself
    /// included, each once, ordered so that every cell comes before its
    /// dependents (a depth-first post-order, reversed).
    #[verifier::rlimit(50)]
    pub fn topo_sort(&self, starting: &Cell) -> (r: Box<Vec<(i16, i16)>>)
        requires
            self.grid_wf(),
            self.deps_valid(),
            self.acyclic(),
            self.valid(starting.row as int, starting.col as int),
        ensures
            r@.no_duplicates(),
            forall|x: (i16, i16)| r@.contains(x) <==> self.reaches((starting.row, starting.col), x),
            forall|i: int, j: int|
                0 <= i < r@.len() && 0 <= j < r@.len() && #[trigger] self.deps(r@[i]).contains(#[trigger] r@[j])
                    ==> i < j,
    {
        let start = (starting.row, starting.col);
        let mut sorted: Vec<(i16, i16)> = Vec::new();
        let mut visited: BTreeSet<(i16, i16)> = BTreeSet::new();
        let mut work: Vec<(i16, i16)> = Vec::new();
        work.push(start);
        let ghost full_len = Set::<(i16, i16)>::full().len();
        proof {
            lemma_pair_set_bounded(visited@);
            assert(self.is_path(work@));
            work@.unique_seq_to_set();
            lemma_pair_set_bounded(work@.to_set());
        }
        while work.len() > 0
            invariant
                start == (starting.row, starting.col),
                work@.len() > 0 ==> work@[0] == start,
                work@.len() > 0 ==> self.is_path(work@),
                work@.no_duplicates(),
                forall|k: int| 0 <= k < work@.len() ==> !visited@.contains(#[trigger] work@[k]),
                forall|k: int| 0 <= k < work@.len() ==> self.valid((#[trigger] work@[k]).0 as int, work@[k].1 as int),
                work@.len() == 0 ==> visited@.contains(start),
                sorted@.to_set() == visited@,
                sorted@.no_duplicates(),
                forall|x: (i16, i16), d: (i16, i16)|
                    visited@.contains(x) && #[trigger] self.deps(x).contains(d) ==> visited@.contains(d),
                forall|i: int, j: int|
                    0 <= i < sorted@.len() && 0 <= j < sorted@.len()
                        && #[trigger] self.deps(sorted@[i]).contains(#[trigger] sorted@[j]) ==> j < i,
                forall|x: (i16, i16)| #[trigger] visited@.contains(x) ==> self.reaches(start, x),
                visited@.len() <= full_len,
                work@.len() <= full_len,
            decreases full_len - visited@.len(), full_len - work@.len(),
        {
            let ghost w0 = work@;
            let current = work.pop().unwrap();
            assert(current == w0[w0.len() - 1]);
            if visited.contains(&current) {
                continue;
            }
            let index = self.index_of(current.0, current.1);
            assert(self.slot(current.0 as int, current.1 as int) is Some);
            match &self.cells[index] {
                Some(cell) => {
                    let dependent_keys = self.get_dependent_names(cell);
                    assert(dependent_keys@.to_set() == self.deps(current));
                    let mut all_dependents_visited = true;
                    let mut i: usize = 0;
                    while i < dependent_keys.len()
                        invariant
                            0 <= i <= dependent_keys@.len(),
                            all_dependents_visited,
                            work@ == w0.drop_last(),
                            forall|j: int| 0 <= j < i ==> visited@.contains(#[trigger] dependent_keys@[j]),
                        decreases dependent_keys@.len() - i,
                    {
                        let dep = dependent_keys[i];
                        if !visited.contains(&dep) {
                            proof {
                                assert(dependent_keys@.to_set().contains(dep));
                                assert(w0.last() == current);
                                self.lemma_path_no_repeat(w0, dep);
                                self.lemma_path_push(w0, dep);
                                lemma_pair_set_bounded(w0.push(dep).to_set());
                                w0.push(dep).unique_seq_to_set();
                            }
                            work.push(current);
                            work.push(dep);
                            assert(work@ == w0.push(dep));
                            all_dependents_visited = false;
                            break;
                        }
                        i += 1;
                    }
                    if all_dependents_visited {
                        proof {
                            assert forall|d: (i16, i16)| #[trigger] self.deps(current).contains(d) implies visited@.contains(d) by {
                                assert(dependent_keys@.to_set().contains(d));
                                let j = dependent_keys@.index_of(d);
                                assert(visited@.contains(dependent_keys@[j]));
                            }
                            assert(self.reaches(start, current)) by {
                                assert(w0[0] == start);
                                assert(w0.last() == current);
                            }
                            lemma_pair_set_bounded(visited@);
                            lemma_pair_set_bounded(visited@.insert(current));
                        }
                        let ghost s0 = sorted@;
                        visited.insert(current);
                        sorted.push(current);
                        proof {
                            assert(sorted@.to_set() =~= visited@);
                            assert forall|i: int, j: int|
                                0 <= i < sorted@.len() && 0 <= j < sorted@.len()
                                    && #[trigger] self.deps(sorted@[i]).contains(#[trigger] sorted@[j]) implies j < i by {
                                if i < s0.len() {
                                    assert(sorted@[i] == s0[i]);
                                    assert(s0.to_set().contains(s0[i]));
                                    if j == s0.len() {
                                        assert(visited@.contains(sorted@[j]));
                                    } else {
                                        assert(sorted@[j] == s0[j]);
                                    }
                                }
                            }
                            let w1 = work@;
                            if w1.len() > 0 {
                                assert forall|k: int| 0 <= k < w1.len() - 1 implies #[trigger] self.step(w1, k) by {
                                    assert(self.step(w0, k));
                                }
                            }
                            assert forall|k: int| 0 <= k < work@.len() implies !visited@.contains(#[trigger] work@[k]) by {
                                assert(work@[k] == w0[k]);
                            }
                            work@.unique_seq_to_set();
                            lemma_pair_set_bounded(work@.to_set());
                        }
                    } else {
                        proof {
                            work@.unique_seq_to_set();
                        }
                    }
                },
                None => {},
            }
        }
        proof {
            assert forall|x: (i16, i16)| self.reaches(start, x) implies #[trigger] visited@.contains(x) by {
                let path = choose|path: Seq<(i16, i16)>| #[trigger] self.is_path(path) && path[0] == start && path.last() == x;
                assert(avoids(path, Set::empty()));
                self.lemma_walk_stays(visited@, Set::empty(), path);
                assert(visited@.contains(path[path.len() - 1]));
            }
        }
        let n = sorted.len();
        let mut out: Vec<(i16, i16)> = Vec::new();
        let mut k: usize = n;
        while k > 0
            invariant
                k <= n,
                n == sorted@.len(),
                out@.len() == n - k,
                forall|m: int| 0 <= m < out@.len() ==> #[trigger] out@[m] == sorted@[n - 1 - m],
            decreases k,
        {
            k -= 1;
            out.push(sorted[k]);
        }
        proof {
            assert forall|x: (i16, i16)| out@.contains(x) <==> self.reaches(start, x) by {
                if out@.contains(x) {
                    let m = out@.index_of(x);
                    assert(sorted@[n - 1 - m] == x);
                    assert(sorted@.to_set().contains(x));
                }
                if self.reaches(start, x) {
                    assert(visited@.contains(x));
                    assert(sorted@.to_set().contains(x));
                    let m = sorted@.index_of(x);
                    assert(out@[n - 1 - m] == x);
                }
            }
            assert(out@.no_duplicates()) by {
                assert forall|a: int, b: int| 0 <= a < out@.len() && 0 <= b < out@.len() && a != b
                    implies out@[a] != out@[b] by {
                    assert(out@[a] == sorted@[n - 1 - a]);
                    assert(out@[b] == sorted@[n - 1 - b]);
                }
            }
            assert forall|i: int, j: int|
                0 <= i < out@.len() && 0 <= j < out@.len() && #[trigger] self.deps(out@[i]).contains(#[trigger] out@[j])
                    implies i < j by {
                assert(out@[i] == sorted@[n - 1 - i]);
                assert(out@[j] == sorted@[n - 1 - j]);
                assert(self.deps(sorted@[n - 1 - i]).contains(sorted@[n - 1 - j]));
            }
        }
        Box::new(out)
    }
}

/// The first position at or after `from` where `x` occurs.
pub proof fn lemma_first_index<T>(s: Seq<T>, x: T, from: int) -> (a: int)
    requires
        0 <= from,
        exists|k: int| from <= k < s.len() && s[k] == x,
    ensures
        from <= a < s.len(),
        s[a] == x,
        forall|k: int| from <= k < a ==> s[k] != x,
    decreases s.len() - from,
{
    if s[from] == x {
        from
    } else {
        let w = choose|k: int| from <= k < s.len() && s[k] == x;
        assert(from + 1 <= w);
        lemma_first_index(s, x, from + 1)
    }
}

/// The last position at or before `upto` where `x` occurs.
pub proof fn lemma_last_index<T>(s: Seq<T>, x: T, upto: int) -> (a: int)
    requires
        upto < s.len(),
        exists|k: int| 0 <= k <= upto && s[k] == x,
    ensures
        0 <= a <= upto,
        s[a] == x,
        forall|k: int| a < k <= upto ==> s[k] != x,
    decreases upto,
{
    if s[upto] == x {
        upto
    } else {
        let w = choose|k: int| 0 <= k <= upto && s[k] == x;
        assert(w <= upto - 1);
        lemma_last_index(s, x, upto - 1)
    }
}

impl Spreadsheet {
    pub proof fn lemma_path_subrange(self, path: Seq<(i16, i16)>, i: int, j: int)
        requires
            self.is_path(path),
            0 <= i < j <= path.len(),
        ensures
            self.is_path(path.subrange(i, j)),
    {
        let q = path.subrange(i, j);
        assert forall|k: int| 0 <= k < q.len() - 1 implies #[trigger] self.step(q, k) by {
            assert(self.step(path, i + k));
        }
    }

    pub proof fn lemma_path_concat(self, a: Seq<(i16, i16)>, b: Seq<(i16, i16)>)
        requires
            self.is_path(a),
            self.is_path(b),
            a.last() == b[0],
        ensures
            self.is_path(a + b.drop_first()),
            (a + b.drop_first())[0] == a[0],
            (a + b.drop_first()).last() == b.last(),
    {
        let q = a + b.drop_first();
        assert forall|k: int| 0 <= k < q.len() - 1 implies #[trigger] self.step(q, k) by {
            if k < a.len() - 1 {
                assert(self.step(a, k));
            } else {
                assert(self.step(b, k - a.len() + 1));
            }
        }
    }

    /// Two grids that record the same dependents have the same walks.
    pub proof fn lemma_same_graph(self, other: Spreadsheet)
        requires
            self.grid_wf(),
            other.grid_wf(),
            self.rows == other.rows,
            self.cols == other.cols,
            forall|r: int, c: int| #![trigger other.slot(r, c)]
                self.valid(r, c) ==> other.cell(r, c).dependents@ == self.cell(r, c).dependents@,
        ensures
            forall|x: (i16, i16)| #[trigger] other.deps(x) == self.deps(x),
            forall|path: Seq<(i16, i16)>| #[trigger] other.is_path(path) == self.is_path(path),
            forall|a: (i16, i16), b: (i16, i16)| #[trigger] other.reaches(a, b) == self.reaches(a, b),
            other.acyclic() == self.acyclic(),
            other.deps_valid() == self.deps_valid(),
    {
        assert forall|x: (i16, i16)| #[trigger] other.deps(x) == self.deps(x) by {
            if self.valid(x.0 as int, x.1 as int) {
                assert(other.slot(x.0 as int, x.1 as int) == other.slot(x.0 as int, x.1 as int));
            }
        }
        assert forall|path: Seq<(i16, i16)>| #[trigger] other.is_path(path) == self.is_path(path) by {
            if other.is_path(path) {
                assert forall|k: int| 0 <= k < path.len() - 1 implies #[trigger] self.step(path, k) by {
                    assert(other.step(path, k));
                    assert(other.deps(path[k]) == self.deps(path[k]));
                }
            }
            if self.is_path(path) {
                assert forall|k: int| 0 <= k < path.len() - 1 implies #[trigger] other.step(path, k) by {
                    assert(self.step(path, k));
                    assert(other.deps(path[k]) == self.deps(path[k]));
                }
            }
        }
        assert(other.acyclic() == self.acyclic()) by {
            if self.acyclic() {
                assert forall|path: Seq<(i16, i16)>| #[trigger] other.is_path(path) && path.len() >= 2 implies path[0] != path.last() by {
                    assert(self.is_path(path));
                }
            }
            if other.acyclic() {
                assert forall|path: Seq<(i16, i16)>| #[trigger] self.is_path(path) && path.len() >= 2 implies path[0] != path.last() by {
                    assert(other.is_path(path));
                }
            }
        }
        assert forall|a: (i16, i16), b: (i16, i16)| #[trigger] other.reaches(a, b) == self.reaches(a, b) by {
            if other.reaches(a, b) {
                let path = choose|path: Seq<(i16, i16)>| #[trigger] other.is_path(path) && path[0] == a && path.last() == b;
                assert(self.is_path(path));
            }
            if self.reaches(a, b) {
                let path = choose|path: Seq<(i16, i16)>| #[trigger] self.is_path(path) && path[0] == a && path.last() == b;
                assert(other.is_path(path));
            }
        }
        assert(other.deps_valid() == self.deps_valid()) by {
            if self.deps_valid() {
                assert forall|r: int, c: int, d: (i16, i16)|
                    #![trigger other.slot(r, c), other.cell(r, c).dependents@.contains(d)]
                    other.valid(r, c) && other.cell(r, c).dependents@.contains(d) implies other.valid(d.0 as int, d.1 as int) by {
                    assert(self.slot(r, c) == self.slot(r, c));
                }
            }
            if other.deps_valid() {
                assert forall|r: int, c: int, d: (i16, i16)|
                    #![trigger self.slot(r, c), self.cell(r, c).dependents@.contains(d)]
                    self.valid(r, c) && self.cell(r, c).dependents@.contains(d) implies self.valid(d.0 as int, d.1 as int) by {
                    assert(other.slot(r, c) == other.slot(r, c));
                }
            }
        }
    }

    /// A walk of `next` that does not return to `p` is a walk of `self`,
    /// when every edge of `next` that does not end at `p` is an edge of `self`.
    pub proof fn lemma_walk_avoiding_target(self, next: Spreadsheet, p: (i16, i16), path: Seq<(i16, i16)>)
        requires
            next.is_path(path),
            forall|x: (i16, i16), y: (i16, i16)| y != p && #[trigger] next.deps(x).contains(y) ==> self.deps(x).contains(y),
            forall|k: int| 1 <= k < path.len() ==> path[k] != p,
        ensures
            self.is_path(path),
    {
        assert forall|k: int| 0 <= k < path.len() - 1 implies #[trigger] self.step(path, k) by {
            assert(next.step(path, k));
            assert(path[k + 1] != p);
        }
    }

    /// Adding edges into `p` only from cells that `p` does not reach keeps a
    /// graph without cycles.
    pub proof fn lemma_acyclic_after_insert(self, next: Spreadsheet, p: (i16, i16), ins: Set<(i16, i16)>)
        requires
            self.acyclic(),
            forall|x: (i16, i16), y: (i16, i16)| y != p && #[trigger] next.deps(x).contains(y) ==> self.deps(x).contains(y),
            forall|x: (i16, i16)| #[trigger] next.deps(x).contains(p) ==> self.deps(x).contains(p) || ins.contains(x),
            forall|x: (i16, i16)| #[trigger] ins.contains(x) ==> !self.reaches(p, x),
        ensures
            next.acyclic(),
    {
        assert forall|path: Seq<(i16, i16)>| #[trigger] next.is_path(path) && path.len() >= 2 implies path[0] != path.last() by {
            if path[0] == path.last() {
                let n = path.len();
                if exists|k: int| 1 <= k < n && path[k] == p {
                    let a = lemma_first_index(path, p, 1);
                    let q1 = path.subrange(0, a);
                    next.lemma_path_subrange(path, 0, a);
                    assert forall|k: int| 1 <= k < q1.len() implies q1[k] != p by {
                        assert(q1[k] == path[k]);
                    }
                    self.lemma_walk_avoiding_target(next, p, q1);
                    let x = path[a - 1];
                    assert(next.step(path, a - 1));
                    assert(next.deps(x).contains(p));
                    assert(q1.last() == x);
                    let to_x: Seq<(i16, i16)> = if path[0] == p {
                        q1
                    } else {
                        let t = lemma_last_index(path, p, n - 1);
                        assert(t < n - 1);
                        let q2 = path.subrange(t, n as int);
                        next.lemma_path_subrange(path, t, n as int);
                        assert forall|k: int| 1 <= k < q2.len() implies q2[k] != p by {
                            assert(q2[k] == path[t + k]);
                        }
                        self.lemma_walk_avoiding_target(next, p, q2);
                        assert(q2.last() == q1[0]);
                        self.lemma_path_concat(q2, q1);
                        q2 + q1.drop_first()
                    };
                    assert(self.is_path(to_x) && to_x[0] == p && to_x.last() == x);
                    assert(self.reaches(p, x));
                    if self.deps(x).contains(p) {
                        self.lemma_path_push(to_x, p);
                        assert(self.is_path(to_x.push(p)));
                    }
                } else {
                    self.lemma_walk_avoiding_target(next, p, path);
                }
            }
        }
    }
}
} // verus!
