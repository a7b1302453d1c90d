use vstd::prelude::*;
use crate::cell::{Cell, cell_create};
use crate::text::chars_of;

verus! {

/// The name of a range function that may appear in a formula.
#[derive(Clone, Copy, Debug, PartialEq, Eq, Structural)]
pub enum FunctionName {
    Min,
    Max,
    Avg,
    Sum,
    Stdev,
    Copy,
}

/// An operand of a formula: a literal number or a reference to a cell `(row, col)`.
#[derive(Clone, Copy, Debug, PartialEq, Eq, Structural)]
pub enum Operand {
    Number(i32),
    Cell(i16, i16),
}

/// The parsed right-hand side of a cell assignment.
#[derive(Clone, Copy, Debug, PartialEq, Eq)]
pub enum ParsedRHS {
    Function { name: FunctionName, args: (Operand, Operand) },
    Sleep(Operand),
    Arithmetic { lhs: Operand, operator: char, rhs: Operand },
    SingleValue(Operand),
    Empty,
}

/// The upper-case form of a string (`str::to_uppercase`, Unicode case mapping).
pub uninterp spec fn unicode_upper(s: Seq<char>) -> Seq<char>;

pub open spec fn ascii_upper_char(c: char) -> char {
    if 'a' <= c && c <= 'z' { ((c as u32) - 32) as char } else { c }
}

pub open spec fn is_ascii_text(s: Seq<char>) -> bool {
    forall|i: int| 0 <= i < s.len() ==> (#[trigger] s[i] as u32) < 128
}

/// `str::to_uppercase`. Its result is named by [`unicode_upper`]; on ASCII text
/// it maps each lower-case letter to its upper-case letter and keeps every other
/// character, as the documentation of `to_uppercase` and `to_ascii_uppercase` agree.
#[verifier::external_body]
fn to_uppercase(s: &str) -> (r: String)
    ensures
        r@ == unicode_upper(s@),
        is_ascii_text(s@) ==> r@ == s@.map_values(|c: char| ascii_upper_char(c)),
{
    s.to_uppercase()
}

/// The function named by an upper-cased name.
pub open spec fn function_of_upper(u: Seq<char>) -> Option<FunctionName> {
    if u == seq!['M', 'I', 'N'] {
        Some(FunctionName::Min)
    } else if u == seq!['M', 'A', 'X'] {
        Some(FunctionName::Max)
    } else if u == seq!['A', 'V', 'G'] {
        Some(FunctionName::Avg)
    } else if u == seq!['S', 'U', 'M'] {
        Some(FunctionName::Sum)
    } else if u == seq!['S', 'T', 'D', 'E', 'V'] {
        Some(FunctionName::Stdev)
    } else if u == seq!['C', 'O', 'P', 'Y'] {
        Some(FunctionName::Copy)
    } else {
        None
    }
}

fn seq_is(v: &Vec<char>, w: &[char]) -> (r: bool)
    ensures
        r == (v@ == w@),
{
    if v.len() != w.len() {
        return false;
    }
    let n = v.len();
    for i in 0..n
        invariant
            n == v.len(),
            n == w.len(),
            forall|j: int| 0 <= j < i ==> v@[j] == w@[j],
    {
        if v[i] != w[i] {
            return false;
        }
    }
    assert(v@ =~= w@);
    true
}

impl FunctionName {
    /// The function whose name, upper-cased, is the given upper-case text.
    pub fn from_upper(upper: &str) -> (r: Option<Self>)
        ensures
            r == function_of_upper(upper@),
    {
        let u = chars_of(upper);
        if seq_is(&u, &['M', 'I', 'N']) {
            assert(['M', 'I', 'N']@ == seq!['M', 'I', 'N']);
            Some(FunctionName::Min)
        } else if seq_is(&u, &['M', 'A', 'X']) {
            assert(['M', 'A', 'X']@ == seq!['M', 'A', 'X']);
            Some(FunctionName::Max)
        } else if seq_is(&u, &['A', 'V', 'G']) {
            assert(['A', 'V', 'G']@ == seq!['A', 'V', 'G']);
            Some(FunctionName::Avg)
        } else if seq_is(&u, &['S', 'U', 'M']) {
            assert(['S', 'U', 'M']@ == seq!['S', 'U', 'M']);
            Some(FunctionName::Sum)
        } else if seq_is(&u, &['S', 'T', 'D', 'E', 'V']) {
            assert(['S', 'T', 'D', 'E', 'V']@ == seq!['S', 'T', 'D', 'E', 'V']);
            Some(FunctionName::Stdev)
        } else if seq_is(&u, &['C', 'O', 'P', 'Y']) {
            assert(['C', 'O', 'P', 'Y']@ == seq!['C', 'O', 'P', 'Y']);
            Some(FunctionName::Copy)
        } else {
            assert(['M', 'I', 'N']@ == seq!['M', 'I', 'N']);
            assert(['M', 'A', 'X']@ == seq!['M', 'A', 'X']);
            assert(['A', 'V', 'G']@ == seq!['A', 'V', 'G']);
            assert(['S', 'U', 'M']@ == seq!['S', 'U', 'M']);
            assert(['S', 'T', 'D', 'E', 'V']@ == seq!['S', 'T', 'D', 'E', 'V']);
            assert(['C', 'O', 'P', 'Y']@ == seq!['C', 'O', 'P', 'Y']);
            None
        }
    }

    /// The function a name denotes, compared case-insensitively
    /// (`MIN`, `MAX`, `AVG`, `SUM`, `STDEV`, `COPY`).
    pub fn from_strng(name: &str) -> (r: Option<Self>)
        ensures
            r == function_of_upper(unicode_upper(name@)),
            is_ascii_text(name@) ==> r == function_of_upper(
                name@.map_values(|c: char| ascii_upper_char(c)),
            ),
    {
        let upper = to_uppercase(name);
        Self::from_upper(upper.as_str())
    }

    /// Whether this is the `COPY` function.
    pub fn is_copy(&self) -> (r: bool)
        ensures
            r == (*self == FunctionName::Copy),
    {
        match self {
            FunctionName::Copy => true,
            _ => false,
        }
    }
}


/// The grid: `rows` x `cols` cells stored row by row, the scroll position of
/// the visible window, and the stack of formulas that an undo restores.
pub struct Spreadsheet {
    pub rows: i16,
    pub cols: i16,
    pub view_row: i16,
    pub view_col: i16,
    pub cells: Vec<Option<Box<Cell>>>,
    pub undo_stack: Vec<(ParsedRHS, i16, i16)>,
}

/// Position of cell `(r, c)` (both counted from 1) in the row-major vector.
pub open spec fn cell_index(r: int, c: int, cols: int) -> int {
    (r - 1) * cols + (c - 1)
}

pub proof fn lemma_cell_index(r: int, c: int, rows: int, cols: int)
    requires
        1 <= r <= rows,
        1 <= c <= cols,
    ensures
        0 <= cell_index(r, c, cols) < rows * cols,
        cell_index(r, c, cols) / cols == r - 1,
        cell_index(r, c, cols) % cols == c - 1,
{
    let i = cell_index(r, c, cols);
    assert(0 <= (r - 1) * cols) by (nonlinear_arith)
        requires
            r >= 1,
            cols >= 1,
    ;
    assert((r - 1) * cols + (c - 1) < rows * cols) by (nonlinear_arith)
        requires
            r <= rows,
            c <= cols,
            c >= 1,
    ;
    vstd::arithmetic::div_mod::lemma_fundamental_div_mod_converse(i, cols, r - 1, c - 1);
}

pub proof fn lemma_cell_index_injective(r1: int, c1: int, r2: int, c2: int, rows: int, cols: int)
    requires
        1 <= r1 <= rows,
        1 <= c1 <= cols,
        1 <= r2 <= rows,
        1 <= c2 <= cols,
        cell_index(r1, c1, cols) == cell_index(r2, c2, cols),
    ensures
        r1 == r2,
        c1 == c2,
{
    lemma_cell_index(r1, c1, rows, cols);
    lemma_cell_index(r2, c2, rows, cols);
}

impl Spreadsheet {
    /// `(r, c)` names a cell of the grid.
    pub open spec fn valid(self, r: int, c: int) -> bool {
        1 <= r <= self.rows && 1 <= c <= self.cols
    }

    pub open spec fn idx(self, r: int, c: int) -> int {
        cell_index(r, c, self.cols as int)
    }

    /// The slot of the vector that holds cell `(r, c)`.
    pub open spec fn slot(self, r: int, c: int) -> Option<Box<Cell>> {
        self.cells@[self.idx(r, c)]
    }

    /// The cell `(r, c)` of a well-formed grid.
    pub open spec fn cell(self, r: int, c: int) -> Cell {
        *self.slot(r, c).unwrap()
    }

    /// The grid holds exactly `rows * cols` cells, each present at its
    /// row-major position and knowing its own coordinates.
    pub open spec fn grid_wf(self) -> bool {
        &&& self.rows >= 0
        &&& self.cols >= 0
        &&& self.cells@.len() == self.rows * self.cols
        &&& forall|r: int, c: int|
            #![trigger self.slot(r, c)]
            self.valid(r, c) ==> {
                &&& self.slot(r, c) is Some
                &&& self.cell(r, c).row == r
                &&& self.cell(r, c).col == c
            }
    }

    /// The vector position of cell `(r, c)`.
    pub fn index_of(&self, r: i16, c: i16) -> (i: usize)
        requires
            self.grid_wf(),
            self.valid(r as int, c as int),
        ensures
            i == self.idx(r as int, c as int),
            i < self.cells@.len(),
    {
        proof {
            lemma_cell_index(r as int, c as int, self.rows as int, self.cols as int);
            assert(self.rows * self.cols <= 32767 * 32767) by (nonlinear_arith)
                requires
                    0 <= self.rows <= 32767,
                    0 <= self.cols <= 32767,
            ;
            assert((r - 1) * self.cols <= self.rows * self.cols) by (nonlinear_arith)
                requires
                    1 <= r <= self.rows,
                    0 <= self.cols,
            ;
        }
        (r - 1) as usize * self.cols as usize + (c - 1) as usize
    }

    /// A new grid of `rows` x `cols` fresh cells (value 0, no error, no
    /// formula, no dependents), scrolled to the top-left, with an empty undo stack.
    /// A dimension that is not positive gives a grid without cells.
    pub fn spreadsheet_create(rows: i16, cols: i16) -> (r: Option<Box<Self>>)
        requires
            (rows >= 0 && cols >= 0) || rows == 0 || cols == 0,
        ensures
            r is Some,
            r.unwrap().rows == rows,
            r.unwrap().cols == cols,
            r.unwrap().view_row == 0,
            r.unwrap().view_col == 0,
            r.unwrap().undo_stack@ == Seq::<(ParsedRHS, i16, i16)>::empty(),
            rows >= 0 && cols >= 0 ==> r.unwrap().grid_wf(),
            rows >= 0 && cols >= 0 ==> r.unwrap().consistent(),
            rows >= 0 && cols >= 0 ==> r.unwrap().deps_exact(),
            rows >= 0 && cols >= 0 ==> r.unwrap().fresh(rows, cols),
            !(rows > 0 && cols > 0) ==> r.unwrap().cells@.len() == 0,
            forall|i: int, j: int|
                #![trigger r.unwrap().slot(i, j)]
                r.unwrap().valid(i, j) ==> {
                    &&& r.unwrap().cell(i, j).value == 0
                    &&& !r.unwrap().cell(i, j).error
                    &&& r.unwrap().cell(i, j).formula == ParsedRHS::Empty
                    &&& r.unwrap().cell(i, j).dependents is Empty
                },
    {
        proof {
            assert(rows * cols <= 32767 * 32767) by (nonlinear_arith)
                requires
                    rows <= 32767,
                    cols <= 32767,
                    (rows > 0 && cols > 0) || rows * cols <= 0,
            ;
        }
        let n: usize = if rows > 0 && cols > 0 { rows as usize * cols as usize } else { 0 };
        let mut cells: Vec<Option<Box<Cell>>> = Vec::with_capacity(n);
        if rows > 0 && cols > 0 {
            let ghost w = cols as int;
            let mut r: i32 = 1;
            while r <= rows as i32
                invariant
                    1 <= r <= rows + 1,
                    cells@.len() == (r - 1) * w,
                    forall|i: int|
                        0 <= i < cells@.len() ==> {
                            &&& (#[trigger] cells@[i]) is Some
                            &&& cells@[i].unwrap().row == i / w + 1
                            &&& cells@[i].unwrap().col == i % w + 1
                            &&& cells@[i].unwrap().value == 0
                            &&& !cells@[i].unwrap().error
                            &&& cells@[i].unwrap().formula == ParsedRHS::Empty
                            &&& cells@[i].unwrap().dependents is Empty
                        },
                decreases rows + 1 - r,
            {
                let mut c: i32 = 1;
                let ghost r0 = r;
                while c <= cols as i32
                    invariant
                        r == r0,
                        1 <= r <= rows,
                        1 <= c <= cols + 1,
                        cells@.len() == (r - 1) * w + (c - 1),
                        forall|i: int|
                            0 <= i < cells@.len() ==> {
                                &&& (#[trigger] cells@[i]) is Some
                                &&& cells@[i].unwrap().row == i / w + 1
                                &&& cells@[i].unwrap().col == i % w + 1
                                &&& cells@[i].unwrap().value == 0
                                &&& !cells@[i].unwrap().error
                                &&& cells@[i].unwrap().formula == ParsedRHS::Empty
                                &&& cells@[i].unwrap().dependents is Empty
                            },
                    decreases cols + 1 - c,
                {
                    proof {
                        lemma_cell_index(r as int, c as int, rows as int, cols as int);
                    }
                    cells.push(Some(cell_create(r as i16, c as i16)));
                    c = c + 1;
                }
                assert((r - 1) * w + w == r * w) by (nonlinear_arith);
                r = r + 1;
            }
        }
        let sheet = Box::new(Spreadsheet { rows, cols, view_row: 0, view_col: 0, cells, undo_stack: Vec::new() });
        proof {
            if rows > 0 && cols > 0 {
                assert forall|i: int, j: int| #![trigger sheet.slot(i, j)] sheet.valid(i, j) implies {
                    &&& sheet.slot(i, j) is Some
                    &&& sheet.cell(i, j).row == i
                    &&& sheet.cell(i, j).col == j
                    &&& sheet.cell(i, j).value == 0
                    &&& !sheet.cell(i, j).error
                    &&& sheet.cell(i, j).formula == ParsedRHS::Empty
                    &&& sheet.cell(i, j).dependents is Empty
                } by {
                    lemma_cell_index(i, j, rows as int, cols as int);
                }
            } else if rows >= 0 && cols >= 0 {
                assert(rows * cols == 0) by (nonlinear_arith)
                    requires
                        rows >= 0 && cols >= 0 && !(rows > 0 && cols > 0),
                ;
            }
            if rows >= 0 && cols >= 0 {
                let s = *sheet;
                assert forall|x: (i16, i16)| #[trigger] s.deps(x) == Set::<(i16, i16)>::empty() by {
                    if s.valid(x.0 as int, x.1 as int) {
                        assert(s.slot(x.0 as int, x.1 as int) == s.slot(x.0 as int, x.1 as int));
                    }
                }
                assert forall|path: Seq<(i16, i16)>| #[trigger] s.is_path(path) && path.len() >= 2 implies path[0] != path.last() by {
                    assert(s.step(path, 0));
                }
                assert forall|i: int, j: int| #![trigger s.slot(i, j)] s.valid(i, j) implies
                    s.cell(i, j).formula == ParsedRHS::Empty && s.cell(i, j).dependents@ == Set::<(i16, i16)>::empty() by {}
                crate::laws::law_fresh_exact(s);
            }
        }
        Some(sheet)
    }
}

} // verus!
