use vstd::prelude::*;
use crate::spreadsheet::{
    ascii_upper_char, function_of_upper, is_ascii_text, FunctionName, Operand, ParsedRHS,
    Spreadsheet,
};
use crate::naming::{letter_run, lemma_letter_run, lemma_letter_run_exact, parse_cell_name_chars, parse_cell_name_spec};
use crate::text::{all_digits, chars_of, string_from_chars, int_literal_value, is_digit, is_letter, parse_i32_spec, parse_int_range};

verus! {

pub open spec fn is_op(c: char) -> bool {
    c == '+' || c == '-' || c == '*' || c == '/'
}

/// `[+-]?[0-9]+`
pub open spec fn signed_digits(t: Seq<char>) -> bool {
    if t.len() >= 1 && (t[0] == '+' || t[0] == '-') {
        t.len() >= 2 && all_digits(t.skip(1))
    } else {
        t.len() >= 1 && all_digits(t)
    }
}

/// `[A-Za-z]+[0-9]+`
pub open spec fn letters_digits(t: Seq<char>) -> bool {
    1 <= letter_run(t) < t.len() && all_digits(t.skip(letter_run(t) as int))
}

/// The text of one operand of an arithmetic formula.
pub open spec fn operand_text(t: Seq<char>) -> bool {
    signed_digits(t) || letters_digits(t)
}

/// `s` reads operand, operator `s[i]`, operand.
pub open spec fn arith_split_at(s: Seq<char>, i: int) -> bool {
    &&& 0 <= i < s.len()
    &&& is_op(s[i])
    &&& operand_text(s.take(i))
    &&& operand_text(s.skip(i + 1))
}

/// The operand that an operand text denotes: a cell when it starts with a
/// letter, a number otherwise; `None` when the cell is not in the grid or the
/// number does not fit in `i32`.
pub open spec fn operand_of_text(rows: int, cols: int, t: Seq<char>) -> Option<Operand> {
    if t.len() > 0 && is_letter(t[0]) {
        match parse_cell_name_spec(rows, cols, t) {
            Some(rc) => Some(Operand::Cell(rc.0, rc.1)),
            None => None,
        }
    } else {
        match parse_i32_spec(t) {
            Some(v) => Some(Operand::Number(v)),
            None => None,
        }
    }
}

/// What `is_valid_arithmetic_expression` gives for a text: a formula
/// `operand op operand` (op one of `+ - * /`) whose operands denote a cell
/// of the grid or an `i32`.
pub open spec fn arith_spec(rows: int, cols: int, s: Seq<char>) -> (bool, ParsedRHS) {
    if exists|i: int| arith_split_at(s, i) {
        let i = choose|i: int| arith_split_at(s, i);
        match (operand_of_text(rows, cols, s.take(i)), operand_of_text(rows, cols, s.skip(i + 1))) {
            (Some(a), Some(b)) => (true, ParsedRHS::Arithmetic { lhs: a, operator: s[i], rhs: b }),
            _ => (false, ParsedRHS::Empty),
        }
    } else {
        (false, ParsedRHS::Empty)
    }
}

/// The end of the operand text that starts at `lo`: the end of the run of
/// digits that follows an optional sign or a run of letters.
fn operand_end(v: &Vec<char>, lo: usize, hi: usize) -> (r: Option<usize>)
    requires
        lo <= hi <= v@.len(),
    ensures
        r matches Some(e) ==> lo < e <= hi && operand_text(v@.subrange(lo as int, e as int)) && (e == hi
            || !is_digit(v@[e as int])),
        forall|e: int|
            lo < e <= hi && operand_text(#[trigger] v@.subrange(lo as int, e)) && (e == hi || !is_digit(
                v@[e],
            )) ==> r == Some(e as usize),
{
    let mut p = lo;
    let mut shape: u8 = 0;
    if p < hi && (v[p] == '+' || v[p] == '-') {
        p = p + 1;
        shape = 1;
    } else if p < hi && (('A' <= v[p] && v[p] <= 'Z') || ('a' <= v[p] && v[p] <= 'z')) {
        p = p + 1;
        while p < hi && (('A' <= v[p] && v[p] <= 'Z') || ('a' <= v[p] && v[p] <= 'z'))
            invariant
                lo < p <= hi,
                forall|j: int| lo <= j < p ==> is_letter(#[trigger] v@[j]),
            decreases hi - p,
        {
            p = p + 1;
        }
        shape = 2;
    }
    let d0 = p;
    while p < hi && '0' <= v[p] && v[p] <= '9'
        invariant
            d0 <= p <= hi,
            forall|j: int| d0 <= j < p ==> is_digit(#[trigger] v@[j]),
        decreases hi - p,
    {
        p = p + 1;
    }
    proof {
        let t = v@.subrange(lo as int, p as int);
        if p > d0 {
            if shape == 1 {
                assert(t.skip(1) == v@.subrange(d0 as int, p as int));
                assert(signed_digits(t));
            } else if shape == 2 {
                lemma_letter_run_exact(t, d0 - lo);
                assert(t.skip(d0 - lo) == v@.subrange(d0 as int, p as int));
                assert(letters_digits(t));
            } else {
                assert(signed_digits(t));
            }
        }
        assert forall|e: int|
            lo < e <= hi && operand_text(#[trigger] v@.subrange(lo as int, e)) && (e == hi || !is_digit(v@[e]))
            implies p > d0 && p == e by {
            let u = v@.subrange(lo as int, e);
            lemma_letter_run(u);
            if signed_digits(u) {
                if u[0] == '+' || u[0] == '-' {
                    assert(shape == 1);
                    assert(forall|j: int| d0 <= j < e ==> is_digit(#[trigger] v@[j])) by {
                        assert forall|j: int| d0 <= j < e implies is_digit(#[trigger] v@[j]) by {
                            assert(u.skip(1)[j - lo - 1] == v@[j]);
                        }
                    }
                    if p < e {
                        assert(is_digit(v@[p as int]));
                    }
                } else {
                    assert(is_digit(u[0]));
                    assert(shape == 0);
                    assert(forall|j: int| d0 <= j < e ==> is_digit(#[trigger] v@[j])) by {
                        assert forall|j: int| d0 <= j < e implies is_digit(#[trigger] v@[j]) by {
                            assert(u[j - lo] == v@[j]);
                        }
                    }
                    if p < e {
                        assert(is_digit(v@[p as int]));
                    }
                }
            } else {
                let k = letter_run(u) as int;
                assert(is_letter(u[0]));
                assert(shape == 2);
                assert(u.skip(k)[0] == u[k]);
                assert(!is_letter(v@[lo + k]));
                if d0 < lo + k {
                    assert(is_letter(u[d0 - lo]));
                }
                assert(d0 == lo + k);
                assert(forall|j: int| d0 <= j < e ==> is_digit(#[trigger] v@[j])) by {
                    assert forall|j: int| d0 <= j < e implies is_digit(#[trigger] v@[j]) by {
                        assert(u.skip(k)[j - lo - k] == v@[j]);
                    }
                }
                if p < e {
                    assert(is_digit(v@[p as int]));
                }
            }
        }
    }
    if p > d0 {
        Some(p)
    } else {
        None
    }
}


/// The operand that `v[lo..hi]` denotes; see [`operand_of_text`].
fn parse_operand(v: &Vec<char>, lo: usize, hi: usize, rows: i16, cols: i16) -> (r: Option<Operand>)
    requires
        lo <= hi <= v@.len(),
    ensures
        r == operand_of_text(rows as int, cols as int, v@.subrange(lo as int, hi as int)),
{
    let ghost t = v@.subrange(lo as int, hi as int);
    if lo < hi && (('A' <= v[lo] && v[lo] <= 'Z') || ('a' <= v[lo] && v[lo] <= 'z')) {
        assert(t[0] == v@[lo as int]);
        match parse_cell_name_chars(v, lo, hi, rows, cols) {
            Some(rc) => Some(Operand::Cell(rc.0, rc.1)),
            None => None,
        }
    } else {
        assert(lo < hi ==> t[0] == v@[lo as int]);
        match parse_int_range(v, lo, hi, -2147483648, 2147483647) {
            Some(x) => Some(Operand::Number(x as i32)),
            None => None,
        }
    }
}

/// Finds the operator position of an arithmetic formula in `v[lo..hi]`, if
/// the text has the shape `operand op operand`; that position is unique.
fn arith_split(v: &Vec<char>, lo: usize, hi: usize) -> (r: Option<usize>)
    requires
        lo <= hi <= v@.len(),
    ensures
        r matches Some(i) ==> lo <= i < hi && arith_split_at(v@.subrange(lo as int, hi as int), i - lo),
        r is None ==> !(exists|j: int| arith_split_at(v@.subrange(lo as int, hi as int), j)),
        forall|j: int|
            arith_split_at(v@.subrange(lo as int, hi as int), j) ==> r == Some((j + lo) as usize),
{
    let ghost s = v@.subrange(lo as int, hi as int);
    let res = match operand_end(v, lo, hi) {
        Some(i) => {
            if i < hi && (v[i] == '+' || v[i] == '-' || v[i] == '*' || v[i] == '/') {
                match operand_end(v, i + 1, hi) {
                    Some(e) => if e == hi {
                        Some(i)
                    } else {
                        None
                    },
                    None => None,
                }
            } else {
                None
            }
        },
        None => None,
    };
    proof {
        assert forall|j: int| arith_split_at(s, j) implies res == Some((j + lo) as usize) by {
            assert(s.take(j) == v@.subrange(lo as int, lo + j));
            assert(s.skip(j + 1) == v@.subrange(lo + j + 1, hi as int));
            assert(s[j] == v@[lo + j]);
            assert(v@.subrange(lo as int, lo + j) == v@.subrange(lo as int, (lo + j) as usize as int));
        }
        if let Some(i) = res {
            assert(s.take(i - lo) == v@.subrange(lo as int, i as int));
            assert(s.skip(i - lo + 1) == v@.subrange(i + 1, hi as int));
            assert(s[i - lo] == v@[i as int]);
        }
    }
    res
}

impl Spreadsheet {
    /// Parses an arithmetic formula `operand op operand` such as `A1+B2`,
    /// `-4*C3` or `10/+2`; see [`arith_spec`].
    pub fn is_valid_arithmetic_expression(&self, expr: &str) -> (r: (bool, ParsedRHS))
        ensures
            r == arith_spec(self.rows as int, self.cols as int, expr@),
    {
        let v = chars_of(expr);
        let n = v.len();
        assert(v@.subrange(0, n as int) == v@);
        match arith_split(&v, 0, n) {
            Some(i) => {
                let a = parse_operand(&v, 0, i, self.rows, self.cols);
                let b = parse_operand(&v, i + 1, n, self.rows, self.cols);
                proof {
                    assert(v@.take(i as int) == v@.subrange(0, i as int));
                    assert(v@.skip(i + 1) == v@.subrange(i + 1, n as int));
                    assert((choose|j: int| arith_split_at(v@, j)) == i);
                }
                match (a, b) {
                    (Some(x), Some(y)) => (true, ParsedRHS::Arithmetic { lhs: x, operator: v[i], rhs: y }),
                    _ => (false, ParsedRHS::Empty),
                }
            },
            None => (false, ParsedRHS::Empty),
        }
    }
}


/// `^([A-Za-z]+)\((.*)\)$`: a run of letters, `(`, text without a line
/// break, and a closing `)` that ends the text.
pub open spec fn func_shape(s: Seq<char>) -> bool {
    let k = letter_run(s) as int;
    &&& k >= 1
    &&& s.len() >= k + 2
    &&& s[k] == '('
    &&& s.last() == ')'
    &&& forall|i: int| k + 1 <= i < s.len() - 1 ==> #[trigger] s[i] != '\n'
}

pub open spec fn func_name_of(s: Seq<char>) -> Seq<char> {
    s.take(letter_run(s) as int)
}

pub open spec fn func_args_of(s: Seq<char>) -> Seq<char> {
    s.subrange(letter_run(s) as int + 1, s.len() - 1)
}

pub open spec fn ascii_upper_text(s: Seq<char>) -> Seq<char> {
    s.map_values(|c: char| ascii_upper_char(c))
}

/// Position of the first `:` in `s` (`s.len()` when there is none).
pub open spec fn first_colon(s: Seq<char>) -> int
    decreases s.len(),
{
    if s.len() == 0 {
        0
    } else if s[0] == ':' {
        0
    } else {
        1 + first_colon(s.skip(1))
    }
}

/// What a formula of the shape `NAME(args)` parses to, for target cell `(row, col)`.
pub open spec fn func_branch(rows: int, cols: int, row: int, col: int, func: Seq<char>, args: Seq<char>) -> (bool, ParsedRHS) {
    if ascii_upper_text(func) == seq!['S', 'L', 'E', 'E', 'P'] {
        if args.len() == 0 {
            (false, ParsedRHS::Empty)
        } else if parse_i32_spec(args) is Some {
            (true, ParsedRHS::Sleep(Operand::Number(parse_i32_spec(args).unwrap())))
        } else if parse_cell_name_spec(rows, cols, args) is Some {
            let rc = parse_cell_name_spec(rows, cols, args).unwrap();
            (true, ParsedRHS::Sleep(Operand::Cell(rc.0, rc.1)))
        } else {
            (false, ParsedRHS::Empty)
        }
    } else if first_colon(args) < args.len() {
        let p = first_colon(args);
        let start = parse_cell_name_spec(rows, cols, args.take(p));
        let end = parse_cell_name_spec(rows, cols, args.skip(p + 1));
        if start is Some && end is Some && start.unwrap().0 <= end.unwrap().0 && start.unwrap().1
            <= end.unwrap().1 {
            let (sr, sc) = start.unwrap();
            let (er, ec) = end.unwrap();
            match function_of_upper(ascii_upper_text(func)) {
                Some(fname) => {
                    let f = ParsedRHS::Function {
                        name: fname,
                        args: (Operand::Cell(sr, sc), Operand::Cell(er, ec)),
                    };
                    if fname == FunctionName::Copy {
                        let final_row = er + (row - sr);
                        let final_col = ec + (col - sc);
                        if 0 < final_row <= rows && 0 < final_col <= cols {
                            (true, f)
                        } else {
                            (false, ParsedRHS::Empty)
                        }
                    } else {
                        (true, f)
                    }
                },
                None => (false, ParsedRHS::Empty),
            }
        } else {
            (false, ParsedRHS::Empty)
        }
    } else {
        (false, ParsedRHS::Empty)
    }
}

/// What `is_valid_command` gives for the assignment `cell_name = formula`:
/// whether it is valid, the target cell (0, 0 when the name is not a cell of
/// the grid) and the parsed formula.
pub open spec fn command_spec(rows: int, cols: int, cell_name: Seq<char>, formula: Seq<char>) -> (bool, i16, i16, ParsedRHS) {
    if cell_name.len() == 0 || formula.len() == 0 {
        (false, 0, 0, ParsedRHS::Empty)
    } else {
        match parse_cell_name_spec(rows, cols, cell_name) {
            None => (false, 0, 0, ParsedRHS::Empty),
            Some(rc) => {
                let (row, col) = rc;
                if func_shape(formula) {
                    let b = func_branch(rows, cols, row as int, col as int, func_name_of(formula), func_args_of(formula));
                    (b.0, row, col, b.1)
                } else if parse_cell_name_spec(rows, cols, formula) is Some {
                    let t = parse_cell_name_spec(rows, cols, formula).unwrap();
                    (true, row, col, ParsedRHS::SingleValue(Operand::Cell(t.0, t.1)))
                } else if parse_i32_spec(formula) is Some {
                    (true, row, col, ParsedRHS::SingleValue(Operand::Number(parse_i32_spec(formula).unwrap())))
                } else {
                    let a = arith_spec(rows, cols, formula);
                    (a.0, row, col, a.1)
                }
            },
        }
    }
}

fn sub_vec(v: &Vec<char>, lo: usize, hi: usize) -> (r: Vec<char>)
    requires
        lo <= hi <= v@.len(),
    ensures
        r@ == v@.subrange(lo as int, hi as int),
{
    let mut r: Vec<char> = Vec::new();
    let mut i = lo;
    while i < hi
        invariant
            lo <= i <= hi <= v@.len(),
            r@ == v@.subrange(lo as int, i as int),
        decreases hi - i,
    {
        r.push(v[i]);
        assert(v@.subrange(lo as int, i + 1) == v@.subrange(lo as int, i as int).push(v@[i as int]));
        i = i + 1;
    }
    r
}

fn upper_ascii(c: char) -> (r: char)
    ensures
        r == ascii_upper_char(c),
{
    if 'a' <= c && c <= 'z' {
        ((c as u32 - 32) as u8) as char
    } else {
        c
    }
}

/// Whether `v[lo..hi]`, ASCII upper-cased, equals `w`.
fn upper_equals(v: &Vec<char>, lo: usize, hi: usize, w: &[char]) -> (r: bool)
    requires
        lo <= hi <= v@.len(),
    ensures
        r == (ascii_upper_text(v@.subrange(lo as int, hi as int)) == w@),
{
    let ghost t = v@.subrange(lo as int, hi as int);
    if hi - lo != w.len() {
        return false;
    }
    let mut i = lo;
    while i < hi
        invariant
            lo <= i <= hi <= v@.len(),
            hi - lo == w@.len(),
            forall|j: int| 0 <= j < i - lo ==> ascii_upper_char(t[j]) == w@[j],
        decreases hi - i,
    {
        if upper_ascii(v[i]) != w[i - lo] {
            assert(ascii_upper_text(t)[i - lo] != w@[i - lo]);
            return false;
        }
        i = i + 1;
    }
    assert(ascii_upper_text(t) =~= w@);
    true
}

pub proof fn lemma_first_colon(s: Seq<char>)
    ensures
        0 <= first_colon(s) <= s.len(),
        forall|i: int| 0 <= i < first_colon(s) ==> #[trigger] s[i] != ':',
        first_colon(s) < s.len() ==> s[first_colon(s)] == ':',
    decreases s.len(),
{
    if s.len() > 0 && s[0] != ':' {
        lemma_first_colon(s.skip(1));
        assert forall|i: int| 0 <= i < first_colon(s) implies #[trigger] s[i] != ':' by {
            if i > 0 {
                assert(s[i] == s.skip(1)[i - 1]);
            }
        }
    }
}

pub proof fn lemma_first_colon_exact(s: Seq<char>, p: int)
    requires
        0 <= p <= s.len(),
        forall|i: int| 0 <= i < p ==> #[trigger] s[i] != ':',
        p < s.len() ==> s[p] == ':',
    ensures
        first_colon(s) == p,
    decreases p,
{
    if p > 0 {
        lemma_first_colon_exact(s.skip(1), p - 1);
    }
}


/// The formula `f[0..k]( f[k+1..n-1] )` for target cell `(row, col)`.
fn func_branch_exec(f: &Vec<char>, k: usize, row: i16, col: i16, rows: i16, cols: i16) -> (r: (bool, ParsedRHS))
    requires
        1 <= k,
        k + 2 <= f@.len(),
        forall|j: int| 0 <= j < k ==> is_letter(#[trigger] f@[j]),
    ensures
        r == func_branch(
            rows as int,
            cols as int,
            row as int,
            col as int,
            f@.take(k as int),
            f@.subrange(k + 1, f@.len() - 1),
        ),
{
    let n = f.len();
    let ghost func = f@.take(k as int);
    let ghost args = f@.subrange(k + 1, n - 1);
    assert(f@.subrange(0, k as int) == func);
    assert(args == f@.subrange((k + 1) as int, (n - 1) as int));
    if upper_equals(f, 0, k, &['S', 'L', 'E', 'E', 'P']) {
        assert(['S', 'L', 'E', 'E', 'P']@ == seq!['S', 'L', 'E', 'E', 'P']);
        if k + 1 == n - 1 {
            return (false, ParsedRHS::Empty);
        }
        match parse_int_range(f, k + 1, n - 1, -2147483648, 2147483647) {
            Some(v) => {
                return (true, ParsedRHS::Sleep(Operand::Number(v as i32)));
            },
            None => {},
        }
        match parse_cell_name_chars(f, k + 1, n - 1, rows, cols) {
            Some(rc) => {
                return (true, ParsedRHS::Sleep(Operand::Cell(rc.0, rc.1)));
            },
            None => {},
        }
        return (false, ParsedRHS::Empty);
    }
    assert(['S', 'L', 'E', 'E', 'P']@ == seq!['S', 'L', 'E', 'E', 'P']);
    let mut p = k + 1;
    while p < n - 1 && f[p] != ':'
        invariant
            k + 1 <= p <= n - 1,
            forall|i: int| 0 <= i < p - (k + 1) ==> #[trigger] args[i] != ':',
        decreases n - 1 - p,
    {
        p = p + 1;
    }
    proof {
        if p < n - 1 {
            assert(args[p - (k + 1)] == ':');
        }
        lemma_first_colon_exact(args, p - (k + 1));
    }
    if p == n - 1 {
        return (false, ParsedRHS::Empty);
    }
    assert(args.take(p - (k + 1)) == f@.subrange(k + 1, p as int));
    assert(args.skip(p - (k + 1) + 1) == f@.subrange(p + 1, n - 1));
    let start = parse_cell_name_chars(f, k + 1, p, rows, cols);
    let end = parse_cell_name_chars(f, p + 1, n - 1, rows, cols);
    match (start, end) {
        (Some((sr, sc)), Some((er, ec))) => {
            if sr <= er && sc <= ec {
                let name = string_from_chars(&sub_vec(f, 0, k));
                proof {
                    lemma_letter_run(f@);
                }
                assert(is_ascii_text(name@)) by {
                    assert forall|i: int| 0 <= i < name@.len() implies (#[trigger] name@[i] as u32) < 128 by {
                        assert(name@[i] == f@[i]);
                        assert(is_letter(f@[i]));
                    }
                }
                match FunctionName::from_strng(name.as_str()) {
                    Some(fname) => {
                        let fr = ParsedRHS::Function {
                            name: fname,
                            args: (Operand::Cell(sr, sc), Operand::Cell(er, ec)),
                        };
                        if fname.is_copy() {
                            let final_row = er as i32 + (row as i32 - sr as i32);
                            let final_col = ec as i32 + (col as i32 - sc as i32);
                            if final_row > 0 && final_row <= rows as i32 && final_col > 0 && final_col <= cols as i32 {
                                (true, fr)
                            } else {
                                (false, ParsedRHS::Empty)
                            }
                        } else {
                            (true, fr)
                        }
                    },
                    None => (false, ParsedRHS::Empty),
                }
            } else {
                (false, ParsedRHS::Empty)
            }
        },
        _ => (false, ParsedRHS::Empty),
    }
}

impl Spreadsheet {
    /// Parses the assignment `cell_name = formula`: the target cell and the
    /// formula (a number, a cell, `a op b`, `SLEEP(x)` or `FUNC(A1:B2)`);
    /// see [`command_spec`].
    pub fn is_valid_command(&self, cell_name: &str, formula: &str) -> (r: (bool, i16, i16, ParsedRHS))
        ensures
            r == command_spec(self.rows as int, self.cols as int, cell_name@, formula@),
    {
        let cn = chars_of(cell_name);
        let f = chars_of(formula);
        if cn.len() == 0 || f.len() == 0 {
            return (false, 0, 0, ParsedRHS::Empty);
        }
        assert(cn@.subrange(0, cn@.len() as int) == cn@);
        assert(f@.subrange(0, f@.len() as int) == f@);
        let (row, col) = match parse_cell_name_chars(&cn, 0, cn.len(), self.rows, self.cols) {
            Some(rc) => rc,
            None => {
                return (false, 0, 0, ParsedRHS::Empty);
            },
        };
        let n = f.len();
        let mut k: usize = 0;
        while k < n && (('A' <= f[k] && f[k] <= 'Z') || ('a' <= f[k] && f[k] <= 'z'))
            invariant
                k <= n == f@.len(),
                forall|j: int| 0 <= j < k ==> is_letter(#[trigger] f@[j]),
            decreases n - k,
        {
            k = k + 1;
        }
        proof {
            lemma_letter_run_exact(f@, k as int);
        }
        if k >= 1 && k < n && n - k >= 2 && f[k] == '(' && f[n - 1] == ')' {
            let mut j = k + 1;
            while j < n - 1 && f[j] != '\n'
                invariant
                    k + 1 <= j <= n - 1,
                    forall|i: int| k + 1 <= i < j ==> #[trigger] f@[i] != '\n',
                decreases n - 1 - j,
            {
                j = j + 1;
            }
            if j == n - 1 {
                assert(func_shape(f@));
                let b = func_branch_exec(&f, k, row, col, self.rows, self.cols);
                return (b.0, row, col, b.1);
            }
            assert(!func_shape(f@)) by {
                assert(f@[j as int] == '\n');
            }
        }
        match parse_cell_name_chars(&f, 0, n, self.rows, self.cols) {
            Some(rc) => {
                return (true, row, col, ParsedRHS::SingleValue(Operand::Cell(rc.0, rc.1)));
            },
            None => {},
        }
        match parse_int_range(&f, 0, n, -2147483648, 2147483647) {
            Some(v) => {
                return (true, row, col, ParsedRHS::SingleValue(Operand::Number(v as i32)));
            },
            None => {},
        }
        let a = self.is_valid_arithmetic_expression(formula);
        (a.0, row, col, a.1)
    }
}


impl Spreadsheet {
    /// A valid command names a cell of the grid, and its formula is a `COPY`
    /// of a nonempty range of the grid or a formula the grid can evaluate.
    pub proof fn lemma_command_ok(self, cell_name: Seq<char>, formula: Seq<char>)
        requires
            command_spec(self.rows as int, self.cols as int, cell_name, formula).0,
        ensures
            ({
                let c = command_spec(self.rows as int, self.cols as int, cell_name, formula);
                &&& self.valid(c.1 as int, c.2 as int)
                &&& (crate::assign::is_copy_range(c.3) || self.formula_ok(c.3))
                &&& (crate::assign::is_copy_range(c.3) ==> {
                    let a = crate::assign::range_args(c.3);
                    &&& self.valid(a.0.0 as int, a.0.1 as int)
                    &&& self.valid(a.1.0 as int, a.1.1 as int)
                    &&& a.0.0 <= a.1.0
                    &&& a.0.1 <= a.1.1
                })
            }),
    {
        let rows = self.rows as int;
        let cols = self.cols as int;
        crate::naming::lemma_cell_name_valid(rows, cols, cell_name);
        if func_shape(formula) {
            let args = func_args_of(formula);
            if ascii_upper_text(func_name_of(formula)) == seq!['S', 'L', 'E', 'E', 'P'] {
                if parse_i32_spec(args) is None && parse_cell_name_spec(rows, cols, args) is Some {
                    crate::naming::lemma_cell_name_valid(rows, cols, args);
                }
            } else if first_colon(args) < args.len() {
                let p = first_colon(args);
                crate::naming::lemma_cell_name_valid(rows, cols, args.take(p));
                crate::naming::lemma_cell_name_valid(rows, cols, args.skip(p + 1));
            }
        } else if parse_cell_name_spec(rows, cols, formula) is Some {
            crate::naming::lemma_cell_name_valid(rows, cols, formula);
        } else if parse_i32_spec(formula) is None {
            if exists|i: int| arith_split_at(formula, i) {
                let i = choose|i: int| arith_split_at(formula, i);
                let a = formula.take(i);
                let b = formula.skip(i + 1);
                if a.len() > 0 && is_letter(a[0]) && parse_cell_name_spec(rows, cols, a) is Some {
                    crate::naming::lemma_cell_name_valid(rows, cols, a);
                }
                if b.len() > 0 && is_letter(b[0]) && parse_cell_name_spec(rows, cols, b) is Some {
                    crate::naming::lemma_cell_name_valid(rows, cols, b);
                }
            }
        }
    }
}
} // verus!
