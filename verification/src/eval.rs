use vstd::prelude::*;
use crate::spreadsheet::{FunctionName, Operand, ParsedRHS, Spreadsheet};

verus! {

/// Count, sum, sum of squares, minimum, maximum and error flag of the cells
/// visited so far.
pub type Agg = (int, int, int, int, int, bool);

pub open spec fn agg_empty() -> Agg {
    (0, 0, 0, 0, 0, false)
}

pub open spec fn agg_add(a: Agg, v: int, e: bool) -> Agg {
    (
        a.0 + 1,
        a.1 + v,
        a.2 + v * v,
        if a.0 == 0 || v < a.3 { v } else { a.3 },
        if a.0 == 0 || v > a.4 { v } else { a.4 },
        a.5 || e,
    )
}

/// `x` reduced to `i32` by two's-complement wrap-around.
pub open spec fn wrap32(x: int) -> i32 {
    x as i32
}

/// Integer division rounding toward zero, as Rust's `/`.
pub open spec fn trunc_div(a: int, b: int) -> int {
    if a >= 0 && b > 0 {
        a / b
    } else if a < 0 && b < 0 {
        (-a) / (-b)
    } else if a < 0 {
        -((-a) / b)
    } else {
        -(a / (-b))
    }
}

/// `r` is the population standard deviation `sqrt(a) / n` rounded to the
/// nearest integer, halves rounded up, where `a = n * sum_sq - sum * sum`.
pub open spec fn stdev_rounds_to(r: int, n: int, a: int) -> bool {
    &&& r >= 0
    &&& (r == 0 || (2 * r - 1) * n * ((2 * r - 1) * n) <= 4 * a)
    &&& 4 * a < (2 * r + 1) * n * ((2 * r + 1) * n)
}

pub open spec fn stdev_round(n: int, a: int) -> int {
    choose|r: int| stdev_rounds_to(r, n, a)
}

/// The rounded standard deviation of `n` values with the given sum and sum of
/// squares, saturated at `i32::MAX`.
pub open spec fn stdev_value(n: int, sum: int, sum_sq: int) -> i32 {
    let r = stdev_round(n, n * sum_sq - sum * sum);
    if r > i32::MAX {
        i32::MAX
    } else {
        r as i32
    }
}

/// What a range function gives for the aggregate of its range: `(0, true)`
/// when a cell of the range is in error; otherwise the minimum, maximum, sum,
/// average (sum divided by count, toward zero), rounded population standard
/// deviation (0 for fewer than two cells) or, for `COPY`, 0. Sums wrap to `i32`.
pub open spec fn function_result(name: FunctionName, a: Agg) -> (i32, bool) {
    if a.5 {
        (0, true)
    } else {
        match name {
            FunctionName::Min => (if a.0 == 0 { 0 } else { a.3 as i32 }, false),
            FunctionName::Max => (if a.0 == 0 { 0 } else { a.4 as i32 }, false),
            FunctionName::Sum => (wrap32(a.1), false),
            FunctionName::Avg => (trunc_div(wrap32(a.1) as int, a.0) as i32, false),
            FunctionName::Stdev => (if a.0 < 2 { 0 } else { stdev_value(a.0, a.1, a.2) }, false),
            FunctionName::Copy => (0, false),
        }
    }
}

/// `l op r` for values `l`, `r` with error flags: `+ - *` wrap to `i32`,
/// `/` rounds toward zero and is an error when `r` is 0; another operator is
/// an error with value 0. An error of either operand makes the result an error.
pub open spec fn arith_result(l: (i32, bool), op: char, r: (i32, bool)) -> (i32, bool) {
    let err = l.1 || r.1;
    if op == '+' {
        (wrap32(l.0 + r.0), err)
    } else if op == '-' {
        (wrap32(l.0 - r.0), err)
    } else if op == '*' {
        (wrap32(l.0 * r.0), err)
    } else if op == '/' {
        if r.0 == 0 {
            (0, true)
        } else {
            (wrap32(trunc_div(l.0 as int, r.0 as int)), err)
        }
    } else {
        (0, true)
    }
}

/// The range `r1..=r2` x `c1..=c2` is one that evaluation can scan: when its
/// height or width is negative, the other is zero.
pub open spec fn range_shape_ok(r1: int, c1: int, r2: int, c2: int) -> bool {
    let dr = r2 - r1 + 1;
    let dc = c2 - c1 + 1;
    !(dr < 0 && dc != 0) && !(dc < 0 && dr != 0)
}

/// The value and error flag of every cell, by row and column.
pub type Vals = spec_fn(int, int) -> (i32, bool);

/// The value and error flag of an operand.
pub open spec fn operand_vals(v: Vals, op: Operand) -> (i32, bool) {
    match op {
        Operand::Number(n) => (n, false),
        Operand::Cell(r, c) => v(r as int, c as int),
    }
}

/// Row `r`, columns `c1..j`, folded into `a`.
pub open spec fn row_fold(v: Vals, a: Agg, r: int, c1: int, j: int) -> Agg
    decreases j - c1,
{
    if j <= c1 {
        a
    } else {
        agg_add(row_fold(v, a, r, c1, j - 1), v(r, j - 1).0 as int, v(r, j - 1).1)
    }
}

/// Rows `r1..i`, columns `c1..=c2`, in row-major order.
pub open spec fn rect_fold(v: Vals, r1: int, i: int, c1: int, c2: int) -> Agg
    decreases i - r1,
{
    if i <= r1 {
        agg_empty()
    } else {
        row_fold(v, rect_fold(v, r1, i - 1, c1, c2), i - 1, c1, c2 + 1)
    }
}

/// The aggregate of the range `r1..=r2` x `c1..=c2`.
pub open spec fn range_agg(v: Vals, r1: int, c1: int, r2: int, c2: int) -> Agg {
    rect_fold(v, r1, r2 + 1, c1, c2)
}

/// The value and error flag of a formula when the cells hold `v`.
pub open spec fn eval_vals(v: Vals, f: ParsedRHS) -> (i32, bool) {
    match f {
        ParsedRHS::Function { name, args } => match args {
            (Operand::Cell(r1, c1), Operand::Cell(r2, c2)) => function_result(
                name,
                range_agg(v, r1 as int, c1 as int, r2 as int, c2 as int),
            ),
            _ => (0, false),
        },
        ParsedRHS::Sleep(op) => operand_vals(v, op),
        ParsedRHS::Arithmetic { lhs, operator, rhs } => arith_result(
            operand_vals(v, lhs),
            operator,
            operand_vals(v, rhs),
        ),
        ParsedRHS::SingleValue(op) => operand_vals(v, op),
        ParsedRHS::Empty => (0, false),
    }
}

/// The seconds that evaluating a formula waits when the cells hold `v`: a
/// `SLEEP` of a positive number, or of a cell without error holding a positive
/// value; 0 otherwise.
pub open spec fn sleep_vals(v: Vals, f: ParsedRHS) -> int {
    match f {
        ParsedRHS::Sleep(op) => {
            let x = operand_vals(v, op);
            if x.1 || x.0 <= 0 {
                0
            } else {
                x.0 as int
            }
        },
        _ => 0,
    }
}

impl Spreadsheet {
    pub open spec fn operand_ok(self, op: Operand) -> bool {
        match op {
            Operand::Number(_) => true,
            Operand::Cell(r, c) => self.valid(r as int, c as int),
        }
    }

    /// A formula whose evaluation and dependency bookkeeping stay inside the
    /// grid: its cells are cells of the grid, a range function names a range by
    /// two cells, and an average is over a nonempty range.
    pub open spec fn formula_ok(self, f: ParsedRHS) -> bool {
        match f {
            ParsedRHS::Function { name, args } => match args {
                (Operand::Cell(r1, c1), Operand::Cell(r2, c2)) => {
                    &&& self.valid(r1 as int, c1 as int)
                    &&& self.valid(r2 as int, c2 as int)
                    &&& range_shape_ok(r1 as int, c1 as int, r2 as int, c2 as int)
                    &&& (name == FunctionName::Avg ==> r1 <= r2 && c1 <= c2)
                },
                _ => false,
            },
            ParsedRHS::Sleep(op) => self.operand_ok(op),
            ParsedRHS::Arithmetic { lhs, operator, rhs } => self.operand_ok(lhs) && self.operand_ok(rhs),
            ParsedRHS::SingleValue(op) => self.operand_ok(op),
            ParsedRHS::Empty => true,
        }
    }

    /// The value and error flag of every cell of this grid (0 without error
    /// outside it).
    pub open spec fn vals(self) -> Vals {
        |r: int, c: int| if self.valid(r, c) {
            (self.cell(r, c).value, self.cell(r, c).error)
        } else {
            (0i32, false)
        }
    }

    /// The value and error flag of a formula in this grid.
    pub open spec fn eval_spec(self, f: ParsedRHS) -> (i32, bool) {
        eval_vals(self.vals(), f)
    }

    /// The seconds that evaluating a formula in this grid waits.
    pub open spec fn sleep_spec(self, f: ParsedRHS) -> int {
        sleep_vals(self.vals(), f)
    }
}

pub proof fn lemma_stdev_unique(r1: int, r2: int, n: int, a: int)
    requires
        n >= 1,
        stdev_rounds_to(r1, n, a),
        stdev_rounds_to(r2, n, a),
    ensures
        r1 == r2,
{
    if r1 < r2 {
        assert((2 * r1 + 1) * n * ((2 * r1 + 1) * n) <= (2 * r2 - 1) * n * ((2 * r2 - 1) * n)) by (nonlinear_arith)
            requires
                0 <= r1 < r2,
                n >= 1,
        ;
    } else if r2 < r1 {
        assert((2 * r2 + 1) * n * ((2 * r2 + 1) * n) <= (2 * r1 - 1) * n * ((2 * r1 - 1) * n)) by (nonlinear_arith)
            requires
                0 <= r2 < r1,
                n >= 1,
        ;
    }
}

/// The rounded standard deviation of `n` values with the given sum and sum of
/// squares, found by bisection on the rounding condition.
fn stdev_exec(n: i128, sum: i128, sum_sq: i128) -> (r: i32)
    requires
        2 <= n <= 0x4000_0000,
        -n * 0x8000_0000 <= sum <= n * 0x8000_0000,
        0 <= sum_sq <= n * 0x4000_0000_0000_0000,
    ensures
        r == stdev_value(n as int, sum as int, sum_sq as int),
{
    proof {
        assert(n * sum_sq <= 0x400_0000_0000_0000_0000_0000_0000_0000) by (nonlinear_arith)
            requires
                2 <= n <= 0x4000_0000,
                0 <= sum_sq <= n * 0x4000_0000_0000_0000,
        ;
        assert(sum * sum <= 0x400_0000_0000_0000_0000_0000_0000_0000) by (nonlinear_arith)
            requires
                2 <= n <= 0x4000_0000,
                -n * 0x8000_0000 <= sum <= n * 0x8000_0000,
        ;
        assert(sum * sum >= 0) by (nonlinear_arith);
        assert(n * sum_sq >= 0) by (nonlinear_arith)
            requires
                n >= 0,
                sum_sq >= 0,
        ;
        assert(n * sum_sq <= n * n * 0x4000_0000_0000_0000) by (nonlinear_arith)
            requires
                2 <= n,
                0 <= sum_sq <= n * 0x4000_0000_0000_0000,
        ;
    }
    let a = n * sum_sq - sum * sum;
    let a4 = 4 * a;
    let ghost na = n as int;
    let mut lo: i128 = 0;
    let mut hi: i128 = 0x1_0000_0001;
    proof {
        assert(4 * a < (2 * hi + 1) * n * ((2 * hi + 1) * n)) by (nonlinear_arith)
            requires
                hi == 0x1_0000_0001,
                2 <= n,
                a <= n * n * 0x4000_0000_0000_0000,
        ;
        assert(!(hi == 0 || (2 * hi - 1) * n * ((2 * hi - 1) * n) <= 4 * a)) by (nonlinear_arith)
            requires
                hi == 0x1_0000_0001,
                2 <= n,
                a <= n * n * 0x4000_0000_0000_0000,
        ;
    }
    while hi - lo > 1
        invariant
            0 <= lo < hi <= 0x1_0000_0001,
            a == n * sum_sq - sum * sum,
            a4 == 4 * a,
            lo == 0 || (2 * lo - 1) * n * ((2 * lo - 1) * n) <= 4 * a,
            !(hi == 0 || (2 * hi - 1) * n * ((2 * hi - 1) * n) <= 4 * a),
        decreases hi - lo,
    {
        let mid = lo + (hi - lo) / 2;
        proof {
            assert(0 <= (2 * mid - 1) * n <= 0x8000_0000_8000_0000) by (nonlinear_arith)
                requires
                    1 <= mid <= 0x1_0000_0001,
                    2 <= n <= 0x4000_0000,
            ;
            assert((2 * mid - 1) * n * ((2 * mid - 1) * n) <= 0x4000_0000_8000_0000_4000_0000_0000_0000) by (nonlinear_arith)
                requires
                    0 <= (2 * mid - 1) * n <= 0x8000_0000_8000_0000,
            ;
        }
        let t = (2 * mid - 1) * n;
        if t * t <= a4 {
            lo = mid;
        } else {
            hi = mid;
        }
    }
    proof {
        assert(hi == lo + 1);
        assert(stdev_rounds_to(lo as int, n as int, a as int));
        lemma_stdev_unique(lo as int, stdev_round(n as int, a as int), n as int, a as int);
    }
    if lo > 0x7fff_ffff {
        0x7fff_ffff
    } else {
        lo as i32
    }
}

impl Spreadsheet {
    /// The value of a range function over `r1..=r2` x `c1..=c2`.
    fn eval_function(&self, name: FunctionName, r1: i16, c1: i16, r2: i16, c2: i16) -> (r: (i32, bool))
        requires
            self.grid_wf(),
            self.valid(r1 as int, c1 as int),
            self.valid(r2 as int, c2 as int),
            range_shape_ok(r1 as int, c1 as int, r2 as int, c2 as int),
            name == FunctionName::Avg ==> r1 <= r2 && c1 <= c2,
        ensures
            r == function_result(name, range_agg(self.vals(), r1 as int, c1 as int, r2 as int, c2 as int)),
    {
        let ghost w: int = if c2 >= c1 { c2 - c1 + 1 } else { 0 };
        let ghost rows = self.rows as int;
        let ghost cols = self.cols as int;
        proof {
            assert(rows * cols <= 0x4000_0000) by (nonlinear_arith)
                requires
                    0 <= rows <= 32767,
                    0 <= cols <= 32767,
            ;
        }
        let mut cnt: i64 = 0;
        let mut sum: i64 = 0;
        let mut sum_sq: i128 = 0;
        let mut mn: i32 = 0;
        let mut mx: i32 = 0;
        let mut err = false;
        let row_end: i32 = if r2 as i32 + 1 >= r1 as i32 { r2 as i32 + 1 } else { r1 as i32 };
        let col_end: i32 = if c2 as i32 + 1 >= c1 as i32 { c2 as i32 + 1 } else { c1 as i32 };
        let mut i: i32 = r1 as i32;
        while i < row_end
            invariant
                r1 <= i <= row_end,
                row_end == (if r2 + 1 >= r1 { r2 + 1 } else { r1 as int }),
                col_end == (if c2 + 1 >= c1 { c2 + 1 } else { c1 as int }),
                w == col_end - c1,
                cnt == (i - r1) * w,
                cnt <= 0x4000_0000,
                (cnt as int, sum as int, sum_sq as int, mn as int, mx as int, err) == rect_fold(
                    self.vals(),
                    r1 as int,
                    i as int,
                    c1 as int,
                    c2 as int,
                ),
                -cnt * 0x8000_0000 <= sum <= cnt * 0x8000_0000,
                0 <= sum_sq <= cnt * 0x4000_0000_0000_0000,
            decreases row_end - i,
        {
            proof {
                assert((i - r1 + 1) * w <= rows * cols) by (nonlinear_arith)
                    requires
                        0 <= i - r1 + 1 <= rows,
                        0 <= w <= cols,
                ;
                assert((i - r1 + 1) * w == (i - r1) * w + w) by (nonlinear_arith);
            }
            let mut j: i32 = c1 as i32;
            let ghost base = (cnt as int, sum as int, sum_sq as int, mn as int, mx as int, err);
            let ghost i0 = i;
            while j < col_end
                invariant
                    i == i0,
                    r1 <= i < row_end,
                    c1 <= j <= col_end,
                    col_end == (if c2 + 1 >= c1 { c2 + 1 } else { c1 as int }),
                    w == col_end - c1,
                    cnt == (i - r1) * w + (j - c1),
                    (i - r1) * w + w <= 0x4000_0000,
                    base == rect_fold(self.vals(), r1 as int, i as int, c1 as int, c2 as int),
                    (cnt as int, sum as int, sum_sq as int, mn as int, mx as int, err) == row_fold(
                        self.vals(),
                        base,
                        i as int,
                        c1 as int,
                        j as int,
                    ),
                    -cnt * 0x8000_0000 <= sum <= cnt * 0x8000_0000,
                    0 <= sum_sq <= cnt * 0x4000_0000_0000_0000,
                decreases col_end - j,
            {
                let idx = self.index_of(i as i16, j as i16);
                assert(self.slot(i as int, j as int) is Some);
                let cell = self.cells[idx].as_ref().unwrap();
                let v = cell.value;
                proof {
                    assert(v * v <= 0x4000_0000_0000_0000) by (nonlinear_arith)
                        requires
                            -0x8000_0000 <= v <= 0x7fff_ffff,
                    ;
                    assert(v * v >= 0) by (nonlinear_arith);
                }
                if cnt == 0 || v < mn {
                    mn = v;
                }
                if cnt == 0 || v > mx {
                    mx = v;
                }
                cnt = cnt + 1;
                sum = sum + v as i64;
                sum_sq = sum_sq + (v as i128) * (v as i128);
                err = err || cell.error;
                j = j + 1;
            }
            i = i + 1;
        }
        assert(range_agg(self.vals(), r1 as int, c1 as int, r2 as int, c2 as int) == rect_fold(
            self.vals(),
            r1 as int,
            row_end as int,
            c1 as int,
            c2 as int,
        ));
        if err {
            return (0, true);
        }
        match name {
            FunctionName::Min => (if cnt == 0 { 0 } else { mn }, false),
            FunctionName::Max => (if cnt == 0 { 0 } else { mx }, false),
            FunctionName::Sum => (sum as i32, false),
            FunctionName::Avg => {
                proof {
                    assert(cnt >= 1) by (nonlinear_arith)
                        requires
                            cnt == (row_end - r1) * w,
                            row_end - r1 >= 1,
                            w >= 1,
                    ;
                }
                let s = sum as i32;
                let q = s / (cnt as i32);
                assert(q == trunc_div(s as int, cnt as int));
                (q, false)
            },
            FunctionName::Stdev => {
                if cnt < 2 {
                    (0, false)
                } else {
                    (stdev_exec(cnt as i128, sum as i128, sum_sq), false)
                }
            },
            FunctionName::Copy => (0, false),
        }
    }
}


pub proof fn lemma_div_bounds(n: int, d: int)
    requires
        n >= 0,
        d >= 1,
    ensures
        0 <= n / d <= n,
        d >= 2 ==> n / d <= n / 2,
{
    assert(0 <= n / d <= n) by (nonlinear_arith)
        requires
            n >= 0,
            d >= 1,
    ;
    if d >= 2 {
        vstd::arithmetic::div_mod::lemma_div_is_ordered_by_denominator(n, 2, d);
    }
}

/// `l op r`; see [`arith_result`].
fn arith_apply(lv: (i32, bool), op: char, rv: (i32, bool)) -> (res: (i32, bool))
    ensures
        res == arith_result(lv, op, rv),
{
    let (l, le) = lv;
    let (r, re) = rv;
    let err = le || re;
    if op == '+' {
        ((l as i64 + r as i64) as i32, err)
    } else if op == '-' {
        ((l as i64 - r as i64) as i32, err)
    } else if op == '*' {
        proof {
            assert(-0x4000_0000_0000_0000 <= (l as int) * (r as int) <= 0x4000_0000_0000_0000) by (nonlinear_arith)
                requires
                    -0x8000_0000 <= l <= 0x7fff_ffff,
                    -0x8000_0000 <= r <= 0x7fff_ffff,
            ;
        }
        ((l as i64 * r as i64) as i32, err)
    } else if op == '/' {
        if r == 0 {
            (0, true)
        } else {
            if l == i32::MIN && r == -1 {
                assert(0x8000_0000int / 1int == 0x8000_0000int) by (nonlinear_arith);
                assert(trunc_div(l as int, r as int) == 0x8000_0000);
                let x: i64 = 0x8000_0000;
                assert(x as i32 == i32::MIN) by (bit_vector)
                    requires
                        x == 0x8000_0000,
                ;
                (i32::MIN, err)
            } else {
                proof {
                    lemma_div_bounds(if l < 0 { -l } else { l as int }, if r < 0 { -r } else { r as int });
                }
                match l.checked_div(r) {
                    Some(q) => (q, err),
                    None => (0, err),
                }
            }
        }
    } else {
        (0, true)
    }
}

impl Spreadsheet {
    fn operand_value(&self, op: Operand) -> (r: (i32, bool))
        requires
            self.grid_wf(),
            self.operand_ok(op),
        ensures
            r == operand_vals(self.vals(), op),
    {
        match op {
            Operand::Number(n) => (n, false),
            Operand::Cell(r, c) => {
                let idx = self.index_of(r, c);
                assert(self.slot(r as int, c as int) is Some);
                let cell = self.cells[idx].as_ref().unwrap();
                (cell.value, cell.error)
            },
        }
    }

    /// The value and error flag of a formula: see [`Spreadsheet::eval_spec`].
    /// A `SLEEP` formula gives its operand's value here; the wait it asks for
    /// is reported by [`Spreadsheet::sleep_seconds`].
    pub fn spreadsheet_evaluate_expression(&self, expr: &ParsedRHS, _row: i16, _col: i16) -> (r: (i32, bool))
        requires
            self.grid_wf(),
            self.formula_ok(*expr),
        ensures
            r == self.eval_spec(*expr),
    {
        match expr {
            ParsedRHS::Function { name, args } => {
                match args {
                    (Operand::Cell(r1, c1), Operand::Cell(r2, c2)) => self.eval_function(*name, *r1, *c1, *r2, *c2),
                    _ => (0, false),
                }
            },
            ParsedRHS::Sleep(op) => self.operand_value(*op),
            ParsedRHS::Arithmetic { lhs, operator, rhs } => {
                let lv = self.operand_value(*lhs);
                let rv = self.operand_value(*rhs);
                arith_apply(lv, *operator, rv)
            },
            ParsedRHS::SingleValue(op) => self.operand_value(*op),
            ParsedRHS::Empty => (0, false),
        }
    }

    /// The seconds that evaluating `expr` waits; see [`Spreadsheet::sleep_spec`].
    pub fn sleep_seconds(&self, expr: &ParsedRHS) -> (r: u32)
        requires
            self.grid_wf(),
            self.formula_ok(*expr),
        ensures
            r as int == self.sleep_spec(*expr),
    {
        match expr {
            ParsedRHS::Sleep(op) => {
                let (v, e) = self.operand_value(*op);
                if e || v <= 0 {
                    0
                } else {
                    v as u32
                }
            },
            _ => 0,
        }
    }
}

/// The cell an operand reads, if any.
pub open spec fn operand_refs(op: Operand) -> Set<(i16, i16)> {
    match op {
        Operand::Cell(r, c) => set![(r, c)],
        Operand::Number(_) => Set::empty(),
    }
}

/// The cells of the range `r1..=r2` x `c1..=c2`.
pub open spec fn rect(r1: i16, c1: i16, r2: i16, c2: i16) -> Set<(i16, i16)> {
    Set::new(|q: (i16, i16)| r1 <= q.0 <= r2 && c1 <= q.1 <= c2)
}

/// The cells whose values the evaluation of a formula reads.
pub open spec fn reads(f: ParsedRHS) -> Set<(i16, i16)> {
    match f {
        ParsedRHS::Function { name, args } => match args {
            (Operand::Cell(r1, c1), Operand::Cell(r2, c2)) => rect(r1, c1, r2, c2),
            _ => Set::empty(),
        },
        ParsedRHS::Sleep(op) => operand_refs(op),
        ParsedRHS::Arithmetic { lhs, operator, rhs } => operand_refs(lhs).union(operand_refs(rhs)),
        ParsedRHS::SingleValue(op) => operand_refs(op),
        ParsedRHS::Empty => Set::empty(),
    }
}

pub proof fn lemma_row_fold_agree(v1: Vals, v2: Vals, a: Agg, r: int, c1: int, j: int)
    requires
        forall|c: int| c1 <= c < j ==> #[trigger] v1(r, c) == v2(r, c),
    ensures
        row_fold(v1, a, r, c1, j) == row_fold(v2, a, r, c1, j),
    decreases j - c1,
{
    if j > c1 {
        lemma_row_fold_agree(v1, v2, a, r, c1, j - 1);
        assert(v1(r, j - 1) == v2(r, j - 1));
    }
}

pub proof fn lemma_rect_fold_agree(v1: Vals, v2: Vals, r1: int, i: int, c1: int, c2: int)
    requires
        forall|r: int, c: int| r1 <= r < i && c1 <= c <= c2 ==> #[trigger] v1(r, c) == v2(r, c),
    ensures
        rect_fold(v1, r1, i, c1, c2) == rect_fold(v2, r1, i, c1, c2),
    decreases i - r1,
{
    if i > r1 {
        lemma_rect_fold_agree(v1, v2, r1, i - 1, c1, c2);
        lemma_row_fold_agree(v1, v2, rect_fold(v1, r1, i - 1, c1, c2), i - 1, c1, c2 + 1);
    }
}

/// Evaluation reads only the cells of [`reads`]: two assignments of values
/// that agree there give a formula the same value and the same wait.
pub proof fn lemma_eval_agree(v1: Vals, v2: Vals, f: ParsedRHS)
    requires
        forall|q: (i16, i16)| #[trigger] reads(f).contains(q) ==> v1(q.0 as int, q.1 as int) == v2(q.0 as int, q.1 as int),
    ensures
        eval_vals(v1, f) == eval_vals(v2, f),
        sleep_vals(v1, f) == sleep_vals(v2, f),
{
    match f {
        ParsedRHS::Function { name, args } => match args {
            (Operand::Cell(r1, c1), Operand::Cell(r2, c2)) => {
                assert forall|r: int, c: int| r1 <= r < r2 + 1 && c1 <= c <= c2 implies #[trigger] v1(r, c) == v2(r, c) by {
                    assert(reads(f).contains((r as i16, c as i16)));
                }
                lemma_rect_fold_agree(v1, v2, r1 as int, r2 + 1, c1 as int, c2 as int);
            },
            _ => {},
        },
        ParsedRHS::Sleep(op) => {
            if let Operand::Cell(r, c) = op {
                assert(reads(f).contains((r, c)));
            }
        },
        ParsedRHS::Arithmetic { lhs, operator, rhs } => {
            if let Operand::Cell(r, c) = lhs {
                assert(reads(f).contains((r, c)));
            }
            if let Operand::Cell(r, c) = rhs {
                assert(reads(f).contains((r, c)));
            }
        },
        ParsedRHS::SingleValue(op) => {
            if let Operand::Cell(r, c) = op {
                assert(reads(f).contains((r, c)));
            }
        },
        ParsedRHS::Empty => {},
    }
}

} // verus!
