use vstd::prelude::*;
use crate::spreadsheet::Spreadsheet;
use crate::naming::{parse_cell_name_chars, parse_cell_name_spec};
use crate::text::{chars_of, string_from_chars};

verus! {

/// The kinds of graph that can be drawn from spreadsheet data.
#[derive(Clone, Copy, Debug, PartialEq, Eq, Structural)]
pub enum GraphType {
    /// Points joined by lines.
    Line,
    /// One bar per point.
    Bar,
    /// Unjoined points.
    Scatter,
    /// A line with the area below it filled.
    Area,
}

/// How a graph is drawn: title, axis labels, size in pixels and kind.
#[derive(Clone, Debug)]
pub struct GraphOptions {
    pub title: String,
    pub x_label: String,
    pub y_label: String,
    pub width: u32,
    pub height: u32,
    pub graph_type: GraphType,
}

fn owned(s: &str) -> (r: String)
    ensures
        r@ == s@,
{
    s.to_owned()
}

impl Default for GraphOptions {
    /// A line graph titled `Graph`, axes `X Axis` and `Y Axis`, 800 by 600.
    fn default() -> (r: Self)
        ensures
            r.title@ == "Graph"@,
            r.x_label@ == "X Axis"@,
            r.y_label@ == "Y Axis"@,
            r.width == 800,
            r.height == 600,
            r.graph_type == GraphType::Line,
    {
        GraphOptions {
            title: owned("Graph"),
            x_label: owned("X Axis"),
            y_label: owned("Y Axis"),
            width: 800,
            height: 600,
            graph_type: GraphType::Line,
        }
    }
}

/// The two sides of a text with exactly one `:`.
pub open spec fn split_colon(s: Seq<char>) -> Option<(Seq<char>, Seq<char>)> {
    if exists|i: int| 0 <= i < s.len() && s[i] == ':' && forall|j: int| 0 <= j < s.len() && j != i ==> s[j] != ':' {
        let i = choose|i: int| 0 <= i < s.len() && s[i] == ':' && forall|j: int| 0 <= j < s.len() && j != i ==> s[j] != ':';
        Some((s.take(i), s.skip(i + 1)))
    } else {
        None
    }
}

/// The number of values a range gives: its rows when it stays in one column,
/// otherwise its columns (taken along the first row).
pub open spec fn axis_len(start: (i16, i16), end: (i16, i16)) -> int {
    if start.1 == end.1 { end.0 - start.0 + 1 } else { end.1 - start.1 + 1 }
}

/// The values a range gives, in order: down its column, or along its first row.
pub open spec fn axis_values(sheet: Spreadsheet, start: (i16, i16), end: (i16, i16)) -> Seq<i32> {
    let n = axis_len(start, end);
    if start.1 == end.1 {
        Seq::new(if n < 0 { 0 } else { n as nat }, |k: int| sheet.cell(start.0 + k, start.1 as int).value)
    } else {
        Seq::new(if n < 0 { 0 } else { n as nat }, |k: int| sheet.cell(start.0 as int, start.1 + k).value)
    }
}

/// The last row-major position a range reads fits in `i16`.
pub open spec fn axis_fits(cols: int, start: (i16, i16), end: (i16, i16)) -> bool {
    if start.1 == end.1 {
        (end.0 - 1) * cols + (start.1 - 1) <= 32767
    } else {
        (start.0 - 1) * cols + (end.1 - 1) <= 32767
    }
}

/// The result of reading `x_range` and `y_range` (each `CELL:CELL`) of a grid.
pub open spec fn ranges_result(sheet: Spreadsheet, x: Seq<char>, y: Seq<char>) -> Result<(Seq<i32>, Seq<i32>), Seq<char>> {
    let rows = sheet.rows as int;
    let cols = sheet.cols as int;
    match (split_colon(x), split_colon(y)) {
        (Some(xp), Some(yp)) => {
            let xs = parse_cell_name_spec(rows, cols, xp.0);
            let xe = parse_cell_name_spec(rows, cols, xp.1);
            let ys = parse_cell_name_spec(rows, cols, yp.0);
            let ye = parse_cell_name_spec(rows, cols, yp.1);
            if xs is None {
                Err("Invalid start cell in X range"@)
            } else if xe is None {
                Err("Invalid end cell in X range"@)
            } else if ys is None {
                Err("Invalid start cell in Y range"@)
            } else if ye is None {
                Err("Invalid end cell in Y range"@)
            } else if axis_len(xs.unwrap(), xe.unwrap()) != axis_len(ys.unwrap(), ye.unwrap()) {
                Err("X and Y ranges must have the same length"@)
            } else {
                Ok((axis_values(sheet, xs.unwrap(), xe.unwrap()), axis_values(sheet, ys.unwrap(), ye.unwrap())))
            }
        },
        _ => Err("Invalid range format. Expected format: A1:A10"@),
    }
}

/// Reading the ranges ends without fault: two ranges of the same length have
/// a length of at least 0, and the positions they read fit in `i16`.
pub open spec fn ranges_ok(sheet: Spreadsheet, x: Seq<char>, y: Seq<char>) -> bool {
    let rows = sheet.rows as int;
    let cols = sheet.cols as int;
    match (split_colon(x), split_colon(y)) {
        (Some(xp), Some(yp)) => {
            let xs = parse_cell_name_spec(rows, cols, xp.0);
            let xe = parse_cell_name_spec(rows, cols, xp.1);
            let ys = parse_cell_name_spec(rows, cols, yp.0);
            let ye = parse_cell_name_spec(rows, cols, yp.1);
            (xs is Some && xe is Some && ys is Some && ye is Some
                && axis_len(xs.unwrap(), xe.unwrap()) == axis_len(ys.unwrap(), ye.unwrap())) ==> {
                &&& axis_len(xs.unwrap(), xe.unwrap()) >= 0
                &&& axis_fits(cols, xs.unwrap(), xe.unwrap())
                &&& axis_fits(cols, ys.unwrap(), ye.unwrap())
            }
        },
        _ => true,
    }
}

/// The position of the only `:` of the text, if it has exactly one.
fn find_single_colon(v: &Vec<char>) -> (r: Option<usize>)
    ensures
        match r {
            Some(i) => i < v@.len() && split_colon(v@) == Some((v@.take(i as int), v@.skip(i + 1))),
            None => split_colon(v@) is None,
        },
{
    let n = v.len();
    let mut found: Option<usize> = None;
    let mut count: usize = 0;
    for i in 0..n
        invariant
            n == v@.len(),
            count <= i,
            count == 0 ==> found is None && forall|j: int| 0 <= j < i ==> v@[j] != ':',
            count == 1 ==> (found matches Some(f) && f < i && v@[f as int] == ':'
                && forall|j: int| 0 <= j < i && j != f ==> v@[j] != ':'),
            count >= 2 ==> exists|a: int, b: int| 0 <= a < b < i && v@[a] == ':' && v@[b] == ':',
    {
        if v[i] == ':' {
            if count == 1 {
                let f = found.unwrap();
                assert(v@[f as int] == ':' && v@[i as int] == ':');
            }
            if count == 0 {
                found = Some(i);
            }
            if count < 2 {
                count = count + 1;
            }
        }
    }
    if count == 1 {
        let f = found.unwrap();
        proof {
            let i = choose|i: int| 0 <= i < v@.len() && v@[i] == ':' && forall|j: int| 0 <= j < v@.len() && j != i ==> v@[j] != ':';
            assert(i == f);
        }
        found
    } else {
        proof {
            if count >= 2 {
                let (a, b) = choose|a: int, b: int| 0 <= a < b < n && v@[a] == ':' && v@[b] == ':';
                assert forall|i: int| !(0 <= i < v@.len() && v@[i] == ':' && forall|j: int| 0 <= j < v@.len() && j != i ==> v@[j] != ':') by {
                    if 0 <= i < v@.len() && v@[i] == ':' {
                        if i != a {
                            assert(v@[a] == ':');
                        } else {
                            assert(v@[b] == ':');
                        }
                    }
                }
            }
        }
        None
    }
}

/// The values of the cells along a range, in order; see [`axis_values`].
fn axis_read(sheet: &Spreadsheet, start: (i16, i16), end: (i16, i16)) -> (r: Vec<i32>)
    requires
        sheet.grid_wf(),
        sheet.valid(start.0 as int, start.1 as int),
        sheet.valid(end.0 as int, end.1 as int),
        axis_fits(sheet.cols as int, start, end),
    ensures
        r@ == axis_values(*sheet, start, end),
{
    let mut out: Vec<i32> = Vec::new();
    if start.1 == end.1 {
        let mut row: i32 = start.0 as i32;
        while row <= end.0 as i32
            invariant
                sheet.grid_wf(),
                sheet.valid(start.0 as int, start.1 as int),
                sheet.valid(end.0 as int, end.1 as int),
                start.1 == end.1,
                start.0 <= row,
                row <= end.0 + 1 || row == start.0,
                out@ == axis_values(*sheet, start, end).take(row - start.0),
            decreases end.0 + 1 - row,
        {
            let idx = sheet.index_of(row as i16, start.1);
            assert(sheet.slot(row as int, start.1 as int) is Some);
            let v = match &sheet.cells[idx] {
                Some(b) => b.value,
                None => 0,
            };
            out.push(v);
            assert(axis_values(*sheet, start, end).take(row + 1 - start.0)
                == axis_values(*sheet, start, end).take(row - start.0).push(v));
            row = row + 1;
        }
        proof {
            if end.0 < start.0 {
                assert(axis_values(*sheet, start, end) == Seq::<i32>::empty());
            }
            assert(axis_values(*sheet, start, end).take(axis_values(*sheet, start, end).len() as int)
                == axis_values(*sheet, start, end));
        }
    } else {
        let mut col: i32 = start.1 as i32;
        while col <= end.1 as i32
            invariant
                sheet.grid_wf(),
                sheet.valid(start.0 as int, start.1 as int),
                sheet.valid(end.0 as int, end.1 as int),
                start.1 != end.1,
                start.1 <= col,
                col <= end.1 + 1 || col == start.1,
                out@ == axis_values(*sheet, start, end).take(col - start.1),
            decreases end.1 + 1 - col,
        {
            let idx = sheet.index_of(start.0, col as i16);
            assert(sheet.slot(start.0 as int, col as int) is Some);
            let v = match &sheet.cells[idx] {
                Some(b) => b.value,
                None => 0,
            };
            out.push(v);
            assert(axis_values(*sheet, start, end).take(col + 1 - start.1)
                == axis_values(*sheet, start, end).take(col - start.1).push(v));
            col = col + 1;
        }
        proof {
            if end.1 < start.1 {
                assert(axis_values(*sheet, start, end) == Seq::<i32>::empty());
            }
            assert(axis_values(*sheet, start, end).take(axis_values(*sheet, start, end).len() as int)
                == axis_values(*sheet, start, end));
        }
    }
    out
}

/// Whether two ranges can be read without overflow (see [`ranges_ok`]), the
/// condition under which [`parse_ranges`] and [`graph_data`] may be called.
pub fn ranges_readable(spreadsheet: &Spreadsheet, x_range: &str, y_range: &str) -> (r: bool)
    ensures
        r == ranges_ok(*spreadsheet, x_range@, y_range@),
{
    let x = chars_of(x_range);
    let y = chars_of(y_range);
    let rows = spreadsheet.rows;
    let cols = spreadsheet.cols;
    let (xc, yc) = match (find_single_colon(&x), find_single_colon(&y)) {
        (Some(a), Some(b)) => (a, b),
        _ => { return true; },
    };
    proof {
        assert(x@.subrange(0, xc as int) == x@.take(xc as int));
        assert(x@.subrange(xc + 1, x@.len() as int) == x@.skip(xc + 1));
        assert(y@.subrange(0, yc as int) == y@.take(yc as int));
        assert(y@.subrange(yc + 1, y@.len() as int) == y@.skip(yc + 1));
    }
    let xs = parse_cell_name_chars(&x, 0, xc, rows, cols);
    let xe = parse_cell_name_chars(&x, xc + 1, x.len(), rows, cols);
    let ys = parse_cell_name_chars(&y, 0, yc, rows, cols);
    let ye = parse_cell_name_chars(&y, yc + 1, y.len(), rows, cols);
    match (xs, xe, ys, ye) {
        (Some(a), Some(b), Some(c), Some(d)) => {
            let x_len: i64 = if a.1 == b.1 { b.0 as i64 - a.0 as i64 + 1 } else { b.1 as i64 - a.1 as i64 + 1 };
            let y_len: i64 = if c.1 == d.1 { d.0 as i64 - c.0 as i64 + 1 } else { d.1 as i64 - c.1 as i64 + 1 };
            if x_len != y_len {
                return true;
            }
            let c64 = cols as i64;
            assert(-2000000000 <= (b.0 as i64 - 1) * c64 <= 2000000000) by (nonlinear_arith)
                requires -32768 <= b.0 <= 32767, -32768 <= c64 <= 32767;
            assert(-2000000000 <= (a.0 as i64 - 1) * c64 <= 2000000000) by (nonlinear_arith)
                requires -32768 <= a.0 <= 32767, -32768 <= c64 <= 32767;
            assert(-2000000000 <= (d.0 as i64 - 1) * c64 <= 2000000000) by (nonlinear_arith)
                requires -32768 <= d.0 <= 32767, -32768 <= c64 <= 32767;
            assert(-2000000000 <= (c.0 as i64 - 1) * c64 <= 2000000000) by (nonlinear_arith)
                requires -32768 <= c.0 <= 32767, -32768 <= c64 <= 32767;
            let x_fits = if a.1 == b.1 {
                (b.0 as i64 - 1) * c64 + (a.1 as i64 - 1) <= 32767
            } else {
                (a.0 as i64 - 1) * c64 + (b.1 as i64 - 1) <= 32767
            };
            let y_fits = if c.1 == d.1 {
                (d.0 as i64 - 1) * c64 + (c.1 as i64 - 1) <= 32767
            } else {
                (c.0 as i64 - 1) * c64 + (d.1 as i64 - 1) <= 32767
            };
            x_len >= 0 && x_fits && y_fits
        },
        _ => true,
    }
}

/// The values of two ranges of the grid, for the X and Y axes of a graph;
/// see [`ranges_result`].
pub fn parse_ranges(spreadsheet: &Spreadsheet, x_range: &str, y_range: &str) -> (r: Result<(Vec<i32>, Vec<i32>), String>)
    requires
        spreadsheet.grid_wf(),
        ranges_ok(*spreadsheet, x_range@, y_range@),
    ensures
        match (r, ranges_result(*spreadsheet, x_range@, y_range@)) {
            (Ok((xv, yv)), Ok((xs, ys))) => xv@ == xs && yv@ == ys,
            (Err(e), Err(m)) => e@ == m,
            _ => false,
        },
{
    let x = chars_of(x_range);
    let y = chars_of(y_range);
    let rows = spreadsheet.rows;
    let cols = spreadsheet.cols;
    let (xc, yc) = match (find_single_colon(&x), find_single_colon(&y)) {
        (Some(a), Some(b)) => (a, b),
        _ => { return Err(owned("Invalid range format. Expected format: A1:A10")); },
    };
    proof {
        assert(x@.subrange(0, xc as int) == x@.take(xc as int));
        assert(x@.subrange(xc + 1, x@.len() as int) == x@.skip(xc + 1));
        assert(y@.subrange(0, yc as int) == y@.take(yc as int));
        assert(y@.subrange(yc + 1, y@.len() as int) == y@.skip(yc + 1));
    }
    let xs = match parse_cell_name_chars(&x, 0, xc, rows, cols) {
        Some(c) => c,
        None => { return Err(owned("Invalid start cell in X range")); },
    };
    let xe = match parse_cell_name_chars(&x, xc + 1, x.len(), rows, cols) {
        Some(c) => c,
        None => { return Err(owned("Invalid end cell in X range")); },
    };
    let ys = match parse_cell_name_chars(&y, 0, yc, rows, cols) {
        Some(c) => c,
        None => { return Err(owned("Invalid start cell in Y range")); },
    };
    let ye = match parse_cell_name_chars(&y, yc + 1, y.len(), rows, cols) {
        Some(c) => c,
        None => { return Err(owned("Invalid end cell in Y range")); },
    };
    proof {
        crate::naming::lemma_cell_name_valid(rows as int, cols as int, x@.take(xc as int));
        crate::naming::lemma_cell_name_valid(rows as int, cols as int, x@.skip(xc + 1));
        crate::naming::lemma_cell_name_valid(rows as int, cols as int, y@.take(yc as int));
        crate::naming::lemma_cell_name_valid(rows as int, cols as int, y@.skip(yc + 1));
    }
    let x_len: i32 = if xs.1 == xe.1 { xe.0 as i32 - xs.0 as i32 + 1 } else { xe.1 as i32 - xs.1 as i32 + 1 };
    let y_len: i32 = if ys.1 == ye.1 { ye.0 as i32 - ys.0 as i32 + 1 } else { ye.1 as i32 - ys.1 as i32 + 1 };
    if x_len != y_len {
        return Err(owned("X and Y ranges must have the same length"));
    }
    let xv = axis_read(spreadsheet, xs, xe);
    let yv = axis_read(spreadsheet, ys, ye);
    Ok((xv, yv))
}

/// The points of a graph: the X and Y values of two ranges, paired in order;
/// see [`parse_ranges`].
pub fn graph_data(spreadsheet: &Spreadsheet, x_range: &str, y_range: &str) -> (r: Result<Vec<(i32, i32)>, String>)
    requires
        spreadsheet.grid_wf(),
        ranges_ok(*spreadsheet, x_range@, y_range@),
    ensures
        match (r, ranges_result(*spreadsheet, x_range@, y_range@)) {
            (Ok(pts), Ok((xs, ys))) => pts@.len() == xs.len() && forall|k: int| 0 <= k < xs.len() ==> #[trigger] pts@[k] == (xs[k], ys[k]),
            (Err(e), Err(m)) => e@ == m,
            _ => false,
        },
{
    match parse_ranges(spreadsheet, x_range, y_range) {
        Ok((xv, yv)) => {
            let n = if xv.len() < yv.len() { xv.len() } else { yv.len() };
            let mut pts: Vec<(i32, i32)> = Vec::new();
            for k in 0..n
                invariant
                    n <= xv@.len(),
                    n <= yv@.len(),
                    pts@.len() == k,
                    forall|j: int| 0 <= j < k ==> #[trigger] pts@[j] == (xv@[j], yv@[j]),
            {
                pts.push((xv[k], yv[k]));
            }
            Ok(pts)
        },
        Err(e) => Err(e),
    }
}

/// The drawing bounds of a set of points: the least and greatest first
/// coordinate, then the least and greatest second coordinate; an axis with no
/// point spans 0 to 100.
pub fn data_bounds(data: &Vec<(i32, i32)>) -> (r: (i32, i32, i32, i32))
    ensures
        data@.len() == 0 ==> r == (0i32, 100i32, 0i32, 100i32),
        data@.len() > 0 ==> {
            &&& exists|k: int| 0 <= k < data@.len() && data@[k].0 == r.0
            &&& exists|k: int| 0 <= k < data@.len() && data@[k].0 == r.1
            &&& exists|k: int| 0 <= k < data@.len() && data@[k].1 == r.2
            &&& exists|k: int| 0 <= k < data@.len() && data@[k].1 == r.3
            &&& forall|k: int| 0 <= k < data@.len() ==> r.0 <= #[trigger] data@[k].0 <= r.1
            &&& forall|k: int| 0 <= k < data@.len() ==> r.2 <= #[trigger] data@[k].1 <= r.3
        },
{
    if data.len() == 0 {
        return (0, 100, 0, 100);
    }
    let mut b = (data[0].0, data[0].0, data[0].1, data[0].1);
    let ghost mut w: (int, int, int, int) = (0, 0, 0, 0);
    for k in 1..data.len()
        invariant
            data@.len() > 0,
            0 <= w.0 < k && data@[w.0].0 == b.0,
            0 <= w.1 < k && data@[w.1].0 == b.1,
            0 <= w.2 < k && data@[w.2].1 == b.2,
            0 <= w.3 < k && data@[w.3].1 == b.3,
            forall|j: int| 0 <= j < k ==> b.0 <= #[trigger] data@[j].0 <= b.1,
            forall|j: int| 0 <= j < k ==> b.2 <= #[trigger] data@[j].1 <= b.3,
    {
        let (x, y) = data[k];
        if x < b.0 {
            b.0 = x;
            proof { w.0 = k as int; }
        }
        if x > b.1 {
            b.1 = x;
            proof { w.1 = k as int; }
        }
        if y < b.2 {
            b.2 = y;
            proof { w.2 = k as int; }
        }
        if y > b.3 {
            b.3 = y;
            proof { w.3 = k as int; }
        }
    }
    b
}

/// The points are in increasing order of their first coordinate.
pub open spec fn sorted_by_first(s: Seq<(i32, i32)>) -> bool {
    forall|i: int, j: int| 0 <= i < j < s.len() ==> (#[trigger] s[i]).0 <= (#[trigger] s[j]).0
}

/// A point has first coordinate `v`.
pub open spec fn x_is(v: i32) -> spec_fn((i32, i32)) -> bool {
    |p: (i32, i32)| p.0 == v
}

/// The points whose first coordinate is `v`, in order.
pub open spec fn with_x(s: Seq<(i32, i32)>, v: i32) -> Seq<(i32, i32)> {
    s.filter(x_is(v))
}

/// A sequence none of whose points has first coordinate `v` keeps none.
proof fn lemma_with_x_none(s: Seq<(i32, i32)>, v: i32)
    requires
        forall|k: int| 0 <= k < s.len() ==> (#[trigger] s[k]).0 != v,
    ensures
        with_x(s, v) == Seq::<(i32, i32)>::empty(),
{
    let f = with_x(s, v);
    if f.len() > 0 {
        s.lemma_filter_pred(x_is(v), 0);
        s.lemma_filter_contains_rev(x_is(v), f[0]);
        let k = s.index_of(f[0]);
        assert(s[k].0 != v);
    }
}

/// The points sorted by their first coordinate (for an area graph, whose
/// outline runs from left to right), stably: in increasing order of the first
/// coordinate, and the points that share a first coordinate in the order
/// they came.
pub fn sorted_by_x(data: &Vec<(i32, i32)>) -> (r: Vec<(i32, i32)>)
    ensures
        sorted_by_first(r@),
        forall|v: i32| #[trigger] with_x(r@, v) == with_x(data@, v),
        r@.to_multiset() == data@.to_multiset(),
{
    broadcast use vstd::seq_lib::group_to_multiset_ensures;
    broadcast use vstd::seq::Seq::filter_distributes_over_add;
    let mut out: Vec<(i32, i32)> = Vec::new();
    let n = data.len();
    for k in 0..n
        invariant
            n == data@.len(),
            out@.to_multiset() == data@.take(k as int).to_multiset(),
            forall|v: i32| #[trigger] with_x(out@, v) == with_x(data@.take(k as int), v),
            sorted_by_first(out@),
    {
        let x = data[k];
        let mut i: usize = 0;
        while i < out.len() && out[i].0 <= x.0
            invariant
                i <= out@.len(),
                forall|j: int| 0 <= j < i ==> (#[trigger] out@[j]).0 <= x.0,
            decreases out@.len() - i,
        {
            i = i + 1;
        }
        let ghost old_out = out@;
        proof {
            assert forall|j: int| i <= j < old_out.len() implies (#[trigger] old_out[j]).0 > x.0 by {
                assert(old_out[i as int].0 > x.0);
                if j > i {
                    assert(old_out[i as int].0 <= old_out[j].0);
                }
            }
        }
        out.insert(i, x);
        proof {
            let front = old_out.take(i as int);
            let back = old_out.skip(i as int);
            assert(out@ == old_out.insert(i as int, x));
            assert(out@ =~= front + seq![x] + back);
            assert(old_out =~= front + back);
            assert(out@.remove(i as int) =~= old_out);
            assert(out@[i as int] == x);
            assert(out@.to_multiset() =~= old_out.to_multiset().insert(x)) by {
                assert(out@.remove(i as int).to_multiset() =~= out@.to_multiset().remove(x));
                assert(out@.to_multiset().count(x) > 0) by {
                    assert(out@.contains(x));
                }
            }
            assert(data@.take(k + 1) =~= data@.take(k as int).push(x));
            assert forall|v: i32| #[trigger] with_x(out@, v) == with_x(data@.take(k + 1), v) by {
                let pred = x_is(v);
                data@.take(k as int).lemma_filter_push(x, pred);
                assert(with_x(out@, v) == with_x(front, v) + with_x(seq![x], v) + with_x(back, v));
                assert(with_x(old_out, v) == with_x(front, v) + with_x(back, v));
                seq![x].lemma_filter_push(x, pred);
                assert(seq![x] =~= Seq::<(i32, i32)>::empty().push(x));
                Seq::<(i32, i32)>::empty().lemma_filter_push(x, pred);
                assert(Seq::<(i32, i32)>::empty().filter(pred) =~= Seq::<(i32, i32)>::empty()) by {
                    Seq::<(i32, i32)>::empty().lemma_filter_len(pred);
                }
                if x.0 == v {
                    assert forall|j: int| 0 <= j < back.len() implies (#[trigger] back[j]).0 != v by {
                        assert(back[j] == old_out[i + j]);
                    }
                    lemma_with_x_none(back, v);
                    assert(with_x(seq![x], v) =~= seq![x]);
                    assert(with_x(out@, v) =~= with_x(old_out, v).push(x));
                } else {
                    assert(with_x(seq![x], v) =~= Seq::<(i32, i32)>::empty());
                    assert(with_x(out@, v) =~= with_x(old_out, v));
                }
            }
            assert forall|a: int, b: int| 0 <= a < b < out@.len() implies (#[trigger] out@[a]).0 <= (#[trigger] out@[b]).0 by {
                if b < i {
                    assert(out@[a] == old_out[a] && out@[b] == old_out[b]);
                } else if b == i {
                    assert(out@[a] == old_out[a]);
                } else if a < i {
                    assert(out@[a] == old_out[a] && out@[b] == old_out[b - 1]);
                } else if a == i {
                    assert(out@[b] == old_out[b - 1]);
                } else {
                    assert(out@[a] == old_out[a - 1] && out@[b] == old_out[b - 1]);
                }
            }
        }
    }
    assert(data@.take(n as int) =~= data@);
    out
}

} // verus!
