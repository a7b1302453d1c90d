use vstd::prelude::*;
use crate::text::{chars_of, string_from_chars, parse_i32_spec, parse_int_range};
use crate::spreadsheet::{Operand, ParsedRHS, Spreadsheet};
use crate::command::command_spec;
use crate::downloader::cell_name_text;
use crate::assign::{applies, copy_fits, is_copy_range, range_args};

verus! {

/// Why loading a spreadsheet failed.
#[derive(Debug)]
pub enum LoadError {
    /// The CSV text has no line.
    EmptyCsv,
    /// The workbook has no worksheet.
    NoSheets,
    /// The worksheet has no cell.
    EmptyExcel,
    /// The file's extension is neither `csv` nor `xlsx` nor `xls`.
    UnsupportedExtension(String),
    /// The file name has no extension.
    NoExtension,
}

/// The number of fields of a CSV line from position `i`, with `in_quotes`
/// telling whether a quoted field is open: commas outside quotes separate
/// fields, and a doubled quote is skipped.
pub open spec fn csv_count_from(s: Seq<char>, i: int, in_quotes: bool) -> int
    decreases s.len() - i,
{
    if i < 0 || i >= s.len() {
        1
    } else if s[i] == '"' {
        if i + 1 < s.len() && s[i + 1] == '"' {
            csv_count_from(s, i + 2, in_quotes)
        } else {
            csv_count_from(s, i + 1, !in_quotes)
        }
    } else if s[i] == ',' && !in_quotes {
        1 + csv_count_from(s, i + 1, in_quotes)
    } else {
        csv_count_from(s, i + 1, in_quotes)
    }
}

/// The number of fields of a CSV line.
pub open spec fn csv_field_count(s: Seq<char>) -> int {
    csv_count_from(s, 0, false)
}

pub proof fn lemma_csv_count_bound(s: Seq<char>, i: int, in_quotes: bool)
    requires
        0 <= i <= s.len(),
    ensures
        1 <= csv_count_from(s, i, in_quotes) <= s.len() - i + 1,
    decreases s.len() - i,
{
    if i < s.len() {
        if s[i] == '"' && i + 1 < s.len() && s[i + 1] == '"' {
            lemma_csv_count_bound(s, i + 2, in_quotes);
        } else if s[i] == '"' {
            lemma_csv_count_bound(s, i + 1, !in_quotes);
        } else {
            lemma_csv_count_bound(s, i + 1, in_quotes);
        }
    }
}

/// The number of fields of a CSV line: one more than the number of commas
/// outside quotes.
pub fn csv_count_columns(line: &str) -> (r: Result<usize, LoadError>)
    requires
        line@.len() < usize::MAX,
    ensures
        r matches Ok(n) && n as int == csv_field_count(line@),
{
    let v = chars_of(line);
    let n = v.len();
    let mut columns: usize = 0;
    let mut in_quotes = false;
    let mut i: usize = 0;
    proof {
        lemma_csv_count_bound(v@, 0, false);
    }
    while i < n
        invariant
            n == v@.len(),
            v@ == line@,
            i <= n,
            columns <= i,
            columns + csv_count_from(v@, i as int, in_quotes) == csv_field_count(v@),
        decreases n - i,
    {
        let c = v[i];
        if c == '"' {
            if i + 1 < n {
                if v[i + 1] == '"' {
                    i = i + 2;
                } else {
                    in_quotes = !in_quotes;
                    i = i + 1;
                }
            } else {
                in_quotes = !in_quotes;
                i = i + 1;
            }
        } else if c == ',' && !in_quotes {
            columns = columns + 1;
            i = i + 1;
        } else {
            i = i + 1;
        }
    }
    Ok(columns + 1)
}

/// The fields of a CSV line from position `i`, `current` being the field
/// read so far and `in_quotes` telling whether quotes are open: a comma
/// outside quotes ends a field, a doubled quote inside quotes stands for one
/// quote, and any other quote opens or closes quotes.
pub open spec fn csv_fields_from(s: Seq<char>, i: int, current: Seq<char>, in_quotes: bool) -> Seq<Seq<char>>
    decreases s.len() - i,
{
    if i < 0 || i >= s.len() {
        seq![current]
    } else if s[i] == '"' {
        if i + 1 < s.len() && s[i + 1] == '"' && in_quotes {
            csv_fields_from(s, i + 2, current.push('"'), in_quotes)
        } else {
            csv_fields_from(s, i + 1, current, !in_quotes)
        }
    } else if s[i] == ',' && !in_quotes {
        seq![current] + csv_fields_from(s, i + 1, Seq::empty(), in_quotes)
    } else {
        csv_fields_from(s, i + 1, current.push(s[i]), in_quotes)
    }
}

/// The fields of a CSV line.
pub open spec fn csv_fields(s: Seq<char>) -> Seq<Seq<char>> {
    csv_fields_from(s, 0, Seq::empty(), false)
}

/// The text of each string.
pub open spec fn texts(v: Seq<String>) -> Seq<Seq<char>> {
    v.map_values(|x: String| x@)
}

/// The fields of a CSV line; see [`csv_fields`].
pub fn parse_csv_row(line: &str) -> (r: Result<Vec<String>, LoadError>)
    ensures
        r matches Ok(fields) && texts(fields@) == csv_fields(line@),
{
    let v = chars_of(line);
    let n = v.len();
    let mut result: Vec<String> = Vec::new();
    let mut current: Vec<char> = Vec::new();
    let mut in_quotes = false;
    let mut i: usize = 0;
    while i < n
        invariant
            n == v@.len(),
            v@ == line@,
            i <= n,
            texts(result@) + csv_fields_from(v@, i as int, current@, in_quotes) == csv_fields(v@),
        decreases n - i,
    {
        let c = v[i];
        if c == '"' {
            if i + 1 < n && v[i + 1] == '"' && in_quotes {
                current.push('"');
                i = i + 2;
            } else {
                in_quotes = !in_quotes;
                i = i + 1;
            }
        } else if c == ',' && !in_quotes {
            let field = string_from_chars(&current);
            let ghost before = result@;
            result.push(field);
            proof {
                assert(texts(result@) == texts(before).push(current@));
                assert(texts(before) + (seq![current@] + csv_fields_from(v@, i + 1, Seq::empty(), in_quotes))
                    == texts(before).push(current@) + csv_fields_from(v@, i + 1, Seq::empty(), in_quotes));
            }
            current = Vec::new();
            i = i + 1;
        } else {
            current.push(c);
            i = i + 1;
        }
    }
    let field = string_from_chars(&current);
    let ghost before = result@;
    result.push(field);
    proof {
        assert(texts(result@) == texts(before).push(current@));
        assert(texts(before) + seq![current@] == texts(before).push(current@));
    }
    Ok(result)
}


/// The kind of file a spreadsheet is loaded from.
#[derive(Clone, Copy, Debug, PartialEq, Eq, Structural)]
pub enum FileKind {
    Csv,
    Excel,
}

/// The extension of a path, as `Path::extension` gives it.
pub uninterp spec fn path_extension_of(path: Seq<char>) -> Option<Seq<char>>;

/// `Path::extension`, as text. Its result is named by [`path_extension_of`];
/// per its documentation it is the part of the file name after the last
/// `.`, so it holds neither `.` nor `/`. Which paths have one (a file name
/// that starts with its only `.` has none) is left to the name.
#[verifier::external_body]
fn path_extension(path: &str) -> (r: Option<String>)
    ensures
        match r {
            Some(e) => path_extension_of(path@) == Some(e@) && !e@.contains('.') && !e@.contains('/'),
            None => path_extension_of(path@) is None,
        },
{
    std::path::Path::new(path).extension().and_then(|e| e.to_str()).map(|e| e.to_string())
}

/// The lower-case form of a string (`str::to_lowercase`, Unicode case mapping).
pub uninterp spec fn unicode_lower(s: Seq<char>) -> Seq<char>;

pub open spec fn ascii_lower_char(c: char) -> char {
    if 'A' <= c && c <= 'Z' { ((c as u32) + 32) as char } else { c }
}

/// `str::to_lowercase`. Its result is named by [`unicode_lower`]; on ASCII
/// text it maps each upper-case letter to its lower-case letter and keeps
/// every other character, as its documentation and that of
/// `to_ascii_lowercase` agree.
#[verifier::external_body]
fn to_lowercase(s: &str) -> (r: String)
    ensures
        r@ == unicode_lower(s@),
        crate::spreadsheet::is_ascii_text(s@) ==> r@ == s@.map_values(|c: char| ascii_lower_char(c)),
{
    s.to_lowercase()
}

pub(crate) fn text_is(s: &str, t: &[char]) -> (r: bool)
    ensures
        r == (s@ == t@),
{
    let v = chars_of(s);
    if v.len() != t.len() {
        return false;
    }
    for i in 0..v.len()
        invariant
            v@ == s@,
            v@.len() == t@.len(),
            forall|j: int| 0 <= j < i ==> v@[j] == t@[j],
    {
        if v[i] != t[i] {
            return false;
        }
    }
    assert(v@ == t@);
    true
}

/// The kind of file a lower-case extension names: `csv`, or `xlsx` and
/// `xls`; any other is unsupported.
pub open spec fn kind_of_extension(ext: Seq<char>) -> Result<FileKind, LoadError> {
    if ext == seq!['c', 's', 'v'] {
        Ok(FileKind::Csv)
    } else if ext == seq!['x', 'l', 's', 'x'] || ext == seq!['x', 'l', 's'] {
        Ok(FileKind::Excel)
    } else {
        Err(LoadError::UnsupportedExtension(choose|t: String| t@ == ext))
    }
}

/// The kind of file for a lower-case extension; see [`kind_of_extension`].
pub fn file_kind(ext: String) -> (r: Result<FileKind, LoadError>)
    ensures
        match (r, kind_of_extension(ext@)) {
            (Ok(k), Ok(j)) => k == j,
            (Err(LoadError::UnsupportedExtension(t)), Err(_)) => t@ == ext@,
            _ => false,
        },
{
    let csv = ['c', 's', 'v'];
    let xlsx = ['x', 'l', 's', 'x'];
    let xls = ['x', 'l', 's'];
    assert(csv@ == seq!['c', 's', 'v']);
    assert(xlsx@ == seq!['x', 'l', 's', 'x']);
    assert(xls@ == seq!['x', 'l', 's']);
    if text_is(ext.as_str(), &csv) {
        Ok(FileKind::Csv)
    } else if text_is(ext.as_str(), &xlsx) || text_is(ext.as_str(), &xls) {
        Ok(FileKind::Excel)
    } else {
        Err(LoadError::UnsupportedExtension(ext))
    }
}

/// Which loader a path calls for, by its extension compared case-insensitively:
/// `csv`, or `xlsx` and `xls`. A path without extension, or with another one,
/// cannot be loaded.
pub fn load_spreadsheet(path: &str) -> (r: Result<FileKind, LoadError>)
    ensures
        match path_extension_of(path@) {
            None => r matches Err(LoadError::NoExtension),
            Some(e) => match (r, kind_of_extension(unicode_lower(e))) {
                (Ok(k), Ok(j)) => k == j,
                (Err(LoadError::UnsupportedExtension(t)), Err(_)) => t@ == unicode_lower(e),
                _ => false,
            },
        },
{
    match path_extension(path) {
        Some(ext) => file_kind(to_lowercase(ext.as_str())),
        None => Err(LoadError::NoExtension),
    }
}

/// The formula a CSV field gives cell `(row, col)` of a grid of `rows` x
/// `cols`: an `i32` constant; after `=`, the formula the assignment command
/// parses to, or 0 when it is not valid; 0 for any other text.
pub open spec fn csv_cell_formula(rows: int, cols: int, row: int, col: int, field: Seq<char>) -> ParsedRHS {
    match parse_i32_spec(field) {
        Some(v) => ParsedRHS::SingleValue(Operand::Number(v)),
        None => if field.len() > 0 && field[0] == '=' {
            let c = command_spec(rows, cols, cell_name_text(row, col), field.skip(1));
            if c.0 {
                c.3
            } else {
                ParsedRHS::SingleValue(Operand::Number(0))
            }
        } else {
            ParsedRHS::SingleValue(Operand::Number(0))
        },
    }
}

/// The assignments for row `r` (counted from 0) from its fields: one per
/// field, left to right, for the columns of the grid.
pub open spec fn csv_row_plan(rows: int, cols: int, r: int, fields: Seq<Seq<char>>) -> Seq<((i16, i16), ParsedRHS)> {
    let n = if fields.len() < cols { fields.len() as int } else { cols };
    Seq::new(n as nat, |c: int| (((r + 1) as i16, (c + 1) as i16), csv_cell_formula(rows, cols, r + 1, c + 1, fields[c])))
}

/// The assignments for the first `n` lines, in order.
pub open spec fn csv_plan(rows: int, cols: int, lines: Seq<Seq<char>>, n: int) -> Seq<((i16, i16), ParsedRHS)>
    decreases n,
{
    if n <= 0 {
        Seq::empty()
    } else {
        csv_plan(rows, cols, lines, n - 1) + csv_row_plan(rows, cols, n - 1, csv_fields(lines[n - 1]))
    }
}

/// Every `COPY` among the assignments can be carried out.
pub open spec fn copies_fit(rows: int, cols: int, plan: Seq<((i16, i16), ParsedRHS)>) -> bool {
    forall|k: int| 0 <= k < plan.len() && #[trigger] is_copy_range(plan[k].1) ==>
        copy_fits(rows, cols, range_args(plan[k].1).0, range_args(plan[k].1).1)
}

pub proof fn lemma_applies_concat(
    s1: Seq<Spreadsheet>, t1: Seq<Seq<char>>, w1: Seq<Seq<u32>>, p1: Seq<((i16, i16), ParsedRHS)>,
    s2: Seq<Spreadsheet>, t2: Seq<Seq<char>>, w2: Seq<Seq<u32>>, p2: Seq<((i16, i16), ParsedRHS)>,
)
    requires
        applies(s1, t1, w1, p1),
        applies(s2, t2, w2, p2),
        s1.last() == s2[0],
    ensures
        applies(s1 + s2.drop_first(), t1 + t2, w1 + w2, p1 + p2),
        (s1 + s2.drop_first()).last() == s2.last(),
        (s1 + s2.drop_first())[0] == s1[0],
        (w1 + w2).flatten() == w1.flatten() + w2.flatten(),
{
    let s = s1 + s2.drop_first();
    let t = t1 + t2;
    let w = w1 + w2;
    let p = p1 + p2;
    assert forall|k: int| 0 <= k < p.len() implies (#[trigger] s[k]).set_rel(s[k + 1], p[k].0, p[k].1, t[k], w[k]) by {
        if k < p1.len() {
            assert(s1[k].set_rel(s1[k + 1], p1[k].0, p1[k].1, t1[k], w1[k]));
            if k + 1 == p1.len() {
                assert(s[k + 1] == s1.last());
            }
        } else {
            let j = k - p1.len();
            assert(s2[j].set_rel(s2[j + 1], p2[j].0, p2[j].1, t2[j], w2[j]));
            if j == 0 {
                assert(s[k] == s1.last());
            }
        }
    }
    vstd::seq_lib::lemma_flatten_concat(w1, w2);
}

pub proof fn lemma_applies_push(
    states: Seq<Spreadsheet>, statuses: Seq<Seq<char>>, waits: Seq<Seq<u32>>, plan: Seq<((i16, i16), ParsedRHS)>,
    next: Spreadsheet, p: (i16, i16), f: ParsedRHS, status: Seq<char>, wait: Seq<u32>,
)
    requires
        applies(states, statuses, waits, plan),
        states.last().set_rel(next, p, f, status, wait),
    ensures
        applies(states.push(next), statuses.push(status), waits.push(wait), plan.push((p, f))),
        states.push(next)[0] == states[0],
{
    let s = states.push(next);
    let t = statuses.push(status);
    let w = waits.push(wait);
    let q = plan.push((p, f));
    assert forall|k: int| 0 <= k < q.len() implies (#[trigger] s[k]).set_rel(s[k + 1], q[k].0, q[k].1, t[k], w[k]) by {
        if k < plan.len() {
            assert(states[k].set_rel(states[k + 1], plan[k].0, plan[k].1, statuses[k], waits[k]));
        }
    }
}

/// Appends the items of `more`.
pub fn append_all(v: &mut Vec<u32>, more: &Vec<u32>)
    ensures
        final(v)@ == old(v)@ + more@,
{
    let ghost base: Seq<u32> = old(v)@;
    let m = more.len();
    for i in 0..m
        invariant
            m == more@.len(),
            v@ == base + more@.take(i as int),
    {
        v.push(more[i]);
        assert(more@.take(i + 1) == more@.take(i as int).push(more@[i as int]));
    }
    assert(more@.take(m as int) == more@);
}

/// The formula a CSV field gives cell `(row, col)`; see [`csv_cell_formula`].
fn csv_field_formula(sheet: &Spreadsheet, row: i16, col: i16, field: &str) -> (f: ParsedRHS)
    requires
        sheet.valid(row as int, col as int),
    ensures
        f == csv_cell_formula(sheet.rows as int, sheet.cols as int, row as int, col as int, field@),
        is_copy_range(f) || sheet.formula_ok(f),
{
    let v = chars_of(field);
    let num = parse_int_range(&v, 0, v.len(), -0x8000_0000, 0x7fff_ffff);
    proof {
        assert(v@.subrange(0, v@.len() as int) == v@);
    }
    match num {
        Some(x) => ParsedRHS::SingleValue(Operand::Number(x as i32)),
        None => {
            if v.len() > 0 && v[0] == '=' {
                let mut rest: Vec<char> = Vec::new();
                for i in 1..v.len()
                    invariant
                        rest@ == v@.subrange(1, i as int),
                {
                    rest.push(v[i]);
                    assert(v@.subrange(1, i + 1) == v@.subrange(1, i as int).push(v@[i as int]));
                }
                assert(rest@ == v@.skip(1));
                let formula_str = string_from_chars(&rest);
                let name = Spreadsheet::get_cell_name(row, col);
                let (is_valid, _, _, f) = sheet.is_valid_command(name.as_str(), formula_str.as_str());
                if is_valid {
                    proof {
                        sheet.lemma_command_ok(name@, formula_str@);
                    }
                    f
                } else {
                    ParsedRHS::SingleValue(Operand::Number(0))
                }
            } else {
                ParsedRHS::SingleValue(Operand::Number(0))
            }
        },
    }
}

/// Assigns, in order, the formulas the fields of line `r` (counted from 0)
/// give the cells of row `r + 1`; see [`csv_row_plan`].
#[verifier::rlimit(40)]
fn apply_csv_row(sheet: &mut Box<Spreadsheet>, r: i16, fields: &Vec<String>) -> (sleeps: Vec<u32>)
    requires
        old(sheet).sheet_ok(),
        0 <= r < old(sheet).rows,
        copies_fit(old(sheet).rows as int, old(sheet).cols as int,
            csv_row_plan(old(sheet).rows as int, old(sheet).cols as int, r as int, texts(fields@))),
    ensures
        final(sheet).sheet_ok(),
        final(sheet).rows == old(sheet).rows,
        final(sheet).cols == old(sheet).cols,
        exists|states: Seq<Spreadsheet>, statuses: Seq<Seq<char>>, waits: Seq<Seq<u32>>| {
            &&& #[trigger] applies(states, statuses, waits,
                csv_row_plan(old(sheet).rows as int, old(sheet).cols as int, r as int, texts(fields@)))
            &&& states[0] == **old(sheet)
            &&& states.last() == **final(sheet)
            &&& sleeps@ == waits.flatten()
        },
{
    let ghost rows = sheet.rows as int;
    let ghost cols = sheet.cols as int;
    let ghost plan = csv_row_plan(rows, cols, r as int, texts(fields@));
    let ghost mut states: Seq<Spreadsheet> = seq![**sheet];
    let ghost mut statuses: Seq<Seq<char>> = Seq::empty();
    let ghost mut waits: Seq<Seq<u32>> = Seq::empty();
    let mut sleeps: Vec<u32> = Vec::new();
    let n: usize = if fields.len() < sheet.cols as usize { fields.len() } else { sheet.cols as usize };
    assert(n == plan.len());
    for c in 0..n
        invariant
            n == plan.len(),
            plan == csv_row_plan(rows, cols, r as int, texts(fields@)),
            rows == sheet.rows,
            cols == sheet.cols,
            0 <= r < rows,
            n <= fields@.len(),
            n <= cols,
            sheet.sheet_ok(),
            copies_fit(rows, cols, plan),
            applies(states, statuses, waits, plan.take(c as int)),
            states[0] == **old(sheet),
            states.last() == **sheet,
            sleeps@ == waits.flatten(),
    {
        let row = r + 1;
        let col = (c + 1) as i16;
        let field = &fields[c];
        let formula = csv_field_formula(sheet, row, col, field.as_str());
        proof {
            assert(texts(fields@)[c as int] == field@);
            assert(plan[c as int] == ((row, col), formula));
            assert(is_copy_range(plan[c as int].1) == is_copy_range(formula));
            assert(is_copy_range(formula) ==> copy_fits(rows, cols, range_args(formula).0, range_args(formula).1));
        }
        let mut status = String::new();
        let ghost before = **sheet;
        let more = sheet.spreadsheet_set_cell_value(row, col, formula, &mut status);
        proof {
            lemma_applies_push(states, statuses, waits, plan.take(c as int), **sheet, (row, col), formula, status@, more@);
            assert(plan.take(c + 1) == plan.take(c as int).push(((row, col), formula)));
            waits.lemma_flatten_push(more@);
            states = states.push(**sheet);
            statuses = statuses.push(status@);
            waits = waits.push(more@);
        }
        append_all(&mut sleeps, &more);
    }
    assert(plan.take(n as int) == plan);
    sleeps
}

/// A spreadsheet from the lines of a CSV text whose first line is a header:
/// as many rows as lines after the header and as many columns as fields on
/// the header line, filled by assigning, cell by cell in order, the formula
/// each field of the data lines gives (see [`csv_plan`]). Returns the grid and
/// the seconds each evaluation of a `SLEEP` asked to wait.
#[verifier::rlimit(40)]
pub fn from_csv_lines(lines: &Vec<String>) -> (r: Result<(Box<Spreadsheet>, Vec<u32>), LoadError>)
    requires
        lines@.len() <= 32767,
        lines@.len() > 0 ==> lines@[0]@.len() < usize::MAX && csv_field_count(lines@[0]@) <= 32767,
        lines@.len() > 0 ==> forall|r: int| 0 <= r < lines@.len() - 1 ==> #[trigger] copies_fit(
            lines@.len() - 1, csv_field_count(lines@[0]@),
            csv_row_plan(lines@.len() - 1, csv_field_count(lines@[0]@), r, csv_fields(lines@[r + 1]@))),
    ensures
        lines@.len() == 0 ==> r matches Err(LoadError::EmptyCsv),
        lines@.len() > 0 ==> (r matches Ok((sheet, sleeps)) && exists|states: Seq<Spreadsheet>, statuses: Seq<Seq<char>>, waits: Seq<Seq<u32>>| {
            &&& #[trigger] applies(states, statuses, waits, csv_plan(lines@.len() - 1,
                csv_field_count(lines@[0]@), texts(lines@).skip(1), lines@.len() - 1))
            &&& states[0].fresh((lines@.len() - 1) as i16, csv_field_count(lines@[0]@) as i16)
            &&& states[0].consistent()
            &&& states[0].deps_exact()
            &&& states.last() == *sheet
            &&& sleeps@ == waits.flatten()
        }),
{
    if lines.len() == 0 {
        return Err(LoadError::EmptyCsv);
    }
    let rows = lines.len() - 1;
    let cols = match csv_count_columns(lines[0].as_str()) {
        Ok(n) => n,
        Err(e) => { return Err(e); },
    };
    let ghost t = texts(lines@).skip(1);
    let ghost irows = rows as int;
    let ghost icols = cols as int;
    let mut sheet = match Spreadsheet::spreadsheet_create(rows as i16, cols as i16) {
        Some(s) => s,
        None => { return Err(LoadError::EmptyCsv); },
    };
    let ghost mut states: Seq<Spreadsheet> = seq![*sheet];
    let ghost mut statuses: Seq<Seq<char>> = Seq::empty();
    let ghost mut waits: Seq<Seq<u32>> = Seq::empty();
    let ghost first = *sheet;
    let mut sleeps: Vec<u32> = Vec::new();
    proof {
        assert(applies(states, statuses, waits, csv_plan(irows, icols, t, 0)));
    }
    for r in 0..rows
        invariant
            rows == lines@.len() - 1,
            irows == rows,
            icols == cols,
            icols == csv_field_count(lines@[0]@),
            t == texts(lines@).skip(1),
            rows <= 32767,
            cols <= 32767,
            sheet.rows == rows,
            sheet.cols == cols,
            sheet.sheet_ok(),
            forall|k: int| 0 <= k < rows ==> #[trigger] copies_fit(irows, icols,
                csv_row_plan(irows, icols, k, csv_fields(lines@[k + 1]@))),
            applies(states, statuses, waits, csv_plan(irows, icols, t, r as int)),
            states[0] == first,
            first.fresh(rows as i16, cols as i16),
            first.consistent(),
            first.deps_exact(),
            states.last() == *sheet,
            sleeps@ == waits.flatten(),
    {
        let fields = match parse_csv_row(lines[r + 1].as_str()) {
            Ok(f) => f,
            Err(e) => { return Err(e); },
        };
        let ghost before = *sheet;
        let ghost plan = csv_row_plan(irows, icols, r as int, texts(fields@));
        assert(texts(fields@) == csv_fields(lines@[r + 1]@));
        assert(copies_fit(irows, icols, csv_row_plan(irows, icols, r as int, csv_fields(lines@[r + 1]@))));
        let more = apply_csv_row(&mut sheet, r as i16, &fields);
        proof {
            let (s2, t2, w2) = choose|s2: Seq<Spreadsheet>, t2: Seq<Seq<char>>, w2: Seq<Seq<u32>>| {
                &&& #[trigger] applies(s2, t2, w2, plan)
                &&& s2[0] == before
                &&& s2.last() == *sheet
                &&& more@ == w2.flatten()
            };
            lemma_applies_concat(states, statuses, waits, csv_plan(irows, icols, t, r as int), s2, t2, w2, plan);
            assert(t[r as int] == lines@[r + 1]@);
            assert(csv_plan(irows, icols, t, r + 1) == csv_plan(irows, icols, t, r as int) + plan);
            states = states + s2.drop_first();
            statuses = statuses + t2;
            waits = waits + w2;
        }
        append_all(&mut sleeps, &more);
    }
    Ok((sheet, sleeps))
}

/// Assigns, in order, each formula of `plan` to its cell, through
/// [`Spreadsheet::spreadsheet_set_cell_value`]. Returns the seconds each
/// evaluation of a `SLEEP` asked to wait.
#[verifier::rlimit(40)]
pub fn apply_plan(sheet: &mut Box<Spreadsheet>, plan: &Vec<((i16, i16), ParsedRHS)>) -> (sleeps: Vec<u32>)
    requires
        old(sheet).sheet_ok(),
        forall|k: int| 0 <= k < plan@.len() ==> {
            let e = #[trigger] plan@[k];
            &&& old(sheet).valid(e.0.0 as int, e.0.1 as int)
            &&& is_copy_range(e.1) ==> old(sheet).copy_ok(range_args(e.1).0, range_args(e.1).1)
            &&& !is_copy_range(e.1) ==> old(sheet).formula_ok(e.1)
        },
    ensures
        final(sheet).sheet_ok(),
        final(sheet).rows == old(sheet).rows,
        final(sheet).cols == old(sheet).cols,
        exists|states: Seq<Spreadsheet>, statuses: Seq<Seq<char>>, waits: Seq<Seq<u32>>| {
            &&& #[trigger] applies(states, statuses, waits, plan@)
            &&& states[0] == **old(sheet)
            &&& states.last() == **final(sheet)
            &&& sleeps@ == waits.flatten()
        },
{
    let ghost rows = sheet.rows;
    let ghost cols = sheet.cols;
    let ghost mut states: Seq<Spreadsheet> = seq![**sheet];
    let ghost mut statuses: Seq<Seq<char>> = Seq::empty();
    let ghost mut waits: Seq<Seq<u32>> = Seq::empty();
    let mut sleeps: Vec<u32> = Vec::new();
    let n = plan.len();
    for k in 0..n
        invariant
            n == plan@.len(),
            sheet.rows == rows,
            sheet.cols == cols,
            sheet.sheet_ok(),
            forall|j: int| 0 <= j < plan@.len() ==> {
                let e = #[trigger] plan@[j];
                &&& sheet.valid(e.0.0 as int, e.0.1 as int)
                &&& is_copy_range(e.1) ==> sheet.copy_ok(range_args(e.1).0, range_args(e.1).1)
                &&& !is_copy_range(e.1) ==> sheet.formula_ok(e.1)
            },
            applies(states, statuses, waits, plan@.take(k as int)),
            states[0] == **old(sheet),
            states.last() == **sheet,
            sleeps@ == waits.flatten(),
    {
        let ((row, col), formula) = plan[k];
        let mut status = String::new();
        let more = sheet.spreadsheet_set_cell_value(row, col, formula, &mut status);
        proof {
            lemma_applies_push(states, statuses, waits, plan@.take(k as int), **sheet, (row, col), formula, status@, more@);
            assert(plan@.take(k + 1) == plan@.take(k as int).push(((row, col), formula)));
            waits.lemma_flatten_push(more@);
            states = states.push(**sheet);
            statuses = statuses.push(status@);
            waits = waits.push(more@);
        }
        append_all(&mut sleeps, &more);
    }
    assert(plan@.take(n as int) == plan@);
    sleeps
}

/// A cell of an Excel worksheet, as far as loading reads it: an integer, a
/// number already truncated to `i32`, or anything else.
#[derive(Clone, Copy, Debug)]
pub enum ExcelCell {
    Int(i64),
    Number(i32),
    Other,
}

/// The formula an Excel cell gives: its integer when it fits in `i32` (none
/// otherwise: the cell is left as it is), its number, or 0.
pub open spec fn excel_formula_of(c: ExcelCell) -> Option<ParsedRHS> {
    match c {
        ExcelCell::Int(i) => if i32::MIN <= i <= i32::MAX {
            Some(ParsedRHS::SingleValue(Operand::Number(i as i32)))
        } else {
            None
        },
        ExcelCell::Number(n) => Some(ParsedRHS::SingleValue(Operand::Number(n))),
        ExcelCell::Other => Some(ParsedRHS::SingleValue(Operand::Number(0))),
    }
}

/// The assignments for the first `n` cells of row `r` (counted from 0).
pub open spec fn excel_row_plan(r: int, row: Seq<ExcelCell>, n: int) -> Seq<((i16, i16), ParsedRHS)>
    decreases n,
{
    if n <= 0 {
        Seq::empty()
    } else {
        let prev = excel_row_plan(r, row, n - 1);
        match excel_formula_of(row[n - 1]) {
            Some(f) => prev.push((((r + 1) as i16, n as i16), f)),
            None => prev,
        }
    }
}

/// The assignments for the first `n` rows, in order.
pub open spec fn excel_plan(cells: Seq<Seq<ExcelCell>>, n: int) -> Seq<((i16, i16), ParsedRHS)>
    decreases n,
{
    if n <= 0 {
        Seq::empty()
    } else {
        excel_plan(cells, n - 1) + excel_row_plan(n - 1, cells[n - 1], cells[n - 1].len() as int)
    }
}

/// The rows of cells, each as a sequence.
pub open spec fn rows_of(cells: Seq<Vec<ExcelCell>>) -> Seq<Seq<ExcelCell>> {
    cells.map_values(|v: Vec<ExcelCell>| v@)
}

/// A spreadsheet from the cells of an Excel worksheet of `height` rows and
/// `width` columns: each cell is assigned, in order, the constant it gives
/// (see [`excel_plan`]). An empty worksheet cannot be loaded.
pub fn from_excel_cells(height: usize, width: usize, cells: &Vec<Vec<ExcelCell>>) -> (r: Result<(Box<Spreadsheet>, Vec<u32>), LoadError>)
    requires
        height <= 32767,
        width <= 32767,
        cells@.len() <= height,
        forall|k: int| 0 <= k < cells@.len() ==> (#[trigger] cells@[k])@.len() <= width,
    ensures
        height == 0 || width == 0 ==> r matches Err(LoadError::EmptyExcel),
        height > 0 && width > 0 ==> (r matches Ok((sheet, sleeps)) && exists|states: Seq<Spreadsheet>, statuses: Seq<Seq<char>>, waits: Seq<Seq<u32>>| {
            &&& #[trigger] applies(states, statuses, waits, excel_plan(rows_of(cells@), cells@.len() as int))
            &&& states[0].fresh(height as i16, width as i16)
            &&& states.last() == *sheet
            &&& sleeps@ == waits.flatten()
        }),
{
    if height == 0 || width == 0 {
        return Err(LoadError::EmptyExcel);
    }
    let mut sheet = match Spreadsheet::spreadsheet_create(height as i16, width as i16) {
        Some(s) => s,
        None => { return Err(LoadError::EmptyExcel); },
    };
    let ghost first = *sheet;
    let ghost rs = rows_of(cells@);
    let mut plan: Vec<((i16, i16), ParsedRHS)> = Vec::new();
    for r in 0..cells.len()
        invariant
            rs == rows_of(cells@),
            cells@.len() <= height,
            height <= 32767,
            width <= 32767,
            forall|k: int| 0 <= k < cells@.len() ==> (#[trigger] cells@[k])@.len() <= width,
            plan@ == excel_plan(rs, r as int),
            forall|k: int| 0 <= k < plan@.len() ==> {
                let e = #[trigger] plan@[k];
                &&& 1 <= e.0.0 <= height && 1 <= e.0.1 <= width
                &&& e.1 matches ParsedRHS::SingleValue(Operand::Number(_))
            },
    {
        let row = &cells[r];
        assert(rs[r as int] == row@);
        for c in 0..row.len()
            invariant
                rs == rows_of(cells@),
                rs[r as int] == row@,
                r < cells@.len() <= height,
                row@.len() <= width,
                height <= 32767,
                width <= 32767,
                plan@ == excel_plan(rs, r as int) + excel_row_plan(r as int, row@, c as int),
                forall|k: int| 0 <= k < plan@.len() ==> {
                    let e = #[trigger] plan@[k];
                    &&& 1 <= e.0.0 <= height && 1 <= e.0.1 <= width
                    &&& e.1 matches ParsedRHS::SingleValue(Operand::Number(_))
                },
        {
            let f = match row[c] {
                ExcelCell::Int(i) => if i >= -0x8000_0000 && i <= 0x7fff_ffff {
                    Some(ParsedRHS::SingleValue(Operand::Number(i as i32)))
                } else {
                    None
                },
                ExcelCell::Number(n) => Some(ParsedRHS::SingleValue(Operand::Number(n))),
                ExcelCell::Other => Some(ParsedRHS::SingleValue(Operand::Number(0))),
            };
            assert(f == excel_formula_of(row@[c as int]));
            match f {
                Some(formula) => {
                    plan.push((((r + 1) as i16, (c + 1) as i16), formula));
                },
                None => {},
            }
        }
    }
    proof {
        assert forall|k: int| 0 <= k < plan@.len() implies {
            let e = #[trigger] plan@[k];
            &&& sheet.valid(e.0.0 as int, e.0.1 as int)
            &&& is_copy_range(e.1) ==> sheet.copy_ok(range_args(e.1).0, range_args(e.1).1)
            &&& !is_copy_range(e.1) ==> sheet.formula_ok(e.1)
        } by {}
    }
    let sleeps = apply_plan(&mut sheet, &plan);
    Ok((sheet, sleeps))
}

/// Whether every `COPY` that the data lines of a CSV text give (its first
/// line being the header) can be carried out in the grid that
/// [`from_csv_lines`] builds from them: what that function asks of its lines.
pub fn csv_copies_fit(lines: &Vec<String>) -> (r: bool)
    requires
        lines@.len() <= 32767,
        lines@.len() > 0 ==> lines@[0]@.len() < usize::MAX && csv_field_count(lines@[0]@) <= 32767,
    ensures
        r == (lines@.len() > 0 ==> forall|k: int| 0 <= k < lines@.len() - 1 ==> #[trigger] copies_fit(
            lines@.len() - 1, csv_field_count(lines@[0]@),
            csv_row_plan(lines@.len() - 1, csv_field_count(lines@[0]@), k, csv_fields(lines@[k + 1]@)))),
{
    if lines.len() == 0 {
        return true;
    }
    let rows = lines.len() - 1;
    let cols = match csv_count_columns(lines[0].as_str()) {
        Ok(n) => n,
        Err(_) => { return false; },
    };
    let ghost irows = rows as int;
    let ghost icols = cols as int;
    let sheet = Spreadsheet::spreadsheet_create(rows as i16, cols as i16).unwrap();
    for r in 0..rows
        invariant
            rows == lines@.len() - 1,
            irows == rows,
            icols == cols,
            icols == csv_field_count(lines@[0]@),
            rows <= 32767,
            cols <= 32767,
            sheet.rows == rows,
            sheet.cols == cols,
            sheet.grid_wf(),
            forall|k: int| 0 <= k < r ==> #[trigger] copies_fit(irows, icols,
                csv_row_plan(irows, icols, k, csv_fields(lines@[k + 1]@))),
    {
        let fields = match parse_csv_row(lines[r + 1].as_str()) {
            Ok(f) => f,
            Err(_) => { return false; },
        };
        let ghost plan = csv_row_plan(irows, icols, r as int, csv_fields(lines@[r + 1]@));
        assert(texts(fields@) == csv_fields(lines@[r + 1]@));
        let n: usize = if fields.len() < cols { fields.len() } else { cols };
        assert(n == plan.len());
        for c in 0..n
            invariant
                n == plan.len(),
                plan == csv_row_plan(irows, icols, r as int, texts(fields@)),
                n <= fields@.len(),
                n <= cols,
                0 <= r < rows,
                irows == rows,
                icols == cols,
                sheet.rows == rows,
                sheet.cols == cols,
                sheet.grid_wf(),
                forall|j: int| 0 <= j < c && #[trigger] is_copy_range(plan[j].1) ==>
                    copy_fits(irows, icols, range_args(plan[j].1).0, range_args(plan[j].1).1),
        {
            let f = csv_field_formula(&sheet, (r + 1) as i16, (c + 1) as i16, fields[c].as_str());
            proof {
                assert(texts(fields@)[c as int] == fields@[c as int]@);
                assert(plan[c as int].1 == f);
            }
            if !sheet.copy_allowed(&f) {
                proof {
                    assert(!copies_fit(irows, icols, plan));
                }
                return false;
            }
        }
        proof {
            assert(copies_fit(irows, icols, plan));
        }
    }
    true
}

} // verus!
