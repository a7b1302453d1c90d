use vstd::prelude::*;
use rust_xlsxwriter::{Workbook, Worksheet, XlsxError};
use crate::naming::{col_letters, push_col_letters};
use crate::text::{int_text, push_int, string_from_chars};
use crate::spreadsheet::{FunctionName, Operand, ParsedRHS, Spreadsheet};

verus! {

#[verifier::external_type_specification]
#[verifier::external_body]
pub struct ExWorkbook(Workbook);

#[verifier::external_type_specification]
#[verifier::external_body]
pub struct ExWorksheet(Worksheet);

#[verifier::external_type_specification]
#[verifier::external_body]
pub struct ExXlsxError(XlsxError);

/// Why an export failed.
#[derive(Debug)]
pub enum ExportError {
    /// The XLSX writer refused a cell or could not assemble the file.
    Xlsx(XlsxError),
}

/// The name of cell `(r, c)`: column letters, then the row number.
pub open spec fn cell_name_text(r: int, c: int) -> Seq<char> {
    col_letters(c) + int_text(r)
}

/// An operand as a spreadsheet reference: a cell's name or a number.
pub open spec fn operand_ref_text(op: Operand) -> Seq<char> {
    match op {
        Operand::Cell(r, c) => cell_name_text(r as int, c as int),
        Operand::Number(n) => int_text(n as int),
    }
}

/// A range as `A1:B2`; `A1` unless both ends are cells.
pub open spec fn range_ref_text(start: Operand, end: Operand) -> Seq<char> {
    match (start, end) {
        (Operand::Cell(_, _), Operand::Cell(_, _)) => operand_ref_text(start) + seq![':'] + operand_ref_text(end),
        _ => seq!['A', '1'],
    }
}

/// The column name of a column number (1 is `A`, 27 is `AA`); empty for 0.
pub fn column_to_letter(col: u16) -> (r: String)
    ensures
        r@ == col_letters(col as int),
{
    let mut out: Vec<char> = Vec::new();
    push_col_letters(&mut out, col as i32);
    assert(Seq::<char>::empty() + col_letters(col as int) == col_letters(col as int));
    string_from_chars(&out)
}

fn push_operand_ref(out: &mut Vec<char>, op: &Operand)
    ensures
        final(out)@ == old(out)@ + operand_ref_text(*op),
{
    match op {
        Operand::Cell(r, c) => {
            push_col_letters(out, *c as i32);
            let ghost mid = out@;
            push_int(out, *r as i64);
            assert(final(out)@ == old(out)@ + cell_name_text(*r as int, *c as int));
        },
        Operand::Number(n) => {
            push_int(out, *n as i64);
        },
    }
}

/// An operand as a spreadsheet reference: a cell's name (`B3`) or a number.
pub fn operand_to_excel_ref(operand: &Operand) -> (r: String)
    ensures
        r@ == operand_ref_text(*operand),
{
    let mut out: Vec<char> = Vec::new();
    push_operand_ref(&mut out, operand);
    assert(Seq::<char>::empty() + operand_ref_text(*operand) == operand_ref_text(*operand));
    string_from_chars(&out)
}

/// A range as `A1:B2`, or `A1` when an end is not a cell.
pub fn convert_range_to_excel(start: &Operand, end: &Operand) -> (r: String)
    ensures
        r@ == range_ref_text(*start, *end),
{
    match (start, end) {
        (Operand::Cell(_, _), Operand::Cell(_, _)) => {
            let mut out: Vec<char> = Vec::new();
            push_operand_ref(&mut out, start);
            out.push(':');
            push_operand_ref(&mut out, end);
            assert(out@ == operand_ref_text(*start) + seq![':'] + operand_ref_text(*end));
            string_from_chars(&out)
        },
        _ => {
            let mut out: Vec<char> = Vec::new();
            out.push('A');
            out.push('1');
            assert(out@ == seq!['A', '1']);
            string_from_chars(&out)
        },
    }
}

/// The header line of the CSV export: the names of columns `1..=n`, separated by commas.
pub open spec fn csv_header(n: int) -> Seq<char>
    decreases n,
{
    if n <= 0 {
        Seq::empty()
    } else if n == 1 {
        col_letters(1)
    } else {
        csv_header(n - 1) + seq![','] + col_letters(n)
    }
}

/// The values of the first `n` cells of row `r`, separated by commas.
pub open spec fn csv_row(s: Spreadsheet, r: int, n: int) -> Seq<char>
    decreases n,
{
    if n <= 0 {
        Seq::empty()
    } else if n == 1 {
        int_text(s.cell(r, 1).value as int)
    } else {
        csv_row(s, r, n - 1) + seq![','] + int_text(s.cell(r, n).value as int)
    }
}

/// Rows `1..=m`, each ended by a newline.
pub open spec fn csv_body(s: Spreadsheet, m: int) -> Seq<char>
    decreases m,
{
    if m <= 0 {
        Seq::empty()
    } else {
        csv_body(s, m - 1) + csv_row(s, m, s.cols as int) + seq!['\n']
    }
}

/// The CSV text of a grid: the header line, then one line of values per row.
pub open spec fn csv_text(s: Spreadsheet) -> Seq<char> {
    csv_header(s.cols as int) + seq!['\n'] + csv_body(s, s.rows as int)
}

fn push_csv_header(out: &mut Vec<char>, cols: i16)
    ensures
        final(out)@ == old(out)@ + csv_header(cols as int),
{
    let ghost start: Seq<char> = old(out)@;
    let mut c: i32 = 1;
    while c <= cols as i32
        invariant
            1 <= c,
            c <= cols + 1 || c == 1,
            out@ == start + csv_header(c - 1),
        decreases cols + 1 - c,
    {
        if c > 1 {
            out.push(',');
        }
        push_col_letters(out, c);
        proof {
            if c == 1 {
                assert(csv_header(0) == Seq::<char>::empty());
                assert(csv_header(1) == col_letters(1));
            }
        }
        c = c + 1;
    }
    proof {
        if cols <= 0 {
            assert(csv_header(cols as int) == Seq::<char>::empty());
            assert(csv_header(0) == Seq::<char>::empty());
            assert(start + Seq::<char>::empty() == start);
        } else {
            assert(c == cols + 1);
            assert(out@ == start + csv_header(cols as int));
        }
    }
}

fn push_csv_row(out: &mut Vec<char>, sheet: &Spreadsheet, r: i16)
    requires
        sheet.grid_wf(),
        sheet.rows * sheet.cols <= 32768,
        1 <= r <= sheet.rows,
    ensures
        final(out)@ == old(out)@ + csv_row(*sheet, r as int, sheet.cols as int),
{
    let ghost start = out@;
    let mut c: i32 = 1;
    while c <= sheet.cols as i32
        invariant
            sheet.grid_wf(),
            sheet.rows * sheet.cols <= 32768,
            1 <= r <= sheet.rows,
            1 <= c <= sheet.cols + 1,
            out@ == start + csv_row(*sheet, r as int, c - 1),
        decreases sheet.cols + 1 - c,
    {
        if c > 1 {
            out.push(',');
        }
        proof {
            crate::spreadsheet::lemma_cell_index(r as int, c as int, sheet.rows as int, sheet.cols as int);
            assert((r - 1) * sheet.cols + (c - 1) < 32768) by (nonlinear_arith)
                requires
                    1 <= r <= sheet.rows,
                    1 <= c <= sheet.cols,
                    sheet.rows * sheet.cols <= 32768,
            ;
            assert((r - 1) * sheet.cols >= 0) by (nonlinear_arith)
                requires
                    1 <= r,
                    sheet.cols >= 0,
            ;
            assert(sheet.slot(r as int, c as int) is Some);
        }
        let index = ((r - 1) * sheet.cols + (c as i16 - 1)) as usize;
        match &sheet.cells[index] {
            Some(cell) => {
                push_int(out, cell.value as i64);
            },
            None => {},
        }
        c = c + 1;
    }
}

/// The grid as CSV: a header line of column names, then each row's values,
/// comma-separated, one line per row.
pub fn to_csv(sheet: &Spreadsheet) -> (r: Result<String, ExportError>)
    requires
        sheet.grid_wf(),
        sheet.rows * sheet.cols <= 32768,
    ensures
        r matches Ok(t) && t@ == csv_text(*sheet),
{
    let mut out: Vec<char> = Vec::new();
    push_csv_header(&mut out, sheet.cols);
    out.push('\n');
    let mut r: i32 = 1;
    while r <= sheet.rows as i32
        invariant
            sheet.grid_wf(),
            sheet.rows * sheet.cols <= 32768,
            1 <= r,
            r <= sheet.rows + 1 || r == 1,
            out@ == csv_header(sheet.cols as int) + seq!['\n'] + csv_body(*sheet, r - 1),
        decreases sheet.rows + 1 - r,
    {
        push_csv_row(&mut out, sheet, r as i16);
        out.push('\n');
        r = r + 1;
    }
    proof {
        if sheet.rows <= 0 {
            assert(r == 1);
            assert(csv_body(*sheet, sheet.rows as int) == Seq::<char>::empty());
            assert(csv_body(*sheet, 0) == Seq::<char>::empty());
            assert(csv_body(*sheet, r - 1) == csv_body(*sheet, sheet.rows as int));
        }
        if sheet.rows > 0 {
            assert(r == sheet.rows + 1);
            assert(out@ == csv_header(sheet.cols as int) + seq!['\n'] + csv_body(*sheet, r - 1));
            assert(csv_body(*sheet, r - 1) == csv_body(*sheet, sheet.rows as int));
        }
        assert(out@ == csv_header(sheet.cols as int) + seq!['\n'] + csv_body(*sheet, sheet.rows as int));
        assert(out@ == csv_text(*sheet));
    }
    Ok(string_from_chars(&out))
}

/// What the cells of a worksheet hold, by (row, column) counted from 0: whether
/// the cell holds a formula, the number written (0 for a formula), and the
/// formula as the writer stores it.
pub uninterp spec fn worksheet_cells(ws: Worksheet) -> Map<(u32, u16), (bool, i32, Seq<char>)>;

/// What the worksheets of a workbook hold, in order; see [`worksheet_cells`].
pub uninterp spec fn workbook_sheets(wb: Workbook) -> Seq<Map<(u32, u16), (bool, i32, Seq<char>)>>;

/// A worksheet without cells.
pub open spec fn no_cells() -> Map<(u32, u16), (bool, i32, Seq<char>)> {
    Map::empty()
}

/// A workbook without worksheets.
pub open spec fn no_sheets() -> Seq<Map<(u32, u16), (bool, i32, Seq<char>)>> {
    Seq::empty()
}

/// `Workbook::new`: a workbook without worksheets.
#[verifier::external_body]
fn new_workbook() -> (r: Workbook)
    ensures
        workbook_sheets(r) == no_sheets(),
{
    Workbook::new()
}

/// `Worksheet::new`: a worksheet without cells.
#[verifier::external_body]
fn new_worksheet() -> (r: Worksheet)
    ensures
        worksheet_cells(r) == no_cells(),
{
    Worksheet::new()
}

/// `Worksheet::write_formula`: stores a formula in a cell, replacing what the
/// cell held. The writer refuses (`RowColumnLimitError`, before touching the
/// worksheet) a row from 1048576 or a column from 16384 on, and accepts every
/// other cell. The text it stores is left open: it is the given text after
/// the writer's own processing (braces and a leading `=` removed, future
/// functions escaped).
#[verifier::external_body]
fn write_formula(ws: &mut Worksheet, row: u32, col: u16, formula: &str) -> (r: Result<(), XlsxError>)
    ensures
        r is Ok <==> (row < 1048576 && col < 16384),
        r is Ok ==> exists|stored: Seq<char>|
            worksheet_cells(*final(ws)) == worksheet_cells(*old(ws)).insert((row, col), (true, 0i32, stored)),
        r is Err ==> worksheet_cells(*final(ws)) == worksheet_cells(*old(ws)),
{
    match ws.write_formula(row, col, formula) {
        Ok(_) => Ok(()),
        Err(e) => Err(e),
    }
}

/// `Worksheet::write_number`: stores a number in a cell, replacing what the
/// cell held, with the same limits as [`write_formula`] (an `i32` is always a
/// finite number).
#[verifier::external_body]
fn write_number(ws: &mut Worksheet, row: u32, col: u16, number: i32) -> (r: Result<(), XlsxError>)
    ensures
        r is Ok <==> (row < 1048576 && col < 16384),
        r is Ok ==> worksheet_cells(*final(ws)) == worksheet_cells(*old(ws)).insert((row, col), (false, number, Seq::<char>::empty())),
        r is Err ==> worksheet_cells(*final(ws)) == worksheet_cells(*old(ws)),
{
    match ws.write_number(row, col, number) {
        Ok(_) => Ok(()),
        Err(e) => Err(e),
    }
}

/// `Workbook::push_worksheet`: adds the worksheet after the others (naming
/// it, when it has no name, which leaves its cells as they are).
#[verifier::external_body]
fn push_worksheet(wb: &mut Workbook, ws: Worksheet)
    ensures
        workbook_sheets(*final(wb)) == workbook_sheets(*old(wb)).push(worksheet_cells(ws)),
{
    wb.push_worksheet(ws);
}

/// `Workbook::save_to_buffer`: the workbook as the bytes of an XLSX file.
/// Nothing is stated of the bytes (the file records when it was made).
#[verifier::external_body]
fn save_to_buffer(wb: &mut Workbook) -> Result<Vec<u8>, XlsxError> {
    wb.save_to_buffer()
}

/// The Excel name of a range function (`AVG` is `AVERAGE`).
pub open spec fn excel_function_name(name: FunctionName) -> Seq<char> {
    match name {
        FunctionName::Sum => seq!['S', 'U', 'M'],
        FunctionName::Min => seq!['M', 'I', 'N'],
        FunctionName::Max => seq!['M', 'A', 'X'],
        FunctionName::Avg => seq!['A', 'V', 'E', 'R', 'A', 'G', 'E'],
        FunctionName::Stdev => seq!['S', 'T', 'D', 'E', 'V'],
        FunctionName::Copy => Seq::empty(),
    }
}

/// The Excel formula written for a cell's formula, if any: range functions,
/// arithmetic and references to a cell; none for `COPY`, constants, `SLEEP`
/// and empty cells.
pub open spec fn excel_formula_text(f: ParsedRHS) -> Option<Seq<char>> {
    match f {
        ParsedRHS::Function { name, args } => if name == FunctionName::Copy {
            None
        } else {
            Some(seq!['='] + excel_function_name(name) + seq!['('] + range_ref_text(args.0, args.1) + seq![')'])
        },
        ParsedRHS::Arithmetic { lhs, operator, rhs } => Some(
            seq!['='] + operand_ref_text(lhs) + seq![operator] + operand_ref_text(rhs),
        ),
        ParsedRHS::SingleValue(Operand::Cell(r, c)) => Some(seq!['='] + cell_name_text(r as int, c as int)),
        _ => None,
    }
}

fn push_chars(out: &mut Vec<char>, s: &[char])
    ensures
        final(out)@ == old(out)@ + s@,
{
    let ghost start: Seq<char> = old(out)@;
    for i in 0..s.len()
        invariant
            out@ == start + s@.take(i as int),
    {
        out.push(s[i]);
        assert(s@.take(i + 1) == s@.take(i as int).push(s@[i as int]));
    }
    assert(s@.take(s@.len() as int) == s@);
}

/// The Excel formula for a cell's formula; see [`excel_formula_text`].
fn excel_formula(f: &ParsedRHS) -> (r: Option<String>)
    ensures
        r matches Some(t) ==> excel_formula_text(*f) == Some(t@),
        r is None ==> excel_formula_text(*f) is None,
{
    match f {
        ParsedRHS::Function { name, args } => {
            let fname: &[char] = match name {
                FunctionName::Sum => &['S', 'U', 'M'],
                FunctionName::Min => &['M', 'I', 'N'],
                FunctionName::Max => &['M', 'A', 'X'],
                FunctionName::Avg => &['A', 'V', 'E', 'R', 'A', 'G', 'E'],
                FunctionName::Stdev => &['S', 'T', 'D', 'E', 'V'],
                FunctionName::Copy => { return None; },
            };
            assert(fname@ == excel_function_name(*name));
            let mut out: Vec<char> = Vec::new();
            out.push('=');
            push_chars(&mut out, fname);
            out.push('(');
            let range = convert_range_to_excel(&args.0, &args.1);
            let range_chars = crate::text::chars_of(range.as_str());
            let ghost before = out@;
            push_chars(&mut out, range_chars.as_slice());
            out.push(')');
            assert(out@ == seq!['='] + excel_function_name(*name) + seq!['('] + range_ref_text(args.0, args.1) + seq![')']);
            Some(string_from_chars(&out))
        },
        ParsedRHS::Arithmetic { lhs, operator, rhs } => {
            let mut out: Vec<char> = Vec::new();
            out.push('=');
            push_operand_ref(&mut out, lhs);
            out.push(*operator);
            push_operand_ref(&mut out, rhs);
            assert(out@ == seq!['='] + operand_ref_text(*lhs) + seq![*operator] + operand_ref_text(*rhs));
            Some(string_from_chars(&out))
        },
        ParsedRHS::SingleValue(Operand::Cell(r, c)) => {
            let mut out: Vec<char> = Vec::new();
            out.push('=');
            push_operand_ref(&mut out, &Operand::Cell(*r, *c));
            assert(out@ == seq!['='] + cell_name_text(*r as int, *c as int));
            Some(string_from_chars(&out))
        },
        _ => None,
    }
}

/// A cell that the XLSX export writes: every cell of the grid but those with
/// a `COPY` formula.
pub open spec fn xlsx_writes(sheet: Spreadsheet, r: int, c: int) -> bool {
    sheet.valid(r, c) && !(sheet.cell(r, c).formula matches ParsedRHS::Function { name: FunctionName::Copy, .. })
}

/// What the exported worksheet holds of the cells written before cell `(r, c)`
/// (row by row): the value of each, as a number.
pub open spec fn xlsx_prefix(sheet: Spreadsheet, r: int, c: int) -> Map<(u32, u16), (bool, i32, Seq<char>)> {
    Map::new(
        |k: (u32, u16)| xlsx_writes(sheet, k.0 + 1, k.1 + 1) && (k.0 + 1 < r || (k.0 + 1 == r && k.1 + 1 < c)),
        |k: (u32, u16)| (false, sheet.cell(k.0 + 1, k.1 + 1).value, Seq::<char>::empty()),
    )
}

/// What the exported worksheet holds: the value of every cell written, as a
/// number at (row - 1, column - 1). A formula written first is replaced by
/// the value written after it.
pub open spec fn xlsx_contents(sheet: Spreadsheet) -> Map<(u32, u16), (bool, i32, Seq<char>)> {
    Map::new(
        |k: (u32, u16)| xlsx_writes(sheet, k.0 + 1, k.1 + 1),
        |k: (u32, u16)| (false, sheet.cell(k.0 + 1, k.1 + 1).value, Seq::<char>::empty()),
    )
}

/// Some written cell lies beyond Excel's last column.
pub open spec fn xlsx_too_wide(sheet: Spreadsheet) -> bool {
    exists|rr: int, cc: int| xlsx_writes(sheet, rr, cc) && cc > 16384
}

/// The workbook of the XLSX export: one worksheet, in which each cell gets,
/// for range functions, arithmetic and references to a cell, its formula in
/// Excel syntax (see [`excel_formula_text`]) and then its value. Cells with
/// a `COPY` formula are left out. Fails exactly when a cell lies beyond
/// Excel's columns.
pub fn xlsx_workbook(sheet: &Spreadsheet) -> (r: Result<Workbook, ExportError>)
    requires
        sheet.grid_wf(),
        sheet.rows * sheet.cols <= 32768,
    ensures
        r is Err <==> xlsx_too_wide(*sheet),
        r matches Ok(wb) ==> workbook_sheets(wb) == seq![xlsx_contents(*sheet)],
{
    let mut workbook = new_workbook();
    let mut worksheet = new_worksheet();
    assert(worksheet_cells(worksheet) =~= xlsx_prefix(*sheet, 1, 1));
    let mut r: i32 = 1;
    while r <= sheet.rows as i32
        invariant
            sheet.grid_wf(),
            sheet.rows * sheet.cols <= 32768,
            1 <= r,
            r <= sheet.rows + 1 || r == 1,
            forall|rr: int, cc: int| xlsx_writes(*sheet, rr, cc) && rr < r ==> cc <= 16384,
            worksheet_cells(worksheet) == xlsx_prefix(*sheet, r as int, 1),
            workbook_sheets(workbook) == no_sheets(),
        decreases sheet.rows + 1 - r,
    {
        let mut c: i32 = 1;
        while c <= sheet.cols as i32
            invariant
                sheet.grid_wf(),
                sheet.rows * sheet.cols <= 32768,
                1 <= r <= sheet.rows,
                1 <= c,
                c <= sheet.cols + 1 || c == 1,
                forall|rr: int, cc: int| xlsx_writes(*sheet, rr, cc) && (rr < r || (rr == r && cc < c)) ==> cc <= 16384,
                worksheet_cells(worksheet) == xlsx_prefix(*sheet, r as int, c as int),
                workbook_sheets(workbook) == no_sheets(),
            decreases sheet.cols + 1 - c,
        {
            proof {
                crate::spreadsheet::lemma_cell_index(r as int, c as int, sheet.rows as int, sheet.cols as int);
                assert((r - 1) * sheet.cols + (c - 1) < 32768) by (nonlinear_arith)
                    requires
                        1 <= r <= sheet.rows,
                        1 <= c <= sheet.cols,
                        sheet.rows * sheet.cols <= 32768,
                ;
                assert((r - 1) * sheet.cols >= 0) by (nonlinear_arith)
                    requires
                        1 <= r,
                        sheet.cols >= 0,
                ;
                assert(sheet.slot(r as int, c as int) is Some);
            }
            let ghost before = worksheet_cells(worksheet);
            let ghost key = ((r - 1) as u32, (c - 1) as u16);
            let index = ((r as i16 - 1) * sheet.cols + (c as i16 - 1)) as usize;
            match &sheet.cells[index] {
                Some(cell) => {
                    let skip = match &cell.formula {
                        ParsedRHS::Function { name: FunctionName::Copy, .. } => true,
                        _ => false,
                    };
                    if !skip {
                        match excel_formula(&cell.formula) {
                            Some(text) => {
                                match write_formula(&mut worksheet, (r - 1) as u32, (c - 1) as u16, text.as_str()) {
                                    Ok(()) => {},
                                    Err(e) => {
                                        proof {
                                            assert(xlsx_writes(*sheet, r as int, c as int) && c > 16384);
                                        }
                                        return Err(ExportError::Xlsx(e));
                                    },
                                }
                            },
                            None => {},
                        }
                        match write_number(&mut worksheet, (r - 1) as u32, (c - 1) as u16, cell.value) {
                            Ok(()) => {},
                            Err(e) => {
                                proof {
                                    assert(xlsx_writes(*sheet, r as int, c as int) && c > 16384);
                                }
                                return Err(ExportError::Xlsx(e));
                            },
                        }
                        proof {
                            assert(worksheet_cells(worksheet) == before.insert(key, (false, cell.value, Seq::<char>::empty())));
                            assert(xlsx_writes(*sheet, r as int, c as int));
                            assert(key.0 + 1 == r && key.1 + 1 == c);
                            assert(worksheet_cells(worksheet) =~= xlsx_prefix(*sheet, r as int, c + 1));
                        }
                    } else {
                        proof {
                            assert(!xlsx_writes(*sheet, r as int, c as int));
                            assert(xlsx_prefix(*sheet, r as int, c as int) =~= xlsx_prefix(*sheet, r as int, c + 1));
                        }
                    }
                },
                None => {},
            }
            c = c + 1;
        }
        proof {
            assert(xlsx_prefix(*sheet, r as int, c as int) =~= xlsx_prefix(*sheet, r + 1, 1));
        }
        r = r + 1;
    }
    assert(worksheet_cells(worksheet) =~= xlsx_contents(*sheet));
    push_worksheet(&mut workbook, worksheet);
    assert(workbook_sheets(workbook) =~= seq![xlsx_contents(*sheet)]);
    Ok(workbook)
}

/// The grid as the bytes of an XLSX file: the workbook of [`xlsx_workbook`],
/// saved to memory. Fails when a cell lies beyond Excel's columns, and when
/// the writer cannot assemble the file.
pub fn to_xlsx(sheet: &Spreadsheet) -> (r: Result<Vec<u8>, ExportError>)
    requires
        sheet.grid_wf(),
        sheet.rows * sheet.cols <= 32768,
    ensures
        xlsx_too_wide(*sheet) ==> r is Err,
{
    let mut workbook = match xlsx_workbook(sheet) {
        Ok(wb) => wb,
        Err(e) => { return Err(e); },
    };
    match save_to_buffer(&mut workbook) {
        Ok(buffer) => Ok(buffer),
        Err(e) => Err(ExportError::Xlsx(e)),
    }
}

} // verus!
