use vstd::prelude::*;
use crate::spreadsheet::{FunctionName, Operand, ParsedRHS, Spreadsheet};
use crate::downloader::{cell_name_text, operand_ref_text};
use crate::naming::push_col_letters;
use crate::text::{chars_of, push_int, string_from_chars};
use crate::command::command_spec;
use crate::assign::{is_copy_range, range_args};

verus! {

/// The name of a function as a formula writes it.
pub open spec fn function_name_text(name: FunctionName) -> Seq<char> {
    match name {
        FunctionName::Min => seq!['M', 'I', 'N'],
        FunctionName::Max => seq!['M', 'A', 'X'],
        FunctionName::Avg => seq!['A', 'V', 'G'],
        FunctionName::Sum => seq!['S', 'U', 'M'],
        FunctionName::Stdev => seq!['S', 'T', 'D', 'E', 'V'],
        FunctionName::Copy => seq!['C', 'O', 'P', 'Y'],
    }
}

/// A formula written back as text: `SUM(A1:B2)`, `A1+3`, `SLEEP(2)`, `B7`,
/// `42`, or nothing for an empty cell.
pub open spec fn formula_text(f: ParsedRHS) -> Seq<char> {
    match f {
        ParsedRHS::Function { name, args } => function_name_text(name) + seq!['('] + operand_ref_text(args.0) + seq![':']
            + operand_ref_text(args.1) + seq![')'],
        ParsedRHS::Arithmetic { lhs, operator, rhs } => operand_ref_text(lhs) + seq![operator] + operand_ref_text(rhs),
        ParsedRHS::Sleep(op) => seq!['S', 'L', 'E', 'E', 'P', '('] + operand_ref_text(op) + seq![')'],
        ParsedRHS::SingleValue(op) => operand_ref_text(op),
        ParsedRHS::Empty => Seq::empty(),
    }
}

fn push_operand(out: &mut Vec<char>, op: &Operand)
    ensures
        final(out)@ == old(out)@ + operand_ref_text(*op),
{
    match op {
        Operand::Cell(r, c) => {
            push_col_letters(out, *c as i32);
            push_int(out, *r as i64);
            assert(final(out)@ == old(out)@ + cell_name_text(*r as int, *c as int));
        },
        Operand::Number(n) => {
            push_int(out, *n as i64);
        },
    }
}

fn push_slice(out: &mut Vec<char>, s: &[char])
    ensures
        final(out)@ == old(out)@ + s@,
{
    let ghost start: Seq<char> = old(out)@;
    for i in 0..s.len()
        invariant
            out@ == start + s@.take(i as int),
    {
        out.push(s[i]);
        assert(s@.take(i + 1) == s@.take(i as int).push(s@[i as int]));
    }
    assert(s@.take(s@.len() as int) == s@);
}

/// A formula written back as text; see [`formula_text`].
pub fn formula_to_string(formula: &ParsedRHS) -> (r: String)
    ensures
        r@ == formula_text(*formula),
{
    let mut out: Vec<char> = Vec::new();
    match formula {
        ParsedRHS::Function { name, args } => {
            let func_name: &[char] = match name {
                FunctionName::Min => &['M', 'I', 'N'],
                FunctionName::Max => &['M', 'A', 'X'],
                FunctionName::Avg => &['A', 'V', 'G'],
                FunctionName::Sum => &['S', 'U', 'M'],
                FunctionName::Stdev => &['S', 'T', 'D', 'E', 'V'],
                FunctionName::Copy => &['C', 'O', 'P', 'Y'],
            };
            assert(func_name@ == function_name_text(*name));
            push_slice(&mut out, func_name);
            out.push('(');
            push_operand(&mut out, &args.0);
            out.push(':');
            push_operand(&mut out, &args.1);
            out.push(')');
        },
        ParsedRHS::Arithmetic { lhs, operator, rhs } => {
            push_operand(&mut out, lhs);
            out.push(*operator);
            push_operand(&mut out, rhs);
        },
        ParsedRHS::Sleep(op) => {
            let sleep = ['S', 'L', 'E', 'E', 'P', '('];
            assert(sleep@ == seq!['S', 'L', 'E', 'E', 'P', '(']);
            push_slice(&mut out, &sleep);
            push_operand(&mut out, op);
            out.push(')');
        },
        ParsedRHS::SingleValue(op) => {
            push_operand(&mut out, op);
        },
        ParsedRHS::Empty => {},
    }
    proof {
        assert(out@ == formula_text(*formula));
    }
    string_from_chars(&out)
}

/// The status text of a refused update: `prefix` followed by `what`.
pub open spec fn refusal(prefix: Seq<char>, what: Seq<char>) -> Seq<char> {
    prefix + what
}

/// Updates the cell named `cell` with the command text `rhs`, as the web
/// page does: a name that is not a cell of the grid gives the status
/// `Invalid cell identifier: NAME`, an invalid command `Invalid formula: RHS`,
/// and otherwise the assignment's own status. Returns the status, the cell's
/// value afterwards (none for a name that is not a cell of the grid) and the
/// seconds each evaluation of a `SLEEP` asked to wait.
pub fn update_cell(sheet: &mut Box<Spreadsheet>, cell: &str, rhs: &str) -> (r: (String, Option<i32>, Vec<u32>))
    requires
        old(sheet).sheet_ok(),
        ({
            let c = command_spec(old(sheet).rows as int, old(sheet).cols as int, cell@, rhs@);
            c.0 && is_copy_range(c.3) ==> old(sheet).copy_ok(range_args(c.3).0, range_args(c.3).1)
        }),
    ensures
        final(sheet).sheet_ok(),
        ({
            let c = command_spec(old(sheet).rows as int, old(sheet).cols as int, cell@, rhs@);
            let name = crate::naming::parse_cell_name_spec(old(sheet).rows as int, old(sheet).cols as int, cell@);
            match name {
                None => **final(sheet) == **old(sheet) && r.0@ == refusal("Invalid cell identifier: "@, cell@)
                    && r.1 is None && r.2@.len() == 0,
                Some(rc) => if c.0 {
                    old(sheet).set_rel(**final(sheet), rc, c.3, r.0@, r.2@)
                        && r.1 == Some(final(sheet).cell(rc.0 as int, rc.1 as int).value)
                } else {
                    **final(sheet) == **old(sheet) && r.0@ == refusal("Invalid formula: "@, rhs@)
                        && r.1 == Some(old(sheet).cell(rc.0 as int, rc.1 as int).value) && r.2@.len() == 0
                },
            }
        }),
{
    let mut status = String::new();
    match sheet.spreadsheet_parse_cell_name(cell) {
        Some((row, col)) => {
            proof {
                crate::naming::lemma_cell_name_valid(sheet.rows as int, sheet.cols as int, cell@);
            }
            let (is_valid, _, _, parsed) = sheet.is_valid_command(cell, rhs);
            let mut sleeps: Vec<u32> = Vec::new();
            if is_valid {
                proof {
                    sheet.lemma_command_ok(cell@, rhs@);
                }
                sleeps = sheet.spreadsheet_set_cell_value(row, col, parsed, &mut status);
            } else {
                let mut out: Vec<char> = Vec::new();
                let prefix = ['I', 'n', 'v', 'a', 'l', 'i', 'd', ' ', 'f', 'o', 'r', 'm', 'u', 'l', 'a', ':', ' '];
                proof {
                    reveal_strlit("Invalid formula: ");
                }
                assert(prefix@ == "Invalid formula: "@);
                push_slice(&mut out, &prefix);
                push_slice(&mut out, chars_of(rhs).as_slice());
                status = string_from_chars(&out);
            }
            let idx = sheet.index_of(row, col);
            assert(sheet.slot(row as int, col as int) is Some);
            let value = match &sheet.cells[idx] {
                Some(b) => Some(b.value),
                None => None,
            };
            (status, value, sleeps)
        },
        None => {
            let mut out: Vec<char> = Vec::new();
            let prefix = ['I', 'n', 'v', 'a', 'l', 'i', 'd', ' ', 'c', 'e', 'l', 'l', ' ', 'i', 'd', 'e', 'n', 't', 'i', 'f', 'i', 'e', 'r', ':', ' '];
            proof {
                reveal_strlit("Invalid cell identifier: ");
            }
            assert(prefix@ == "Invalid cell identifier: "@);
            push_slice(&mut out, &prefix);
            push_slice(&mut out, chars_of(cell).as_slice());
            status = string_from_chars(&out);
            (status, None, Vec::new())
        },
    }
}

} // verus!
