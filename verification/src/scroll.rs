use vstd::prelude::*;
use crate::spreadsheet::{ParsedRHS, Spreadsheet};
use crate::naming::{parse_cell_name_chars, parse_cell_name_spec};
use crate::command::command_spec;
use crate::assign::{is_copy_range, range_args};
use crate::text::chars_of;
use crate::downloader::cell_name_text;

verus! {

/// The text `scroll_to`.
pub open spec fn scroll_to_text() -> Seq<char> {
    seq!['s', 'c', 'r', 'o', 'l', 'l', '_', 't', 'o']
}

/// The command starts with `scroll_to`.
pub open spec fn is_scroll_to(cmd: Seq<char>) -> bool {
    cmd.len() >= 9 && cmd.take(9) == scroll_to_text()
}

/// A one-letter scroll command: `w` up, `s` down, `a` left, `d` right.
pub open spec fn is_wasd(cmd: Seq<char>) -> bool {
    cmd.len() == 1 && (cmd[0] == 'w' || cmd[0] == 'a' || cmd[0] == 's' || cmd[0] == 'd')
}

/// The view after a one-letter scroll command: ten rows or columns at a
/// time, never before the first row or column, and (when moving down or
/// right) never past ten before the last.
pub open spec fn scrolled(s: Spreadsheet, c: char) -> (i16, i16) {
    if c == 'w' && s.view_row > 0 {
        (if s.view_row - 10 > 0 { (s.view_row - 10) as i16 } else { 0 }, s.view_col)
    } else if c == 's' && s.view_row < s.rows - 10 {
        (if s.view_row + 10 < s.rows - 10 { (s.view_row + 10) as i16 } else { (s.rows - 10) as i16 }, s.view_col)
    } else if c == 'a' && s.view_col > 0 {
        (s.view_row, if s.view_col - 10 > 0 { (s.view_col - 10) as i16 } else { 0 })
    } else if c == 'd' && s.view_col < s.cols - 10 {
        (s.view_row, if s.view_col + 10 < s.cols - 10 { (s.view_col + 10) as i16 } else { (s.cols - 10) as i16 })
    } else {
        (s.view_row, s.view_col)
    }
}

/// The larger of two integers.
pub open spec fn larger(a: int, b: int) -> int {
    if a >= b { a } else { b }
}

/// The smaller of two integers.
pub open spec fn smaller(a: int, b: int) -> int {
    if a <= b { a } else { b }
}

/// `w` moves the view up ten rows but not above the first row, `s` down ten
/// rows but not past ten rows before the last, `a` left ten columns but not
/// before the first column, `d` right ten columns but not past ten columns
/// before the last; each moves only along its own direction, and a move that
/// is not possible leaves the view where it is.
pub proof fn law_scroll_steps(s: Spreadsheet)
    ensures
        s.view_row > 0 ==> scrolled(s, 'w') == (larger(s.view_row - 10, 0) as i16, s.view_col),
        1 <= s.view_row <= 10 ==> scrolled(s, 'w').0 == 0,
        s.view_row <= 0 ==> scrolled(s, 'w') == (s.view_row, s.view_col),
        s.view_row < s.rows - 10 ==> scrolled(s, 's') == (smaller(s.view_row + 10, s.rows - 10) as i16, s.view_col),
        s.view_row >= s.rows - 10 ==> scrolled(s, 's') == (s.view_row, s.view_col),
        s.view_col > 0 ==> scrolled(s, 'a') == (s.view_row, larger(s.view_col - 10, 0) as i16),
        s.view_col <= 0 ==> scrolled(s, 'a') == (s.view_row, s.view_col),
        s.view_col < s.cols - 10 ==> scrolled(s, 'd') == (s.view_row, smaller(s.view_col + 10, s.cols - 10) as i16),
        s.view_col >= s.cols - 10 ==> scrolled(s, 'd') == (s.view_row, s.view_col),
{
}

fn set_status(status: &mut String, text: &str)
    ensures
        final(status)@ == text@,
{
    *status = text.to_owned();
}

/// Runs a navigation command: `w`, `a`, `s`, `d` scroll the view by ten
/// rows or columns (status `ok`); `scroll_to NAME` moves the view's corner to
/// the named cell (status `ok`, or `invalid cell`); anything else leaves the
/// view and reports `invalid command`.
pub fn execute_command(sheet: &mut Box<Spreadsheet>, cmd: &str, status: &mut String)
    requires
        is_scroll_to(cmd@) ==> cmd@.len() >= 10 && (cmd@[9] as u32) < 128,
    ensures
        final(sheet).rows == old(sheet).rows,
        final(sheet).cols == old(sheet).cols,
        final(sheet).cells == old(sheet).cells,
        final(sheet).undo_stack == old(sheet).undo_stack,
        is_wasd(cmd@) ==> (final(sheet).view_row, final(sheet).view_col) == scrolled(**old(sheet), cmd@[0])
            && final(status)@ == "ok"@,
        cmd@ == seq!['w'] && old(sheet).view_row > 0 ==> final(sheet).view_row == larger(old(sheet).view_row - 10, 0)
            && final(sheet).view_col == old(sheet).view_col,
        forall|r: int, c: int| #![trigger cell_name_text(r, c)]
            1 <= r <= old(sheet).rows && 1 <= c <= old(sheet).cols && is_scroll_to(cmd@) && cmd@.skip(10)
                == cell_name_text(r, c) ==> final(sheet).view_row == r - 1 && final(sheet).view_col == c - 1
                && final(status)@ == "ok"@,
        !is_wasd(cmd@) && is_scroll_to(cmd@) ==> match parse_cell_name_spec(old(sheet).rows as int, old(sheet).cols as int, cmd@.skip(10)) {
            Some(rc) => final(sheet).view_row == rc.0 - 1 && final(sheet).view_col == rc.1 - 1 && final(status)@ == "ok"@,
            None => final(sheet).view_row == old(sheet).view_row && final(sheet).view_col == old(sheet).view_col
                && final(status)@ == "invalid cell"@,
        },
        !is_wasd(cmd@) && !is_scroll_to(cmd@) ==> final(sheet).view_row == old(sheet).view_row
            && final(sheet).view_col == old(sheet).view_col && final(status)@ == "invalid command"@,
{
    proof {
        assert forall|r: int, c: int| #![trigger cell_name_text(r, c)]
            1 <= r <= old(sheet).rows && 1 <= c <= old(sheet).cols implies parse_cell_name_spec(
                old(sheet).rows as int, old(sheet).cols as int, cell_name_text(r, c)) == Some((r as i16, c as i16)) by {
            crate::naming::law_cell_name_round_trip(old(sheet).rows as int, old(sheet).cols as int, r, c);
        }
    }
    let v = chars_of(cmd);
    if v.len() == 1 && (v[0] == 'w' || v[0] == 'a' || v[0] == 's' || v[0] == 'd') {
        let c = v[0];
        if c == 'w' && sheet.view_row > 0 {
            let x = sheet.view_row - 10;
            sheet.view_row = if x > 0 { x } else { 0 };
        } else if c == 's' && (sheet.view_row as i32) < sheet.rows as i32 - 10 {
            let x = sheet.view_row + 10;
            let lim = sheet.rows - 10;
            sheet.view_row = if x < lim { x } else { lim };
        } else if c == 'a' && sheet.view_col > 0 {
            let x = sheet.view_col - 10;
            sheet.view_col = if x > 0 { x } else { 0 };
        } else if c == 'd' && (sheet.view_col as i32) < sheet.cols as i32 - 10 {
            let x = sheet.view_col + 10;
            let lim = sheet.cols - 10;
            sheet.view_col = if x < lim { x } else { lim };
        }
        set_status(status, "ok");
    } else if v.len() >= 9 && v[0] == 's' && v[1] == 'c' && v[2] == 'r' && v[3] == 'o' && v[4] == 'l'
        && v[5] == 'l' && v[6] == '_' && v[7] == 't' && v[8] == 'o' {
        proof {
            assert(v@.take(9) == scroll_to_text());
            assert(v@.subrange(10, v@.len() as int) == cmd@.skip(10));
        }
        match parse_cell_name_chars(&v, 10, v.len(), sheet.rows, sheet.cols) {
            Some((row, col)) => {
                proof {
                    crate::naming::lemma_cell_name_valid(sheet.rows as int, sheet.cols as int, cmd@.skip(10));
                }
                sheet.view_row = row - 1;
                sheet.view_col = col - 1;
                set_status(status, "ok");
            },
            None => {
                set_status(status, "invalid cell");
            },
        }
    } else {
        proof {
            if is_scroll_to(cmd@) {
                assert(cmd@.take(9)[0] == 's');
                assert(cmd@.take(9)[1] == 'c');
                assert(cmd@.take(9)[2] == 'r');
                assert(cmd@.take(9)[3] == 'o');
                assert(cmd@.take(9)[4] == 'l');
                assert(cmd@.take(9)[5] == 'l');
                assert(cmd@.take(9)[6] == '_');
                assert(cmd@.take(9)[7] == 't');
                assert(cmd@.take(9)[8] == 'o');
            }
        }
        set_status(status, "invalid command");
    }
}

/// Assigns a formula to a named cell when the name is a cell of the grid and
/// the command is valid (see [`Spreadsheet::is_valid_command`]); otherwise
/// nothing happens. Returns the seconds each evaluation of a `SLEEP` asks to
/// wait.
pub fn set_cell(sheet: &mut Box<Spreadsheet>, cell_name: &str, formula: &str) -> (sleeps: Vec<u32>)
    requires
        old(sheet).sheet_ok(),
        ({
            let c = command_spec(old(sheet).rows as int, old(sheet).cols as int, cell_name@, formula@);
            c.0 && is_copy_range(c.3) ==> old(sheet).copy_ok(range_args(c.3).0, range_args(c.3).1)
        }),
    ensures
        final(sheet).sheet_ok(),
        ({
            let c = command_spec(old(sheet).rows as int, old(sheet).cols as int, cell_name@, formula@);
            if c.0 {
                exists|status: Seq<char>| old(sheet).set_rel(**final(sheet), (c.1, c.2), c.3, status, sleeps@)
            } else {
                **final(sheet) == **old(sheet) && sleeps@.len() == 0
            }
        }),
{
    let mut status = String::new();
    match sheet.spreadsheet_parse_cell_name(cell_name) {
        Some((row, col)) => {
            let (valid, _, _, rhs) = sheet.is_valid_command(cell_name, formula);
            if valid {
                proof {
                    sheet.lemma_command_ok(cell_name@, formula@);
                }
                let sleeps = sheet.spreadsheet_set_cell_value(row, col, rhs, &mut status);
                return sleeps;
            }
            Vec::new()
        },
        None => Vec::new(),
    }
}

} // verus!
