use cop::cell::{Cell, Dependents};
use cop::downloader::{column_to_letter, convert_range_to_excel, operand_to_excel_ref, to_csv, to_xlsx, xlsx_workbook};
use cop::graph_data::{data_bounds, graph_data, parse_ranges, sorted_by_x, GraphOptions, GraphType};
use cop::sharing::{may_open, set_sheet_status, sheet_file_name, SheetEntry};
use cop::handlers::{formula_to_string, update_cell};
use cop::loader::{
    csv_copies_fit, csv_count_columns, file_kind, from_csv_lines, from_excel_cells, load_spreadsheet, parse_csv_row, ExcelCell,
    FileKind, LoadError,
};
use cop::login::{
    create_session, generate_reset_code, reset_code_from, lookup_user, new_user, record_session, validate_session, verify_password,
    verify_user, Session, User, SESSION_DURATION,
};
use cop::scroll::{execute_command, set_cell};
use cop::saved::{rebuild_sheet, restore_undo_stack, saved_formulas, saved_undo_history};
use cop::spreadsheet::{FunctionName, Operand, ParsedRHS, Spreadsheet};

fn value_at(sheet: &Spreadsheet, row: i16, col: i16) -> i32 {
    let idx = (row as usize - 1) * sheet.cols as usize + (col as usize - 1);
    sheet.cells[idx].as_ref().unwrap().value
}

fn error_at(sheet: &Spreadsheet, row: i16, col: i16) -> bool {
    let idx = (row as usize - 1) * sheet.cols as usize + (col as usize - 1);
    sheet.cells[idx].as_ref().unwrap().error
}

fn formula_at(sheet: &Spreadsheet, row: i16, col: i16) -> ParsedRHS {
    let idx = (row as usize - 1) * sheet.cols as usize + (col as usize - 1);
    sheet.cells[idx].as_ref().unwrap().formula
}

fn assign(sheet: &mut Spreadsheet, cell: &str, formula: &str) -> String {
    let (valid, row, col, rhs) = sheet.is_valid_command(cell, formula);
    assert!(valid, "{}={} should be valid", cell, formula);
    let mut status = String::new();
    sheet.spreadsheet_set_cell_value(row, col, rhs, &mut status);
    status
}

#[test]
fn test_column_round_trip() {
    for col in 1..=2000i16 {
        let letters = Spreadsheet::col_to_letter(col);
        assert_eq!(Spreadsheet::letter_to_col(&letters), col);
    }
    assert_eq!(Spreadsheet::col_to_letter(32767), "AVLG");
    assert_eq!(Spreadsheet::letter_to_col("AVLG"), 32767);
    assert_eq!(Spreadsheet::col_to_letter(0), "");
}

#[test]
fn test_cell_name_round_trip() {
    let sheet = Spreadsheet::spreadsheet_create(40, 60).unwrap();
    for row in 1..=40i16 {
        for col in 1..=60i16 {
            let name = Spreadsheet::get_cell_name(row, col);
            assert_eq!(sheet.spreadsheet_parse_cell_name(&name), Some((row, col)));
        }
    }
    assert_eq!(sheet.spreadsheet_parse_cell_name("BH40"), Some((40, 60)));
    assert_eq!(sheet.spreadsheet_parse_cell_name("BI1"), None);
    // A lower-case letter weighs its character code minus 64, as in the fold.
    assert_eq!(sheet.spreadsheet_parse_cell_name("a1"), Some((1, 33)));
}

#[test]
fn test_dependents_membership() {
    let mut cell = Cell::create(1, 1);
    cell.dep_insert(2, 3);
    assert!(cell.contains(2, 3));
    assert!(!cell.contains(3, 2));
    cell.dep_remove(2, 3);
    assert!(!cell.contains(2, 3));
    assert!(matches!(cell.dependents, Dependents::Vector(ref v) if v.is_empty()));
    for k in 0..9 {
        cell.dep_insert(k, k + 1);
    }
    assert!(matches!(cell.dependents, Dependents::OrderedSet(_)));
    cell.dep_remove(4, 5);
    assert!(!cell.contains(4, 5));
    assert!(cell.contains(5, 6));
}

#[test]
fn test_undo_restores_and_redoes() {
    let mut sheet = Spreadsheet::spreadsheet_create(5, 5).unwrap();
    assert_eq!(assign(&mut sheet, "A1", "7"), "ok");
    assert_eq!(assign(&mut sheet, "B1", "A1+1"), "ok");
    assert_eq!(value_at(&sheet, 1, 2), 8);
    sheet.undo_stack.clear();
    assert_eq!(assign(&mut sheet, "B1", "A1*3"), "ok");
    assert_eq!(value_at(&sheet, 1, 2), 21);
    let mut status = String::new();
    sheet.spreadsheet_undo(&mut status);
    assert_eq!(status, "ok");
    assert_eq!(value_at(&sheet, 1, 2), 8);
    assert_eq!(
        formula_at(&sheet, 1, 2),
        ParsedRHS::Arithmetic { lhs: Operand::Cell(1, 1), operator: '+', rhs: Operand::Number(1) }
    );
    assert_eq!(sheet.undo_stack.len(), 1);
    sheet.spreadsheet_undo(&mut status);
    assert_eq!(value_at(&sheet, 1, 2), 21);
    // A1 still feeds B1 after the round trip.
    assert_eq!(assign(&mut sheet, "A1", "2"), "ok");
    assert_eq!(value_at(&sheet, 1, 2), 6);
}

#[test]
fn test_values_determined_by_formulas() {
    let mut first = Spreadsheet::spreadsheet_create(4, 4).unwrap();
    assign(&mut first, "A1", "2");
    assign(&mut first, "B1", "A1+1");
    assign(&mut first, "C1", "SUM(A1:B1)");
    assign(&mut first, "D1", "C1/0");
    let mut second = Spreadsheet::spreadsheet_create(4, 4).unwrap();
    assign(&mut second, "D1", "C1/0");
    assign(&mut second, "C1", "SUM(A1:B1)");
    assign(&mut second, "B1", "A1+1");
    assign(&mut second, "A1", "2");
    for col in 1..=4 {
        assert_eq!(value_at(&first, 1, col), value_at(&second, 1, col));
        assert_eq!(error_at(&first, 1, col), error_at(&second, 1, col));
    }
    assert_eq!(value_at(&first, 1, 3), 5);
    assert!(error_at(&first, 1, 4));
}

#[test]
fn test_cycle_refused_leaves_sheet() {
    let mut sheet = Spreadsheet::spreadsheet_create(3, 3).unwrap();
    assign(&mut sheet, "A1", "B1");
    assign(&mut sheet, "B1", "4");
    assert_eq!(value_at(&sheet, 1, 1), 4);
    let undo_before = sheet.undo_stack.len();
    assert_eq!(assign(&mut sheet, "B1", "A1+1"), "Cycle Detected");
    assert_eq!(value_at(&sheet, 1, 2), 4);
    assert_eq!(formula_at(&sheet, 1, 2), ParsedRHS::SingleValue(Operand::Number(4)));
    assert_eq!(sheet.undo_stack.len(), undo_before);
    assert_eq!(assign(&mut sheet, "C3", "SUM(A1:C3)"), "Cycle Detected");
    assert_eq!(assign(&mut sheet, "C2", "C2"), "Cycle Detected");
}

#[test]
fn test_errors_cascade() {
    let mut sheet = Spreadsheet::spreadsheet_create(3, 5).unwrap();
    assign(&mut sheet, "A1", "1/0");
    assign(&mut sheet, "B1", "A1+1");
    assign(&mut sheet, "C1", "SUM(A1:B1)");
    assign(&mut sheet, "D1", "SLEEP(A1)");
    assign(&mut sheet, "E1", "B1");
    for col in 1..=5 {
        assert!(error_at(&sheet, 1, col), "column {} should be in error", col);
    }
    assign(&mut sheet, "A1", "3");
    assert!(!error_at(&sheet, 1, 2));
    assert_eq!(value_at(&sheet, 1, 3), 7);
    assert_eq!(value_at(&sheet, 1, 5), 4);
}

#[test]
fn test_to_csv_text() {
    let mut sheet = Spreadsheet::spreadsheet_create(2, 3).unwrap();
    assign(&mut sheet, "A1", "5");
    assign(&mut sheet, "C2", "-7");
    assign(&mut sheet, "B2", "A1*2");
    assert_eq!(to_csv(&sheet).unwrap(), "A,B,C\n5,0,0\n0,10,-7\n");
    let empty = Spreadsheet::spreadsheet_create(0, 0).unwrap();
    assert_eq!(to_csv(&empty).unwrap(), "\n");
}

#[test]
fn test_to_xlsx_bytes() {
    let mut sheet = Spreadsheet::spreadsheet_create(3, 3).unwrap();
    assign(&mut sheet, "A1", "5");
    assign(&mut sheet, "B1", "SUM(A1:A3)");
    let bytes = to_xlsx(&sheet).unwrap();
    assert!(bytes.len() > 100);
    assert_eq!(&bytes[0..2], b"PK");
    assert!(xlsx_workbook(&sheet).is_ok());
    let wide = Spreadsheet::spreadsheet_create(1, 16385).unwrap();
    assert!(xlsx_workbook(&wide).is_err());
    assert!(to_xlsx(&wide).is_err());
    let widest_ok = Spreadsheet::spreadsheet_create(1, 16384).unwrap();
    assert!(to_xlsx(&widest_ok).is_ok());
}

#[test]
fn test_excel_references() {
    assert_eq!(column_to_letter(1), "A");
    assert_eq!(column_to_letter(28), "AB");
    assert_eq!(column_to_letter(0), "");
    assert_eq!(operand_to_excel_ref(&Operand::Cell(12, 3)), "C12");
    assert_eq!(operand_to_excel_ref(&Operand::Number(-42)), "-42");
    assert_eq!(convert_range_to_excel(&Operand::Cell(1, 1), &Operand::Cell(10, 27)), "A1:AA10");
    assert_eq!(convert_range_to_excel(&Operand::Number(1), &Operand::Cell(10, 27)), "A1");
}

#[test]
fn test_csv_fields() {
    assert_eq!(csv_count_columns("a,b,c").unwrap(), 3);
    assert_eq!(csv_count_columns("").unwrap(), 1);
    assert_eq!(csv_count_columns("\"x,y\",z").unwrap(), 2);
    assert_eq!(csv_count_columns("\"a\"\"b\",c").unwrap(), 2);
    assert_eq!(parse_csv_row("1,2,3").unwrap(), vec!["1", "2", "3"]);
    assert_eq!(parse_csv_row("\"x,y\",z").unwrap(), vec!["x,y", "z"]);
    assert_eq!(parse_csv_row("\"say \"\"hi\"\"\",").unwrap(), vec!["say \"hi\"", ""]);
}

#[test]
fn test_from_csv_lines() {
    let lines = vec![
        "A,B,C".to_string(),
        "1,2,=A1+B1".to_string(),
        "text,=SUM(A1:C1),\"-4\"".to_string(),
        "=XYZ,7".to_string(),
    ];
    let (sheet, sleeps) = from_csv_lines(&lines).unwrap();
    assert!(sleeps.iter().all(|&s| s == 0));
    assert_eq!((sheet.rows, sheet.cols), (3, 3));
    assert_eq!(value_at(&sheet, 1, 3), 3);
    assert_eq!(value_at(&sheet, 2, 1), 0);
    assert_eq!(value_at(&sheet, 2, 2), 6);
    assert_eq!(value_at(&sheet, 2, 3), -4);
    assert_eq!(value_at(&sheet, 3, 1), 0);
    assert_eq!(value_at(&sheet, 3, 2), 7);
    assert_eq!(value_at(&sheet, 3, 3), 0);
    assert!(matches!(from_csv_lines(&Vec::new()), Err(LoadError::EmptyCsv)));
    let (header_only, _) = from_csv_lines(&vec!["A,B".to_string()]).unwrap();
    assert_eq!((header_only.rows, header_only.cols), (0, 2));
}

#[test]
fn test_csv_round_trip() {
    let mut sheet = Spreadsheet::spreadsheet_create(3, 2).unwrap();
    assign(&mut sheet, "A1", "4");
    assign(&mut sheet, "B2", "-9");
    assign(&mut sheet, "A3", "A1*3");
    let text = to_csv(&sheet).unwrap();
    let lines: Vec<String> = text.lines().map(|l| l.to_string()).collect();
    let (back, _) = from_csv_lines(&lines).unwrap();
    assert_eq!((back.rows, back.cols), (3, 2));
    for r in 1..=3 {
        for c in 1..=2 {
            assert_eq!(value_at(&back, r, c), value_at(&sheet, r, c));
        }
    }
}

#[test]
fn test_from_excel_cells() {
    let cells = vec![
        vec![ExcelCell::Int(4), ExcelCell::Number(9)],
        vec![ExcelCell::Other, ExcelCell::Int(5_000_000_000)],
    ];
    let (sheet, _) = from_excel_cells(2, 2, &cells).unwrap();
    assert_eq!(value_at(&sheet, 1, 1), 4);
    assert_eq!(value_at(&sheet, 1, 2), 9);
    assert_eq!(value_at(&sheet, 2, 1), 0);
    assert_eq!(value_at(&sheet, 2, 2), 0);
    assert!(matches!(from_excel_cells(0, 3, &Vec::new()), Err(LoadError::EmptyExcel)));
}

#[test]
fn test_load_spreadsheet_kinds() {
    assert_eq!(load_spreadsheet("data/sheet.csv").unwrap(), FileKind::Csv);
    assert_eq!(load_spreadsheet("Report.XLSX").unwrap(), FileKind::Excel);
    assert_eq!(load_spreadsheet("old.Xls").unwrap(), FileKind::Excel);
    match load_spreadsheet("notes.TXT") {
        Err(LoadError::UnsupportedExtension(ext)) => assert_eq!(ext, "txt"),
        _ => panic!("expected an unsupported extension"),
    }
    assert!(matches!(load_spreadsheet("README"), Err(LoadError::NoExtension)));
    assert!(matches!(load_spreadsheet(".hidden"), Err(LoadError::NoExtension)));
    assert_eq!(file_kind("csv".to_string()).unwrap(), FileKind::Csv);
    assert!(matches!(file_kind("CSV".to_string()), Err(LoadError::UnsupportedExtension(_))));
}

#[test]
fn test_scroll_commands() {
    let mut sheet = Spreadsheet::spreadsheet_create(25, 25).unwrap();
    let mut status = String::new();
    execute_command(&mut sheet, "s", &mut status);
    assert_eq!((sheet.view_row, sheet.view_col, status.as_str()), (10, 0, "ok"));
    execute_command(&mut sheet, "d", &mut status);
    assert_eq!((sheet.view_row, sheet.view_col), (10, 10));
    execute_command(&mut sheet, "s", &mut status);
    assert_eq!((sheet.view_row, sheet.view_col), (15, 10));
    execute_command(&mut sheet, "scroll_to P20", &mut status);
    assert_eq!((sheet.view_row, sheet.view_col, status.as_str()), (19, 15, "ok"));
    execute_command(&mut sheet, "w", &mut status);
    assert_eq!((sheet.view_row, sheet.view_col), (9, 15));
    execute_command(&mut sheet, "a", &mut status);
    assert_eq!((sheet.view_row, sheet.view_col), (9, 5));
    execute_command(&mut sheet, "scroll_to Z99", &mut status);
    assert_eq!((sheet.view_row, sheet.view_col, status.as_str()), (9, 5, "invalid cell"));
    execute_command(&mut sheet, "jump", &mut status);
    assert_eq!(status, "invalid command");
}

#[test]
fn test_set_cell_helper() {
    let mut sheet = Spreadsheet::spreadsheet_create(5, 5).unwrap();
    set_cell(&mut sheet, "A1", "12");
    set_cell(&mut sheet, "A2", "A1-2");
    set_cell(&mut sheet, "Z9", "4");
    set_cell(&mut sheet, "A3", "A1+");
    set_cell(&mut sheet, "A4", "A1++1");
    assert_eq!(value_at(&sheet, 1, 1), 12);
    assert_eq!(value_at(&sheet, 2, 1), 10);
    assert_eq!(value_at(&sheet, 3, 1), 0);
    assert_eq!(value_at(&sheet, 4, 1), 13);
}

#[test]
fn test_display_text() {
    let mut sheet = Spreadsheet::spreadsheet_create(2, 3).unwrap();
    assign(&mut sheet, "A1", "5");
    assign(&mut sheet, "C2", "-7");
    assign(&mut sheet, "B2", "A1/0");
    let expected = format!(
        "\t\tA\t\tB\t\tC\t\t\n1\t\t{:<16}{:<16}{:<16}\n2\t\t{:<16}ERR\t\t{:<16}\n",
        5, 0, 0, 0, -7
    );
    assert_eq!(sheet.spreadsheet_display_text(), expected);
}

#[test]
fn test_graph_ranges() {
    let mut sheet = Spreadsheet::spreadsheet_create(5, 5).unwrap();
    assign(&mut sheet, "A1", "1");
    assign(&mut sheet, "A2", "2");
    assign(&mut sheet, "A3", "3");
    assign(&mut sheet, "B1", "10");
    assign(&mut sheet, "C1", "20");
    assign(&mut sheet, "D1", "30");
    let (xs, ys) = parse_ranges(&sheet, "A1:A3", "B1:D1").unwrap();
    assert_eq!(xs, vec![1, 2, 3]);
    assert_eq!(ys, vec![10, 20, 30]);
    assert_eq!(graph_data(&sheet, "A1:A3", "B1:D1").unwrap(), vec![(1, 10), (2, 20), (3, 30)]);
    assert_eq!(parse_ranges(&sheet, "A1-A3", "B1:D1").unwrap_err(), "Invalid range format. Expected format: A1:A10");
    assert_eq!(parse_ranges(&sheet, "A1:A3:A4", "B1:D1").unwrap_err(), "Invalid range format. Expected format: A1:A10");
    assert_eq!(parse_ranges(&sheet, "Q1:A3", "B1:D1").unwrap_err(), "Invalid start cell in X range");
    assert_eq!(parse_ranges(&sheet, "A1:A9", "B1:D1").unwrap_err(), "Invalid end cell in X range");
    assert_eq!(parse_ranges(&sheet, "A1:A3", "B0:D1").unwrap_err(), "Invalid start cell in Y range");
    assert_eq!(parse_ranges(&sheet, "A1:A3", "B1:1D").unwrap_err(), "Invalid end cell in Y range");
    assert_eq!(parse_ranges(&sheet, "A1:A3", "B1:C1").unwrap_err(), "X and Y ranges must have the same length");
    let options = GraphOptions::default();
    assert_eq!(options.title, "Graph");
    assert_eq!((options.width, options.height), (800, 600));
    assert_eq!(options.graph_type, GraphType::Line);
}

#[test]
fn test_formula_text_and_update_cell() {
    assert_eq!(formula_to_string(&ParsedRHS::Empty), "");
    assert_eq!(formula_to_string(&ParsedRHS::SingleValue(Operand::Number(-3))), "-3");
    assert_eq!(
        formula_to_string(&ParsedRHS::Arithmetic { lhs: Operand::Cell(2, 1), operator: '*', rhs: Operand::Number(4) }),
        "A2*4"
    );
    assert_eq!(
        formula_to_string(&ParsedRHS::Function { name: FunctionName::Stdev, args: (Operand::Cell(1, 1), Operand::Cell(3, 2)) }),
        "STDEV(A1:B3)"
    );
    assert_eq!(formula_to_string(&ParsedRHS::Sleep(Operand::Cell(1, 3))), "SLEEP(C1)");

    let mut sheet = Spreadsheet::spreadsheet_create(4, 4).unwrap();
    let (status, value, _) = update_cell(&mut sheet, "B2", "6*7");
    assert_eq!((status.as_str(), value), ("ok", Some(42)));
    let (status, value, _) = update_cell(&mut sheet, "Q9", "1");
    assert_eq!((status.as_str(), value), ("Invalid cell identifier: Q9", None));
    let (status, value, _) = update_cell(&mut sheet, "B2", "1+");
    assert_eq!((status.as_str(), value), ("Invalid formula: 1+", Some(42)));
    let (status, _, sleeps) = update_cell(&mut sheet, "C3", "SLEEP(2)");
    assert_eq!(status, "ok");
    assert_eq!(sleeps, vec![2]);
}

#[test]
fn test_sessions() {
    let mut sessions: Vec<(String, Session)> = Vec::new();
    let id = create_session(&mut sessions, "alice", 1_000);
    assert_eq!(id.len(), 36);
    assert_eq!(validate_session(&sessions, &id, 1_000), Some("alice".to_string()));
    assert_eq!(validate_session(&sessions, &id, 1_000 + SESSION_DURATION - 1), Some("alice".to_string()));
    assert_eq!(validate_session(&sessions, &id, 1_000 + SESSION_DURATION), None);
    assert_eq!(validate_session(&sessions, "no-such-id", 1_000), None);
    let other = create_session(&mut sessions, "bob", 2_000);
    assert_ne!(other, id);
    assert_eq!(validate_session(&sessions, &other, 2_001), Some("bob".to_string()));
    assert_eq!(validate_session(&sessions, &id, 2_001), Some("alice".to_string()));
    record_session(&mut sessions, id.clone(), "carol", 5_000);
    assert_eq!(sessions.len(), 2);
    assert_eq!(validate_session(&sessions, &id, 5_000 + SESSION_DURATION - 1), Some("carol".to_string()));
}

#[test]
fn test_signup_then_login() {
    let mut users: Vec<User> = Vec::new();
    let user = new_user(&users, "bob", "hunter2").unwrap();
    assert_eq!(user.username, "bob");
    assert!(user.password_hash.starts_with("$argon2"));
    assert_ne!(user.password_hash, "hunter2");
    users.push(user);
    assert_eq!(lookup_user(&users, "bob"), Some(0));
    assert_eq!(verify_user(&users, "bob", "hunter2"), Ok(true));
    assert_eq!(verify_user(&users, "bob", "hunter3"), Ok(false));
    assert_eq!(verify_user(&users, "eve", "hunter2"), Ok(false));
    assert_eq!(new_user(&users, "bob", "x").unwrap_err(), "Username already exists");
    assert_eq!(new_user(&users, "", "x").unwrap_err(), "Username and password cannot be empty");
    assert_eq!(new_user(&users, "amy", "").unwrap_err(), "Username and password cannot be empty");
    assert_eq!(verify_password("x", "not a hash"), Err("Invalid password hash format".to_string()));
    users.push(User { username: "mallory".to_string(), password_hash: "plain".to_string() });
    assert_eq!(verify_user(&users, "mallory", "plain"), Err("Invalid password hash format".to_string()));
}

#[test]
fn test_reset_code() {
    for _ in 0..20 {
        let code = generate_reset_code();
        assert_eq!(code.chars().count(), 8);
        assert!(code.chars().all(|c| c.is_ascii_uppercase() || c.is_ascii_digit()));
    }
}

#[test]
fn test_function_names() {
    assert_eq!(FunctionName::from_strng("sum"), Some(FunctionName::Sum));
    assert_eq!(FunctionName::from_strng("Stdev"), Some(FunctionName::Stdev));
    assert_eq!(FunctionName::from_strng("COPY"), Some(FunctionName::Copy));
    assert_eq!(FunctionName::from_strng("SUMS"), None);
    assert!(FunctionName::Copy.is_copy());
    assert!(!FunctionName::Max.is_copy());
}

#[test]
fn test_sheet_status_and_access() {
    let mut entries: Vec<SheetEntry> = Vec::new();
    assert_eq!(set_sheet_status(&mut entries, "budget", "shared"), Err("Invalid status".to_string()));
    assert!(entries.is_empty());
    set_sheet_status(&mut entries, "budget", "private").unwrap();
    set_sheet_status(&mut entries, "plan", "public").unwrap();
    assert_eq!(entries.len(), 2);
    set_sheet_status(&mut entries, "budget", "public").unwrap();
    assert_eq!(entries.len(), 2);
    assert_eq!(entries[0].status, "public");
    set_sheet_status(&mut entries, "plan", "private").unwrap();
    assert_eq!(entries[1].status, "private");

    let alice = Some("alice".to_string());
    let bob = Some("bob".to_string());
    assert!(may_open(&alice, "alice", &entries, "plan"));
    assert!(!may_open(&bob, "alice", &entries, "plan"));
    assert!(may_open(&bob, "alice", &entries, "budget"));
    assert!(may_open(&None, "alice", &entries, "budget"));
    assert!(!may_open(&None, "alice", &entries, "missing"));

    assert_eq!(sheet_file_name("  \t"), "spreadsheet.bin.gz");
    assert_eq!(sheet_file_name(""), "spreadsheet.bin.gz");
    assert_eq!(sheet_file_name("q1"), "q1.bin.gz");
    assert_eq!(sheet_file_name("q1.bin.gz"), "q1.bin.gz");
    assert_eq!(sheet_file_name("q1.gz"), "q1.gz.bin.gz");
}

#[test]
fn test_graph_bounds_and_order() {
    assert_eq!(data_bounds(&Vec::new()), (0, 100, 0, 100));
    assert_eq!(data_bounds(&vec![(3, -2), (-1, 8), (5, 4)]), (-1, 5, -2, 8));
    assert_eq!(sorted_by_x(&vec![(3, 1), (1, 2), (2, 3), (1, 4)]), vec![(1, 2), (1, 4), (2, 3), (3, 1)]);
    assert!(sorted_by_x(&Vec::new()).is_empty());
}

#[test]
fn test_documented_edge_cases() {
    let mut sheet = Spreadsheet::spreadsheet_create(5, 5).unwrap();
    // A cycle through a product with zero is still a cycle.
    assert_eq!(assign(&mut sheet, "A1", "0*B1"), "ok");
    assert_eq!(assign(&mut sheet, "B1", "A1"), "Cycle Detected");
    // A negative sleep waits for nothing and yields its value.
    let (valid, row, col, rhs) = sheet.is_valid_command("C1", "SLEEP(-3)");
    assert!(valid);
    let mut status = String::new();
    let sleeps = sheet.spreadsheet_set_cell_value(row, col, rhs, &mut status);
    assert_eq!(status, "ok");
    assert!(sleeps.iter().all(|&s| s == 0));
    assert_eq!(value_at(&sheet, 1, 3), -3);
    // Cascaded sleeps: changing the first re-runs both, in order.
    assign(&mut sheet, "D1", "SLEEP(1)");
    assign(&mut sheet, "E1", "SLEEP(D1)");
    let (_, row, col, rhs) = sheet.is_valid_command("D1", "SLEEP(2)");
    let sleeps = sheet.spreadsheet_set_cell_value(row, col, rhs, &mut status);
    assert_eq!(sleeps.iter().filter(|&&s| s > 0).cloned().collect::<Vec<u32>>(), vec![2, 2]);
    assert_eq!(value_at(&sheet, 1, 5), 2);
}

#[test]
fn test_undo_restores_a_run_of_assignments() {
    let mut sheet = Spreadsheet::spreadsheet_create(4, 4).unwrap();
    assign(&mut sheet, "D4", "9");
    sheet.undo_stack.clear();
    assign(&mut sheet, "A1", "1");
    assign(&mut sheet, "B1", "A1+1");
    assign(&mut sheet, "C1", "B1*2");
    assert_eq!(assign(&mut sheet, "A1", "C1"), "Cycle Detected");
    assign(&mut sheet, "A1", "5");
    assign(&mut sheet, "D4", "SUM(A1:C1)");
    assert_eq!(value_at(&sheet, 1, 3), 12);
    assert_eq!(value_at(&sheet, 4, 4), 23);
    let mut status = String::new();
    sheet.spreadsheet_undo(&mut status);
    for col in 1..=3 {
        assert_eq!(formula_at(&sheet, 1, col), ParsedRHS::Empty);
        assert_eq!(value_at(&sheet, 1, col), 0);
    }
    assert_eq!(formula_at(&sheet, 4, 4), ParsedRHS::SingleValue(Operand::Number(9)));
    assert_eq!(value_at(&sheet, 4, 4), 9);
    // A second undo redoes the whole run.
    sheet.spreadsheet_undo(&mut status);
    assert_eq!(value_at(&sheet, 1, 3), 12);
    assert_eq!(value_at(&sheet, 4, 4), 23);
}

#[test]
fn test_copy_keeps_graph_current() {
    let mut sheet = Spreadsheet::spreadsheet_create(5, 5).unwrap();
    assign(&mut sheet, "A1", "5");
    assign(&mut sheet, "B1", "A1");
    assign(&mut sheet, "C1", "B1+1");
    assign(&mut sheet, "D1", "9");
    assert_eq!(value_at(&sheet, 1, 3), 6);
    // Paste D1's value over B1: B1's dependents are recomputed at once.
    assert_eq!(assign(&mut sheet, "B1", "COPY(D1:D1)"), "ok");
    assert_eq!(formula_at(&sheet, 1, 2), ParsedRHS::SingleValue(Operand::Number(9)));
    assert_eq!(value_at(&sheet, 1, 3), 10);
    // B1 no longer reads A1.
    assign(&mut sheet, "A1", "7");
    assert_eq!(value_at(&sheet, 1, 2), 9);
    assert_eq!(value_at(&sheet, 1, 3), 10);
    // The source keeps its own dependencies.
    assign(&mut sheet, "E1", "D1*2");
    assign(&mut sheet, "A2", "COPY(E1:E1)");
    assign(&mut sheet, "D1", "4");
    assert_eq!(value_at(&sheet, 1, 5), 8);
    assert_eq!(value_at(&sheet, 2, 1), 18);
}

#[test]
fn test_copy_paste_area_checked_in_any_case() {
    let sheet = Spreadsheet::spreadsheet_create(10, 10).unwrap();
    assert!(sheet.is_valid_command("I9", "copy(A1:B2)").0);
    assert!(!sheet.is_valid_command("J10", "copy(A1:B2)").0);
    assert!(!sheet.is_valid_command("J10", "Copy(A1:B2)").0);
    assert!(!sheet.is_valid_command("J10", "COPY(A1:B2)").0);
}

#[test]
fn test_dependents_switch_at_eight() {
    let mut cell = Cell::create(1, 1);
    for i in 1..=7 {
        cell.dep_insert(i, i);
    }
    assert!(matches!(cell.dependents, Dependents::Vector(ref v) if v.len() == 7));
    cell.dep_insert(8, 8);
    assert!(matches!(cell.dependents, Dependents::OrderedSet(ref t) if t.len() == 8));
    for i in 1..=8 {
        assert!(cell.contains(i, i));
    }
}

#[test]
fn test_reset_code_from_indices() {
    assert_eq!(reset_code_from(&vec![0, 1, 25, 26, 35, 0, 0, 0]), "ABZ09AAA");
}

#[test]
fn test_formula_text_reparses() {
    let sheet = Spreadsheet::spreadsheet_create(10, 10).unwrap();
    for formula in ["sum(A1:B2)", "-1*B1", "sleep(2)", "C3", "-7", "7--2", "copy(A1:B2)", "stdev(B2:C5)", "Sleep(J10)"] {
        let first = sheet.is_valid_command("C4", formula);
        assert!(first.0, "{}", formula);
        let text = formula_to_string(&first.3);
        assert_eq!(sheet.is_valid_command("C4", &text), first, "{} -> {}", formula, text);
    }
    let (_, _, _, rhs) = sheet.is_valid_command("C4", "sum(A1:B2)");
    assert_eq!(formula_to_string(&rhs), "SUM(A1:B2)");
    let (_, _, _, rhs) = sheet.is_valid_command("C4", "-1*B1");
    assert_eq!(formula_to_string(&rhs), "-1*B1");
}

#[test]
fn test_rebuild_sheet_replays_saved_formulas() {
    let saved = vec![
        (1, 1, "5".to_string()),
        (1, 2, "A1*2".to_string()),
        (2, 1, "SUM(A1:B1)".to_string()),
        (9, 9, "7".to_string()),
        (2, 2, "A1+".to_string()),
        (3, 3, "COPY(A1:B1)".to_string()),
    ];
    let sheet = rebuild_sheet(3, 3, &saved);
    assert_eq!(sheet.rows, 3);
    assert_eq!(sheet.cols, 3);
    assert_eq!(value_at(&sheet, 1, 1), 5);
    assert_eq!(value_at(&sheet, 1, 2), 10);
    assert_eq!(value_at(&sheet, 2, 1), 15);
    assert_eq!(value_at(&sheet, 2, 2), 0);
    // The paste block of the copy would leave the grid, so it is passed over.
    assert_eq!(value_at(&sheet, 3, 3), 0);
}

#[test]
fn test_dependent_names_of_ordered_set_ascend() {
    let sheet = Spreadsheet::spreadsheet_create(5, 5).unwrap();
    let mut cell = Cell::create(1, 1);
    for (r, c) in [(5, 1), (2, 3), (2, 1), (4, 4), (1, 5), (3, 2), (2, 2), (1, 1), (3, 1)] {
        cell.dep_insert(r, c);
    }
    assert!(matches!(cell.dependents, Dependents::OrderedSet(_)));
    assert_eq!(
        sheet.get_dependent_names(&cell),
        vec![(1, 1), (1, 5), (2, 1), (2, 2), (2, 3), (3, 1), (3, 2), (4, 4), (5, 1)]
    );
}

#[test]
fn test_remove_old_dependents_of_inverted_range() {
    let mut sheet = Spreadsheet::spreadsheet_create(3, 3).unwrap();
    sheet.cells[8].as_mut().unwrap().formula =
        ParsedRHS::Function { name: FunctionName::Sum, args: (Operand::Cell(2, 2), Operand::Cell(1, 1)) };
    sheet.cells[0].as_mut().unwrap().dep_insert(3, 3);
    sheet.remove_old_dependents(3, 3);
    // An inverted range names no cell, so no dependent is removed.
    assert!(sheet.cells[0].as_ref().unwrap().contains(3, 3));
}

#[test]
fn test_undo_and_redo_a_copy() {
    let mut sheet = Spreadsheet::spreadsheet_create(3, 3).unwrap();
    assign(&mut sheet, "A1", "5");
    assign(&mut sheet, "B1", "A1+1");
    assign(&mut sheet, "A2", "COPY(A1:B1)");
    assert_eq!((value_at(&sheet, 2, 1), value_at(&sheet, 2, 2)), (5, 6));
    let mut status = String::new();
    sheet.spreadsheet_undo(&mut status);
    for (r, c) in [(1, 1), (1, 2), (2, 1), (2, 2)] {
        assert_eq!(value_at(&sheet, r, c), 0);
    }
    sheet.spreadsheet_undo(&mut status);
    assert_eq!((value_at(&sheet, 1, 1), value_at(&sheet, 1, 2)), (5, 6));
    assert_eq!((value_at(&sheet, 2, 1), value_at(&sheet, 2, 2)), (5, 6));
}

#[test]
fn test_restore_undo_stack_keeps_saved_entries() {
    let mut sheet = rebuild_sheet(3, 3, &vec![(1, 1, "5".to_string()), (1, 2, "A1+1".to_string())]);
    let saved = vec![
        (1, 2, "".to_string()),
        (1, 1, "".to_string()),
        (4, 4, "1".to_string()),
        (2, 2, "COPY(A1:A1)".to_string()),
        (2, 1, "SUM(A1:B1)".to_string()),
    ];
    restore_undo_stack(&mut sheet, &saved);
    assert_eq!(
        sheet.undo_stack,
        vec![
            (ParsedRHS::Empty, 1, 2),
            (ParsedRHS::Empty, 1, 1),
            (ParsedRHS::Function { name: FunctionName::Sum, args: (Operand::Cell(1, 1), Operand::Cell(1, 2)) }, 2, 1),
        ]
    );
    assert_eq!(value_at(&sheet, 1, 2), 6);
    let mut status = String::new();
    sheet.spreadsheet_undo(&mut status);
    assert_eq!(value_at(&sheet, 1, 1), 0);
    assert_eq!(value_at(&sheet, 1, 2), 0);
    assert_eq!(value_at(&sheet, 2, 1), 0);
}

#[test]
fn test_save_and_rebuild_round_trip() {
    let mut sheet = Spreadsheet::spreadsheet_create(3, 3).unwrap();
    assign(&mut sheet, "B2", "A1*3");
    assign(&mut sheet, "A1", "4");
    assign(&mut sheet, "C3", "MAX(A1:B2)");
    assign(&mut sheet, "C1", "SLEEP(0)");
    let formulas = saved_formulas(&sheet);
    assert_eq!(
        formulas,
        vec![
            (1, 1, "4".to_string()),
            (1, 3, "SLEEP(0)".to_string()),
            (2, 2, "A1*3".to_string()),
            (3, 3, "MAX(A1:B2)".to_string()),
        ]
    );
    let history = saved_undo_history(&sheet);
    assert_eq!(history, vec![(2, 2, "".to_string()), (1, 1, "".to_string()), (3, 3, "".to_string()), (1, 3, "".to_string())]);
    let mut again = rebuild_sheet(3, 3, &formulas);
    restore_undo_stack(&mut again, &history);
    for r in 1..=3 {
        for c in 1..=3 {
            assert_eq!(value_at(&again, r, c), value_at(&sheet, r, c));
        }
    }
    assert_eq!(again.undo_stack, sheet.undo_stack);
    assert_eq!(value_at(&again, 3, 3), 12);
}

#[test]
fn test_csv_copies_fit() {
    let small: Vec<String> = vec!["A,B".to_string(), "1,=COPY(A1:A1)".to_string(), "2,3".to_string()];
    assert!(csv_copies_fit(&small));
    // A range whose last cell lies past position 32767 of a 200 x 200 grid.
    let mut big: Vec<String> = vec![vec!["x"; 200].join(",")];
    big.push("=COPY(A1:GR200)".to_string());
    for _ in 1..200 {
        big.push(String::new());
    }
    assert!(!csv_copies_fit(&big));
    assert!(csv_copies_fit(&Vec::new()));
}

#[test]
fn test_blank_names_follow_char_is_whitespace() {
    for u in (0..0x4000u32).chain([0xFEFF, 0xFFFF, 0x10FFFF]) {
        if let Some(c) = char::from_u32(u) {
            let blank = sheet_file_name(&c.to_string()) == "spreadsheet.bin.gz";
            assert_eq!(blank, c.is_whitespace(), "U+{:04X}", u);
        }
    }
}
