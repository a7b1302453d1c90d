use vstd::prelude::*;
use crate::spreadsheet::{function_of_upper, FunctionName, Operand, ParsedRHS};
use crate::text::{all_digits, int_literal_value, int_text, is_digit, is_letter, lemma_nat_text, nat_text, parse_i32_spec};
use crate::naming::{col_letters, law_cell_name_round_trip, law_column_round_trip, lemma_cell_name_valid, lemma_letter_run, lemma_letter_run_exact, letter_run, parse_cell_name_spec};
use crate::downloader::operand_ref_text;
use crate::command::{arith_spec, arith_split_at, ascii_upper_text, command_spec, first_colon, func_args_of, func_name_of, func_shape, is_op, letters_digits, operand_of_text, operand_text, signed_digits};
use crate::handlers::{formula_text, function_name_text};

verus! {

/// An operand that a command of a `rows` x `cols` grid can name: a number, or
/// a cell of the grid.
pub open spec fn operand_in(rows: int, cols: int, op: Operand) -> bool {
    match op {
        Operand::Number(_) => true,
        Operand::Cell(r, c) => 1 <= r <= rows && 1 <= c <= cols,
    }
}

/// The shapes of the formulas that `is_valid_command` accepts for a
/// `rows` x `cols` grid: a range function over two cells of the grid, the
/// first above and left of the second; `SLEEP`, a single operand, or two
/// operands joined by `+ - * /`, each a number or a cell of the grid.
pub open spec fn parsed_form(rows: int, cols: int, p: ParsedRHS) -> bool {
    match p {
        ParsedRHS::Function { name, args } => match args {
            (Operand::Cell(r1, c1), Operand::Cell(r2, c2)) => {
                &&& operand_in(rows, cols, args.0)
                &&& operand_in(rows, cols, args.1)
                &&& r1 <= r2
                &&& c1 <= c2
            },
            _ => false,
        },
        ParsedRHS::Sleep(op) => operand_in(rows, cols, op),
        ParsedRHS::Arithmetic { lhs, operator, rhs } => is_op(operator) && operand_in(rows, cols, lhs)
            && operand_in(rows, cols, rhs),
        ParsedRHS::SingleValue(op) => operand_in(rows, cols, op),
        ParsedRHS::Empty => false,
    }
}

/// A character of an operand's text after the first: a digit or a letter.
pub open spec fn word_char(c: char) -> bool {
    is_digit(c) || is_letter(c)
}

/// The decimal text of an integer is a literal of that integer: an optional
/// `-` and then digits.
pub proof fn lemma_int_text(v: int)
    ensures
        int_text(v).len() >= 1,
        !is_letter(int_text(v)[0]),
        int_text(v)[0] == '-' || is_digit(int_text(v)[0]),
        forall|i: int| 1 <= i < int_text(v).len() ==> is_digit(#[trigger] int_text(v)[i]),
        int_literal_value(int_text(v)) == Some(v),
        signed_digits(int_text(v)),
{
    let t = int_text(v);
    if v < 0 {
        lemma_nat_text((-v) as nat);
        let d = nat_text((-v) as nat);
        assert(t == seq!['-'] + d);
        assert(t.skip(1) =~= d);
        assert forall|i: int| 1 <= i < t.len() implies is_digit(#[trigger] t[i]) by {
            assert(t[i] == d[i - 1]);
        }
    } else {
        lemma_nat_text(v as nat);
        assert(is_digit(t[0]));
    }
}

/// The text of an operand of the grid: where it starts, what its other
/// characters are, and that it reads back as the operand.
proof fn lemma_operand_text(rows: int, cols: int, op: Operand)
    requires
        1 <= rows <= i16::MAX,
        1 <= cols <= i16::MAX,
        operand_in(rows, cols, op),
    ensures
        operand_ref_text(op).len() >= 1,
        operand_text(operand_ref_text(op)),
        operand_of_text(rows, cols, operand_ref_text(op)) == Some(op),
        operand_ref_text(op)[0] == '-' || word_char(operand_ref_text(op)[0]),
        forall|i: int| 1 <= i < operand_ref_text(op).len() ==> word_char(#[trigger] operand_ref_text(op)[i]),
        op is Number ==> !is_letter(operand_ref_text(op)[0]) && letter_run(operand_ref_text(op)) == 0
            && parse_cell_name_spec(rows, cols, operand_ref_text(op)) is None
            && parse_i32_spec(operand_ref_text(op)) == Some(op->Number_0),
        op matches Operand::Cell(r, c) ==> {
            &&& is_letter(operand_ref_text(op)[0])
            &&& 1 <= letter_run(operand_ref_text(op)) < operand_ref_text(op).len()
            &&& is_digit(operand_ref_text(op)[letter_run(operand_ref_text(op)) as int])
            &&& parse_i32_spec(operand_ref_text(op)) is None
            &&& parse_cell_name_spec(rows, cols, operand_ref_text(op)) == Some((r, c))
        },
{
    let t = operand_ref_text(op);
    match op {
        Operand::Number(v) => {
            lemma_int_text(v as int);
            assert(letter_run(t) == 0);
            assert(t[0] == '-' || word_char(t[0]));
        },
        Operand::Cell(r, c) => {
            let a = col_letters(c as int);
            let b = int_text(r as int);
            law_column_round_trip(c as int);
            lemma_int_text(r as int);
            lemma_nat_text(r as nat);
            assert(b == nat_text(r as nat));
            assert(t == a + b);
            assert forall|i: int| 0 <= i < a.len() implies is_letter(#[trigger] t[i]) by {
                assert(t[i] == a[i]);
            }
            assert(t[a.len() as int] == b[0]);
            lemma_letter_run_exact(t, a.len() as int);
            assert forall|i: int| 1 <= i < t.len() implies word_char(#[trigger] t[i]) by {
                if i >= a.len() {
                    assert(t[i] == b[i - a.len()]);
                } else {
                    assert(t[i] == a[i]);
                }
            }
            assert(t.skip(a.len() as int) =~= b);
            assert(all_digits(t.skip(a.len() as int)));
            assert(letters_digits(t));
            law_cell_name_round_trip(rows, cols, r as int, c as int);
            assert(!is_digit(t[0]) && t[0] != '+' && t[0] != '-');
            assert(!all_digits(t));
            assert(int_literal_value(t) is None);
        },
    }
}

/// Two operands joined by an operator read back as that formula, and as
/// nothing else that a command is tried as first.
proof fn lemma_reparse_arith(rows: int, cols: int, lhs: Operand, op: char, rhs: Operand)
    requires
        1 <= rows <= i16::MAX,
        1 <= cols <= i16::MAX,
        is_op(op),
        operand_in(rows, cols, lhs),
        operand_in(rows, cols, rhs),
    ensures
        ({
            let t = formula_text(ParsedRHS::Arithmetic { lhs, operator: op, rhs });
            &&& t.len() > 0
            &&& !func_shape(t)
            &&& parse_cell_name_spec(rows, cols, t) is None
            &&& parse_i32_spec(t) is None
            &&& arith_spec(rows, cols, t) == (true, ParsedRHS::Arithmetic { lhs, operator: op, rhs })
        }),
{
    let a = operand_ref_text(lhs);
    let b = operand_ref_text(rhs);
    let t = formula_text(ParsedRHS::Arithmetic { lhs, operator: op, rhs });
    let n = a.len() as int;
    lemma_operand_text(rows, cols, lhs);
    lemma_operand_text(rows, cols, rhs);
    assert(t == a + seq![op] + b);
    assert(t[n] == op);
    assert forall|i: int| 0 <= i < n implies #[trigger] t[i] == a[i] by {}
    assert forall|i: int| n < i < t.len() implies #[trigger] t[i] == b[i - n - 1] by {}
    // The letters at the start of the text are those of the left operand.
    lemma_letter_run(t);
    lemma_letter_run(a);
    if lhs is Number {
        assert(!is_letter(t[0]));
        assert(letter_run(t) == 0);
    } else {
        let k = letter_run(a) as int;
        lemma_letter_run_exact(t, k);
        assert(t[k] == a[k]);
    }
    assert(!func_shape(t));
    // The operator is neither a digit nor a letter.
    assert(!is_digit(op) && !is_letter(op));
    assert(letter_run(t) <= n);
    assert(!all_digits(t.skip(letter_run(t) as int))) by {
        assert(t.skip(letter_run(t) as int)[n - letter_run(t)] == op);
    }
    assert(parse_cell_name_spec(rows, cols, t) is None);
    if t[0] == '+' || t[0] == '-' {
        assert(n >= 2);
        assert(t.skip(1)[n - 1] == op);
        assert(!all_digits(t.skip(1)));
    } else {
        assert(!all_digits(t)) by {
            assert(t[n] == op);
        }
    }
    assert(int_literal_value(t) is None);
    // The split after the left operand is the only one.
    assert(t.take(n) =~= a);
    assert(t.skip(n + 1) =~= b);
    assert(arith_split_at(t, n));
    assert forall|j: int| arith_split_at(t, j) implies j == n by {
        if j < n {
            if j == 0 {
                assert(t.take(0).len() == 0);
            } else {
                assert(word_char(a[j]));
            }
        } else if j > n {
            let u = t.take(j);
            assert(u[n] == op);
            lemma_letter_run(u);
            if u[0] == '+' || u[0] == '-' {
                assert(u.skip(1)[n - 1] == op);
            } else {
                assert(!all_digits(u));
            }
            assert(!signed_digits(u));
            if 1 <= letter_run(u) < u.len() {
                assert(letter_run(u) <= n);
                assert(u.skip(letter_run(u) as int)[n - letter_run(u)] == op);
            }
            assert(!letters_digits(u));
        }
    }
    let i = choose|i: int| arith_split_at(t, i);
    assert(i == n);
}

/// The first `:` of `a`, `:`, `b` is the one after `a` when `a` holds none.
proof fn lemma_first_colon_after(a: Seq<char>, b: Seq<char>)
    requires
        forall|i: int| 0 <= i < a.len() ==> #[trigger] a[i] != ':',
    ensures
        first_colon(a + seq![':'] + b) == a.len(),
    decreases a.len(),
{
    let s = a + seq![':'] + b;
    if a.len() == 0 {
        assert(s[0] == ':');
    } else {
        assert(s[0] == a[0]);
        lemma_first_colon_after(a.skip(1), b);
        assert(s.skip(1) =~= a.skip(1) + seq![':'] + b);
    }
}

/// A run of upper-case letters is its own upper-case form.
proof fn lemma_upper_fixed(s: Seq<char>)
    requires
        forall|i: int| 0 <= i < s.len() ==> 'A' <= #[trigger] s[i] <= 'Z',
    ensures
        ascii_upper_text(s) == s,
{
    assert(ascii_upper_text(s) =~= s);
}

/// A single operand reads back as itself.
proof fn lemma_reparse_single(rows: int, cols: int, op: Operand)
    requires
        1 <= rows <= i16::MAX,
        1 <= cols <= i16::MAX,
        operand_in(rows, cols, op),
    ensures
        ({
            let t = formula_text(ParsedRHS::SingleValue(op));
            &&& t.len() > 0
            &&& !func_shape(t)
            &&& match op {
                Operand::Cell(r, c) => parse_cell_name_spec(rows, cols, t) == Some((r, c)),
                Operand::Number(v) => parse_cell_name_spec(rows, cols, t) is None && parse_i32_spec(t) == Some(v),
            }
        }),
{
    lemma_operand_text(rows, cols, op);
    let t = formula_text(ParsedRHS::SingleValue(op));
    assert(t == operand_ref_text(op));
    if op is Cell {
        let k = letter_run(t) as int;
        assert(t[k] != '(');
    }
}

/// `SLEEP(x)` reads back as the same wait.
proof fn lemma_reparse_sleep(rows: int, cols: int, op: Operand)
    requires
        1 <= rows <= i16::MAX,
        1 <= cols <= i16::MAX,
        operand_in(rows, cols, op),
    ensures
        ({
            let t = formula_text(ParsedRHS::Sleep(op));
            &&& t.len() > 0
            &&& func_shape(t)
            &&& ascii_upper_text(func_name_of(t)) == seq!['S', 'L', 'E', 'E', 'P']
            &&& func_args_of(t) == operand_ref_text(op)
        }),
{
    lemma_operand_text(rows, cols, op);
    let x = operand_ref_text(op);
    let sleep = seq!['S', 'L', 'E', 'E', 'P', '('];
    let t = formula_text(ParsedRHS::Sleep(op));
    assert(t == sleep + x + seq![')']);
    assert forall|i: int| 0 <= i < 5 implies is_letter(#[trigger] t[i]) by {
        assert(t[i] == sleep[i]);
    }
    assert(t[5] == '(');
    lemma_letter_run_exact(t, 5);
    assert forall|i: int| 6 <= i < t.len() - 1 implies #[trigger] t[i] != '\n' by {
        assert(t[i] == x[i - 6]);
        if i > 6 {
            assert(word_char(x[i - 6]));
        }
    }
    assert(t.last() == ')');
    assert(func_name_of(t) =~= seq!['S', 'L', 'E', 'E', 'P']);
    lemma_upper_fixed(func_name_of(t));
    assert(func_args_of(t) =~= x);
}

/// `NAME(A1:B2)` reads back as the same range function.
proof fn lemma_reparse_function(rows: int, cols: int, name: FunctionName, a: Operand, b: Operand)
    requires
        1 <= rows <= i16::MAX,
        1 <= cols <= i16::MAX,
        parsed_form(rows, cols, ParsedRHS::Function { name, args: (a, b) }),
    ensures
        ({
            let t = formula_text(ParsedRHS::Function { name, args: (a, b) });
            &&& t.len() > 0
            &&& func_shape(t)
            &&& ascii_upper_text(func_name_of(t)) == function_name_text(name)
            &&& function_name_text(name) != seq!['S', 'L', 'E', 'E', 'P']
            &&& function_of_upper(function_name_text(name)) == Some(name)
            &&& func_args_of(t) == operand_ref_text(a) + seq![':'] + operand_ref_text(b)
            &&& first_colon(func_args_of(t)) == operand_ref_text(a).len()
        }),
{
    lemma_operand_text(rows, cols, a);
    lemma_operand_text(rows, cols, b);
    let nm = function_name_text(name);
    let x = operand_ref_text(a);
    let y = operand_ref_text(b);
    let args = x + seq![':'] + y;
    let t = formula_text(ParsedRHS::Function { name, args: (a, b) });
    let k = nm.len() as int;
    assert(t =~= nm + seq!['('] + args + seq![')']);
    assert(forall|i: int| 0 <= i < k ==> 'A' <= #[trigger] nm[i] <= 'Z');
    assert forall|i: int| 0 <= i < k implies is_letter(#[trigger] t[i]) by {
        assert(t[i] == nm[i]);
    }
    assert(t[k] == '(');
    lemma_letter_run_exact(t, k);
    assert forall|i: int| 0 <= i < x.len() implies #[trigger] x[i] != ':' by {
        if i > 0 {
            assert(word_char(x[i]));
        }
    }
    assert forall|i: int| k + 1 <= i < t.len() - 1 implies #[trigger] t[i] != '\n' by {
        assert(t[i] == args[i - k - 1]);
        let j = i - k - 1;
        if j < x.len() {
            assert(args[j] == x[j]);
            if j > 0 {
                assert(word_char(x[j]));
            }
        } else if j > x.len() {
            assert(args[j] == y[j - x.len() - 1]);
            if j - x.len() - 1 > 0 {
                assert(word_char(y[j - x.len() - 1]));
            }
        }
    }
    assert(t.last() == ')');
    assert(func_name_of(t) =~= nm);
    lemma_upper_fixed(nm);
    assert(func_args_of(t) =~= args);
    lemma_first_colon_after(x, y);
    assert(nm != seq!['S', 'L', 'E', 'E', 'P']) by {
        if nm.len() == 5 {
            assert(nm[1] != seq!['S', 'L', 'E', 'E', 'P'][1]);
        } else {
            assert(nm.len() != seq!['S', 'L', 'E', 'E', 'P'].len());
        }
    }
}

/// A `COPY` of a range into the block that starts at `(row, col)` ends inside
/// the grid; every other formula passes.
pub open spec fn paste_fits(rows: int, cols: int, row: int, col: int, p: ParsedRHS) -> bool {
    match p {
        ParsedRHS::Function { name, args } => name == FunctionName::Copy ==> match args {
            (Operand::Cell(sr, sc), Operand::Cell(er, ec)) => 0 < er + (row - sr) <= rows && 0 < ec + (col
                - sc) <= cols,
            _ => true,
        },
        _ => true,
    }
}

/// A formula of the accepted shapes, written as text, reads back as itself
/// for a target cell named `n`, unless it is a `COPY` whose paste block
/// leaves the grid.
pub proof fn lemma_reparse(rows: int, cols: int, n: Seq<char>, p: ParsedRHS)
    requires
        1 <= rows <= i16::MAX,
        1 <= cols <= i16::MAX,
        n.len() > 0,
        parse_cell_name_spec(rows, cols, n) is Some,
        parsed_form(rows, cols, p),
    ensures
        ({
            let rc = parse_cell_name_spec(rows, cols, n).unwrap();
            let ok = paste_fits(rows, cols, rc.0 as int, rc.1 as int, p);
            command_spec(rows, cols, n, formula_text(p)) == if ok {
                (true, rc.0, rc.1, p)
            } else {
                (false, rc.0, rc.1, ParsedRHS::Empty)
            }
        }),
{
    let rc = parse_cell_name_spec(rows, cols, n).unwrap();
    let t = formula_text(p);
    match p {
        ParsedRHS::Function { name, args } => {
            let (a, b) = args;
            lemma_reparse_function(rows, cols, name, a, b);
            lemma_operand_text(rows, cols, a);
            lemma_operand_text(rows, cols, b);
            let x = operand_ref_text(a);
            let y = operand_ref_text(b);
            let u = func_args_of(t);
            assert(u.take(x.len() as int) =~= x);
            assert(u.skip(x.len() as int + 1) =~= y);
            assert(first_colon(u) < u.len());
        },
        ParsedRHS::Sleep(op) => {
            lemma_reparse_sleep(rows, cols, op);
            lemma_operand_text(rows, cols, op);
        },
        ParsedRHS::Arithmetic { lhs, operator, rhs } => {
            lemma_reparse_arith(rows, cols, lhs, operator, rhs);
        },
        ParsedRHS::SingleValue(op) => {
            lemma_reparse_single(rows, cols, op);
        },
        ParsedRHS::Empty => {},
    }
}

/// Every operand that an operand text yields names a cell of the grid or a number.
proof fn lemma_operand_of_text_in(rows: int, cols: int, t: Seq<char>)
    requires
        1 <= cols <= i16::MAX,
        operand_of_text(rows, cols, t) is Some,
    ensures
        operand_in(rows, cols, operand_of_text(rows, cols, t).unwrap()),
{
    if t.len() > 0 && is_letter(t[0]) {
        lemma_cell_name_valid(rows, cols, t);
    }
}

/// What `is_valid_command` accepts has one of the accepted shapes, for a
/// target cell named by `cell_name`, and passes the paste check.
proof fn lemma_accepted_form(rows: int, cols: int, cell_name: Seq<char>, formula: Seq<char>)
    requires
        1 <= rows <= i16::MAX,
        1 <= cols <= i16::MAX,
        command_spec(rows, cols, cell_name, formula).0,
    ensures
        ({
            let cmd = command_spec(rows, cols, cell_name, formula);
            &&& cell_name.len() > 0
            &&& parse_cell_name_spec(rows, cols, cell_name) == Some((cmd.1, cmd.2))
            &&& parsed_form(rows, cols, cmd.3)
            &&& paste_fits(rows, cols, cmd.1 as int, cmd.2 as int, cmd.3)
        }),
{
    let rc = parse_cell_name_spec(rows, cols, cell_name).unwrap();
    if func_shape(formula) {
        let func = func_name_of(formula);
        let args = func_args_of(formula);
        if ascii_upper_text(func) == seq!['S', 'L', 'E', 'E', 'P'] {
            if parse_i32_spec(args) is None {
                lemma_cell_name_valid(rows, cols, args);
            }
        } else {
            let q = first_colon(args);
            lemma_cell_name_valid(rows, cols, args.take(q));
            lemma_cell_name_valid(rows, cols, args.skip(q + 1));
        }
    } else if parse_cell_name_spec(rows, cols, formula) is Some {
        lemma_cell_name_valid(rows, cols, formula);
    } else if parse_i32_spec(formula) is Some {
    } else {
        let i = choose|i: int| arith_split_at(formula, i);
        lemma_operand_of_text_in(rows, cols, formula.take(i));
        lemma_operand_of_text_in(rows, cols, formula.skip(i + 1));
    }
}

/// A formula that `is_valid_command` accepts, written back as text by
/// `formula_to_string`, is accepted again as the same command: the same
/// target cell and the same formula.
pub proof fn law_formula_text_reparses(rows: int, cols: int, cell_name: Seq<char>, formula: Seq<char>)
    requires
        1 <= rows <= i16::MAX,
        1 <= cols <= i16::MAX,
        command_spec(rows, cols, cell_name, formula).0,
    ensures
        command_spec(rows, cols, cell_name, formula_text(command_spec(rows, cols, cell_name, formula).3))
            == command_spec(rows, cols, cell_name, formula),
{
    lemma_accepted_form(rows, cols, cell_name, formula);
    lemma_reparse(rows, cols, cell_name, command_spec(rows, cols, cell_name, formula).3);
}

} // verus!
