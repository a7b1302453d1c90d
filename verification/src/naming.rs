use vstd::prelude::*;
use crate::spreadsheet::Spreadsheet;
use crate::text::{
    all_digits, all_letters, chars_of, int_literal_value, int_text, is_digit, is_letter, parse_i16_spec,
    parse_int_range, push_int, string_from_chars, digits_value, lemma_nat_text, nat_text,
};

verus! {

/// The letter for `k` in `0..26`: `A` for 0 up to `Z` for 25.
pub open spec fn letter_char(k: int) -> char {
    ((65 + k) as u8) as char
}

/// The column name of column `n` (counted from 1): `A`..`Z`, `AA`..`AZ`, ...
/// Empty for `n <= 0`.
pub open spec fn col_letters(n: int) -> Seq<char>
    decreases n,
{
    if n <= 0 {
        seq![]
    } else {
        col_letters((n - 1) / 26).push(letter_char((n - 1) % 26))
    }
}

/// Number of letters at the start of `s`.
pub open spec fn letter_run(s: Seq<char>) -> nat
    decreases s.len(),
{
    if s.len() > 0 && is_letter(s[0]) {
        1 + letter_run(s.skip(1))
    } else {
        0
    }
}

/// The column number that a run of letters names, each letter weighing its
/// character code minus 64 (so `A` is 1 and `Z` is 26).
pub open spec fn letters_value(s: Seq<char>) -> int
    decreases s.len(),
{
    if s.len() == 0 {
        0
    } else {
        letters_value(s.drop_last()) * 26 + ((s.last() as u32) as int - 64)
    }
}

/// The weight that `letter_to_col` gives a character: its code truncated to
/// `i16`, minus 64.
pub open spec fn char_weight16(c: char) -> int {
    (c as i16) as int - 64
}

/// The column number computed by folding `acc * 26 + weight` over the text.
pub open spec fn fold_col(s: Seq<char>) -> int
    decreases s.len(),
{
    if s.len() == 0 {
        0
    } else {
        fold_col(s.drop_last()) * 26 + char_weight16(s.last())
    }
}

/// Every intermediate value of the fold of `letter_to_col` fits in `i16`.
pub open spec fn fold_col_fits(s: Seq<char>) -> bool
    decreases s.len(),
{
    if s.len() == 0 {
        true
    } else {
        &&& fold_col_fits(s.drop_last())
        &&& i16::MIN <= fold_col(s.drop_last()) * 26 <= i16::MAX
        &&& i16::MIN <= (s.last() as i16) as int - 65 <= i16::MAX
        &&& i16::MIN <= fold_col(s) <= i16::MAX
    }
}

/// The cell that a name such as `B12` denotes in a grid of `rows` x `cols`:
/// one or more ASCII letters naming the column, then one or more ASCII digits
/// naming the row; `None` when the text has another shape, the row does not
/// fit in `i16`, the row is 0, or the cell lies outside the grid.
pub open spec fn parse_cell_name_spec(rows: int, cols: int, s: Seq<char>) -> Option<(i16, i16)> {
    let k = letter_run(s) as int;
    if 1 <= k < s.len() && all_digits(s.skip(k)) {
        let col = letters_value(s.take(k));
        match parse_i16_spec(s.skip(k)) {
            Some(row) => if col > cols || row > rows || row == 0 {
                None
            } else {
                Some((row, col as i16))
            },
            None => None,
        }
    } else {
        None
    }
}

pub proof fn lemma_letter_char(k: int)
    requires
        0 <= k < 26,
    ensures
        letter_char(k) as u32 == 65 + k,
        letter_char(k) as i16 == 65 + k,
        'A' <= letter_char(k) <= 'Z',
        is_letter(letter_char(k)),
{
}

/// The name of column `n` is a non-empty run of upper-case letters whose
/// value is `n`; for a column that fits in `i16`, `letter_to_col` reads it
/// back without overflow: `letter_to_col(col_to_letter(n)) == n`.
pub proof fn law_column_round_trip(n: int)
    requires
        1 <= n,
    ensures
        col_letters(n).len() >= 1,
        all_letters(col_letters(n)),
        letters_value(col_letters(n)) == n,
        n <= i16::MAX ==> fold_col_fits(col_letters(n)) && fold_col(col_letters(n)) == n,
    decreases n,
{
    let m = (n - 1) / 26;
    let r = (n - 1) % 26;
    let s = col_letters(n);
    assert(s == col_letters(m).push(letter_char(r)));
    assert(s.drop_last() == col_letters(m));
    lemma_letter_char(r);
    if m >= 1 {
        law_column_round_trip(m);
    } else {
        assert(col_letters(m) =~= Seq::<char>::empty());
    }
    assert(s.last() == letter_char(r));
    assert(letters_value(col_letters(m)) == m);
    assert(letters_value(s) == letters_value(col_letters(m)) * 26 + ((s.last() as u32) as int - 64));
    assert(n == m * 26 + r + 1);
    if n <= i16::MAX {
        assert(fold_col(col_letters(m)) == m);
        assert(fold_col(s) == fold_col(col_letters(m)) * 26 + char_weight16(s.last()));
        assert(fold_col_fits(col_letters(m)));
    }
}

/// The name of a cell inside the grid parses back to that cell:
/// `spreadsheet_parse_cell_name(get_cell_name(row, col)) == Some((row, col))`.
pub proof fn law_cell_name_round_trip(rows: int, cols: int, row: int, col: int)
    requires
        1 <= row <= rows <= i16::MAX,
        1 <= col <= cols <= i16::MAX,
    ensures
        parse_cell_name_spec(rows, cols, col_letters(col) + int_text(row)) == Some((row as i16, col as i16)),
{
    let a = col_letters(col);
    let b = int_text(row);
    let s = a + b;
    law_column_round_trip(col);
    lemma_nat_text(row as nat);
    assert(b == nat_text(row as nat));
    assert forall|i: int| 0 <= i < a.len() implies is_letter(#[trigger] s[i]) by {
        assert(s[i] == a[i]);
    }
    assert(s[a.len() as int] == b[0]);
    assert(is_digit(b[0]));
    lemma_letter_run_exact(s, a.len() as int);
    assert(s.skip(a.len() as int) =~= b);
    assert(s.take(a.len() as int) =~= a);
    assert(int_literal_value(b) == Some(row));
}

pub proof fn lemma_letter_run(s: Seq<char>)
    ensures
        letter_run(s) <= s.len(),
        forall|i: int| 0 <= i < letter_run(s) ==> is_letter(#[trigger] s[i]),
        letter_run(s) < s.len() ==> !is_letter(s[letter_run(s) as int]),
    decreases s.len(),
{
    if s.len() > 0 && is_letter(s[0]) {
        lemma_letter_run(s.skip(1));
        assert forall|i: int| 0 <= i < letter_run(s) implies is_letter(#[trigger] s[i]) by {
            if i > 0 {
                assert(s[i] == s.skip(1)[i - 1]);
            }
        }
    }
}

/// A run of letters followed by `i` more letters is the run at the start.
pub proof fn lemma_letter_run_exact(s: Seq<char>, k: int)
    requires
        0 <= k <= s.len(),
        forall|i: int| 0 <= i < k ==> is_letter(#[trigger] s[i]),
        k < s.len() ==> !is_letter(s[k]),
    ensures
        letter_run(s) == k,
    decreases k,
{
    if k > 0 {
        lemma_letter_run_exact(s.skip(1), k - 1);
    }
}

pub proof fn lemma_letters_value_grows(s: Seq<char>, k: int)
    requires
        0 <= k <= s.len(),
        forall|i: int| 0 <= i < s.len() ==> is_letter(#[trigger] s[i]),
    ensures
        letters_value(s) >= letters_value(s.take(k)),
        letters_value(s.take(k)) >= 0,
    decreases s.len(),
{
    if k < s.len() {
        assert(s.drop_last().take(k) == s.take(k));
        lemma_letters_value_grows(s.drop_last(), k);
        lemma_letters_value_grows(s.drop_last(), s.len() - 1);
        assert(s.drop_last().take(s.len() - 1) == s.drop_last());
        assert(is_letter(s.last()));
    } else {
        assert(s.take(k) == s);
        if s.len() > 0 {
            assert(s.drop_last().take(s.len() - 1) == s.drop_last());
            lemma_letters_value_grows(s.drop_last(), s.len() - 1);
            assert(is_letter(s.last()));
        }
    }
}

/// Appends the column name of `n`.
pub(crate) fn push_col_letters(out: &mut Vec<char>, n: i32)
    ensures
        final(out)@ == old(out)@ + col_letters(n as int),
    decreases n,
{
    if n > 0 {
        push_col_letters(out, (n - 1) / 26);
        let k = ((n - 1) % 26) as u8;
        out.push((k + 65u8) as char);
        assert(final(out)@ == old(out)@ + col_letters(n as int)) by {
            assert(col_letters(n as int) == col_letters((n - 1) as int / 26).push(letter_char((n - 1) as int % 26)));
        }
    } else {
        assert(col_letters(n as int) == Seq::<char>::empty());
        assert(old(out)@ + Seq::<char>::empty() == old(out)@);
    }
}

impl Spreadsheet {
    /// The column name of a column number: 1 is `A`, 26 is `Z`, 27 is `AA`.
    /// Empty for a column number that is not positive.
    pub fn col_to_letter(col: i16) -> (r: String)
        ensures
            r@ == col_letters(col as int),
    {
        let mut out: Vec<char> = Vec::new();
        push_col_letters(&mut out, col as i32);
        assert(Seq::<char>::empty() + col_letters(col as int) == col_letters(col as int));
        string_from_chars(&out)
    }

    /// The column number that a column name denotes: `A` is 1, `AA` is 27.
    /// Each character counts its code minus 64, in `i16` arithmetic.
    pub fn letter_to_col(letters: &str) -> (r: i16)
        requires
            fold_col_fits(letters@),
        ensures
            r == fold_col(letters@),
    {
        let v = chars_of(letters);
        let n = v.len();
        let mut acc: i16 = 0;
        for i in 0..n
            invariant
                n == v@.len(),
                v@ == letters@,
                acc == fold_col(v@.take(i as int)),
        {
            proof {
                assert(v@.take(i + 1).drop_last() == v@.take(i as int));
                lemma_fold_fits_prefix(v@, i + 1);
            }
            let c = v[i];
            let w = c as i16 - 'A' as i16 + 1;
            acc = acc * 26 + w;
        }
        assert(v@.take(n as int) == v@);
        acc
    }

    /// The name of cell `(row, col)`: its column name followed by its row number.
    pub fn get_cell_name(row: i16, col: i16) -> (r: String)
        ensures
            r@ == col_letters(col as int) + int_text(row as int),
    {
        let mut out: Vec<char> = Vec::new();
        push_col_letters(&mut out, col as i32);
        push_int(&mut out, row as i64);
        assert(Seq::<char>::empty() + col_letters(col as int) == col_letters(col as int));
        string_from_chars(&out)
    }

    /// The cell `(row, col)` that a name such as `B12` denotes in this grid,
    /// or `None`; see [`parse_cell_name_spec`].
    pub fn spreadsheet_parse_cell_name(&self, cell_name: &str) -> (r: Option<(i16, i16)>)
        ensures
            r == parse_cell_name_spec(self.rows as int, self.cols as int, cell_name@),
    {
        let v = chars_of(cell_name);
        assert(v@.subrange(0, v@.len() as int) == v@);
        parse_cell_name_chars(&v, 0, v.len(), self.rows, self.cols)
    }

    /// Whether the text is one or more ASCII digits.
    pub fn is_numeric(s: &str) -> (r: bool)
        ensures
            r == (s@.len() > 0 && all_digits(s@)),
    {
        let v = chars_of(s);
        let n = v.len();
        if n == 0 {
            return false;
        }
        for i in 0..n
            invariant
                n == v@.len(),
                v@ == s@,
                forall|j: int| 0 <= j < i ==> is_digit(#[trigger] v@[j]),
        {
            if !(v[i] >= '0' && v[i] <= '9') {
                return false;
            }
        }
        true
    }
}

pub proof fn lemma_fold_fits_prefix(s: Seq<char>, k: int)
    requires
        fold_col_fits(s),
        0 <= k <= s.len(),
    ensures
        fold_col_fits(s.take(k)),
    decreases s.len(),
{
    if k < s.len() {
        assert(s.drop_last().take(k) == s.take(k));
        lemma_fold_fits_prefix(s.drop_last(), k);
    } else {
        assert(s.take(k) == s);
    }
}

/// Parses `v[lo..hi]` as a cell name of a grid of `rows` x `cols`.
pub fn parse_cell_name_chars(v: &Vec<char>, lo: usize, hi: usize, rows: i16, cols: i16) -> (r: Option<(i16, i16)>)
    requires
        lo <= hi <= v@.len(),
    ensures
        r == parse_cell_name_spec(rows as int, cols as int, v@.subrange(lo as int, hi as int)),
{
    let ghost s = v@.subrange(lo as int, hi as int);
    proof {
        lemma_letter_run(s);
    }
    let mut i = lo;
    let mut col: i64 = 0;
    while i < hi && (('A' <= v[i] && v[i] <= 'Z') || ('a' <= v[i] && v[i] <= 'z'))
        invariant
            lo <= i <= hi <= v@.len(),
            s == v@.subrange(lo as int, hi as int),
            forall|j: int| 0 <= j < i - lo ==> is_letter(#[trigger] s[j]),
            col == letters_value(s.take(i - lo)),
            0 <= col,
            col <= cols || col == 0,
        decreases hi - i,
    {
        assert(s.take(i - lo + 1).drop_last() == s.take(i - lo));
        assert(s[i - lo] == v@[i as int]);
        col = col * 26 + (v[i] as u32 - 64) as i64;
        i = i + 1;
        if col > cols as i64 {
            proof {
                let k = letter_run(s) as int;
                assert forall|j: int| 0 <= j < i - lo implies is_letter(#[trigger] s[j]) by {}
                if k >= i - lo {
                    assert(s.take(k).take(i - lo) == s.take(i - lo));
                    assert forall|j: int| 0 <= j < k implies is_letter(#[trigger] s.take(k)[j]) by {}
                    lemma_letters_value_grows(s.take(k), i - lo);
                } else {
                    assert(is_letter(s[k]));
                }
            }
            return None;
        }
    }
    let k = i - lo;
    proof {
        lemma_letter_run_exact(s, k as int);
    }
    if k == 0 || i >= hi {
        return None;
    }
    let mut j = i;
    while j < hi
        invariant
            i <= j <= hi <= v@.len(),
            s == v@.subrange(lo as int, hi as int),
            forall|m: int| k <= m < j - lo ==> is_digit(#[trigger] s[m]),
        decreases hi - j,
    {
        if !(v[j] >= '0' && v[j] <= '9') {
            assert(s.skip(k as int)[j - i] == s[j - lo]);
            return None;
        }
        j = j + 1;
    }
    assert(s.skip(k as int) == v@.subrange(i as int, hi as int));
    assert(all_digits(s.skip(k as int))) by {
        assert forall|m: int| 0 <= m < s.skip(k as int).len() implies is_digit(#[trigger] s.skip(k as int)[m]) by {
            assert(s.skip(k as int)[m] == s[m + k]);
        }
    }
    let row = match parse_int_range(v, i, hi, -32768, 32767) {
        Some(x) => x,
        None => {
            return None;
        }
    };
    if col > cols as i64 || row > rows as i64 || row == 0 {
        None
    } else {
        Some((row as i16, col as i16))
    }
}


/// A cell name that parses names a cell of the grid.
pub proof fn lemma_cell_name_valid(rows: int, cols: int, s: Seq<char>)
    requires
        parse_cell_name_spec(rows, cols, s) is Some,
        cols <= 32767,
    ensures
        1 <= parse_cell_name_spec(rows, cols, s).unwrap().0 <= rows,
        1 <= parse_cell_name_spec(rows, cols, s).unwrap().1 <= cols,
{
    let k = letter_run(s) as int;
    lemma_letter_run(s);
    let t = s.take(k);
    assert forall|i: int| 0 <= i < t.len() implies is_letter(#[trigger] t[i]) by {
        assert(t[i] == s[i]);
    }
    lemma_letters_value_grows(t, k - 1);
    assert(t.drop_last() == t.take(k - 1));
    assert(is_letter(t.last()));
    assert(letters_value(t) >= 1);
    crate::text::lemma_digits_value_nonneg(s.skip(k));
    assert((letters_value(t) as i16) as int == letters_value(t));
}
} // verus!
