use vstd::prelude::*;
use crate::loader::text_is;
use crate::text::{chars_of, string_from_chars};

verus! {

/// A saved spreadsheet of a user and its visibility, `public` or `private`.
#[derive(Clone, Debug)]
pub struct SheetEntry {
    pub name: String,
    pub status: String,
}

/// The text `public`.
pub open spec fn public_text() -> Seq<char> {
    seq!['p', 'u', 'b', 'l', 'i', 'c']
}

/// The text `private`.
pub open spec fn private_text() -> Seq<char> {
    seq!['p', 'r', 'i', 'v', 'a', 't', 'e']
}

/// A listing entry as plain text: its name and its status.
pub open spec fn entry_view(e: SheetEntry) -> (Seq<char>, Seq<char>) {
    (e.name@, e.status@)
}

/// The listing as plain text.
pub open spec fn entries_view(v: Seq<SheetEntry>) -> Seq<(Seq<char>, Seq<char>)> {
    v.map_values(|e: SheetEntry| entry_view(e))
}

/// The position of the first entry named `name`, if any.
pub open spec fn find_entry(v: Seq<SheetEntry>, name: Seq<char>) -> Option<int> {
    if exists|k: int| 0 <= k < v.len() && (#[trigger] v[k]).name@ == name {
        Some(choose|k: int| 0 <= k < v.len() && (#[trigger] v[k]).name@ == name
            && forall|j: int| 0 <= j < k ==> v[j].name@ != name)
    } else {
        None
    }
}

fn public_chars() -> (r: [char; 6])
    ensures
        r@ == public_text(),
{
    let r = ['p', 'u', 'b', 'l', 'i', 'c'];
    assert(r@ == public_text());
    r
}

fn private_chars() -> (r: [char; 7])
    ensures
        r@ == private_text(),
{
    let r = ['p', 'r', 'i', 'v', 'a', 't', 'e'];
    assert(r@ == private_text());
    r
}

fn copy_text(s: &str) -> (r: String)
    ensures
        r@ == s@,
{
    let v = chars_of(s);
    string_from_chars(&v)
}

/// Sets the visibility of the sheet `name` in a user's listing: the first
/// entry of that name gets the new status, or, when there is none, an entry
/// is added at the end. A status other than `public` or `private` is refused
/// with `Invalid status` and the listing is left as it was.
pub fn set_sheet_status(entries: &mut Vec<SheetEntry>, name: &str, status: &str) -> (r: Result<(), String>)
    ensures
        !(status@ == public_text() || status@ == private_text()) ==> {
            &&& r matches Err(e) && e@ == "Invalid status"@
            &&& entries_view(final(entries)@) == entries_view(old(entries)@)
        },
        (status@ == public_text() || status@ == private_text()) ==> {
            &&& r is Ok
            &&& entries_view(final(entries)@) == match find_entry(old(entries)@, name@) {
                Some(k) => entries_view(old(entries)@).update(k, (name@, status@)),
                None => entries_view(old(entries)@).push((name@, status@)),
            }
        },
{
    let public = public_chars();
    let private = private_chars();
    if !(text_is(status, &public) || text_is(status, &private)) {
        return Err("Invalid status".to_owned());
    }
    let ghost before = entries@;
    let n = entries.len();
    let mut k: usize = 0;
    while k < n
        invariant
            n == entries@.len(),
            entries@ == before,
            k <= n,
            forall|j: int| 0 <= j < k ==> before[j].name@ != name@,
        decreases n - k,
    {
        if text_is(entries[k].name.as_str(), chars_of(name).as_slice()) {
            proof {
                let c = choose|c: int| 0 <= c < before.len() && (#[trigger] before[c]).name@ == name@
                    && forall|j: int| 0 <= j < c ==> before[j].name@ != name@;
                assert(before[k as int].name@ == name@);
                if c < k {
                    assert(before[c].name@ != name@);
                } else if c > k {
                    assert(before[k as int].name@ != name@);
                }
                assert(find_entry(before, name@) == Some(k as int));
            }
            let entry = SheetEntry { name: copy_text(name), status: copy_text(status) };
            entries.set(k, entry);
            proof {
                assert(entries_view(entries@) =~= entries_view(before).update(k as int, (name@, status@)));
            }
            return Ok(());
        }
        k = k + 1;
    }
    assert(find_entry(before, name@) is None);
    entries.push(SheetEntry { name: copy_text(name), status: copy_text(status) });
    proof {
        assert(entries_view(entries@) =~= entries_view(before).push((name@, status@)));
    }
    Ok(())
}

/// Whether the sheet `sheet` of `owner` may be opened by the signed-in user
/// `viewer` (none when no one is signed in): by its owner always, by anyone
/// else only when the owner's listing marks it `public`.
pub fn may_open(viewer: &Option<String>, owner: &str, entries: &Vec<SheetEntry>, sheet: &str) -> (r: bool)
    ensures
        r == ((viewer matches Some(u) && u@ == owner@)
            || exists|k: int| 0 <= k < entries@.len() && (#[trigger] entries@[k]).name@ == sheet@
                && entries@[k].status@ == public_text()),
{
    let owner_chars = chars_of(owner);
    if let Some(u) = viewer {
        if text_is(u.as_str(), owner_chars.as_slice()) {
            return true;
        }
    }
    let public = public_chars();
    let sheet_chars = chars_of(sheet);
    let n = entries.len();
    for k in 0..n
        invariant
            n == entries@.len(),
            public@ == public_text(),
            sheet_chars@ == sheet@,
            forall|j: int| 0 <= j < k ==> !((#[trigger] entries@[j]).name@ == sheet@
                && entries@[j].status@ == public_text()),
    {
        if text_is(entries[k].name.as_str(), sheet_chars.as_slice()) && text_is(entries[k].status.as_str(), &public) {
            return true;
        }
    }
    false
}

/// Whether a character is white space, as `char::is_whitespace` decides: it
/// has the Unicode `White_Space` property, which holds of tab, line feed,
/// vertical tab, form feed, carriage return, space, U+0085, U+00A0, U+1680,
/// U+2000 to U+200A, U+2028, U+2029, U+202F, U+205F and U+3000.
pub open spec fn unicode_white(c: char) -> bool {
    let u = c as u32;
    ||| 0x09 <= u <= 0x0D
    ||| u == 0x20
    ||| u == 0x85
    ||| u == 0xA0
    ||| u == 0x1680
    ||| 0x2000 <= u <= 0x200A
    ||| u == 0x2028
    ||| u == 0x2029
    ||| u == 0x202F
    ||| u == 0x205F
    ||| u == 0x3000
}

/// Whether a character is white space; see [`unicode_white`].
fn is_whitespace(c: char) -> (r: bool)
    ensures
        r == unicode_white(c),
{
    let u = c as u32;
    (0x09 <= u && u <= 0x0D) || u == 0x20 || u == 0x85 || u == 0xA0 || u == 0x1680 || (0x2000 <= u && u <= 0x200A)
        || u == 0x2028 || u == 0x2029 || u == 0x202F || u == 0x205F || u == 0x3000
}

/// The suffix of a saved spreadsheet's file name.
pub open spec fn saved_suffix() -> Seq<char> {
    seq!['.', 'b', 'i', 'n', '.', 'g', 'z']
}

/// The file name under which a sheet named `name` is saved: `spreadsheet.bin.gz`
/// for a blank name, the name itself when it already ends in `.bin.gz`, and
/// otherwise the name followed by `.bin.gz`.
pub open spec fn saved_file_name(name: Seq<char>) -> Seq<char> {
    if forall|i: int| 0 <= i < name.len() ==> unicode_white(#[trigger] name[i]) {
        seq!['s', 'p', 'r', 'e', 'a', 'd', 's', 'h', 'e', 'e', 't'] + saved_suffix()
    } else if name.len() >= 7 && name.skip(name.len() - 7) == saved_suffix() {
        name
    } else {
        name + saved_suffix()
    }
}

/// The file name under which a sheet named `name` is saved; see
/// [`saved_file_name`].
pub fn sheet_file_name(name: &str) -> (r: String)
    ensures
        r@ == saved_file_name(name@),
{
    let v = chars_of(name);
    let n = v.len();
    let suffix = ['.', 'b', 'i', 'n', '.', 'g', 'z'];
    assert(suffix@ == saved_suffix());
    let mut blank = true;
    for i in 0..n
        invariant
            n == v@.len(),
            v@ == name@,
            blank == forall|j: int| 0 <= j < i ==> unicode_white(#[trigger] v@[j]),
    {
        if !is_whitespace(v[i]) {
            blank = false;
        }
    }
    if blank {
        proof {
            reveal_strlit("spreadsheet.bin.gz");
        }
        assert("spreadsheet.bin.gz"@ =~= seq!['s', 'p', 'r', 'e', 'a', 'd', 's', 'h', 'e', 'e', 't'] + saved_suffix());
        return copy_text("spreadsheet.bin.gz");
    }
    let mut ends = n >= 7;
    if ends {
        for j in 0..7
            invariant
                n == v@.len(),
                n >= 7,
                suffix@ == saved_suffix(),
                ends == forall|t: int| 0 <= t < j ==> v@[n - 7 + t] == suffix@[t],
        {
            if v[n - 7 + j] != suffix[j] {
                ends = false;
            }
        }
        assert(ends == (v@.skip(n - 7) == saved_suffix())) by {
            if ends {
                assert(v@.skip(n - 7) =~= saved_suffix());
            } else {
                let t = choose|t: int| 0 <= t < 7 && v@[n - 7 + t] != suffix@[t];
                assert(v@.skip(n - 7)[t] != saved_suffix()[t]);
            }
        }
    }
    if ends {
        string_from_chars(&v)
    } else {
        let mut out = v;
        for j in 0..7
            invariant
                out@ == name@ + saved_suffix().take(j as int),
                suffix@ == saved_suffix(),
        {
            out.push(suffix[j]);
            assert(saved_suffix().take(j + 1) == saved_suffix().take(j as int).push(suffix@[j as int]));
        }
        assert(saved_suffix().take(7) == saved_suffix());
        string_from_chars(&out)
    }
}

} // verus!
