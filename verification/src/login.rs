use vstd::prelude::*;
use argon2::Argon2;
use argon2::password_hash::{PasswordHash, PasswordHasher, PasswordVerifier, SaltString};
use argon2::password_hash::rand_core::OsRng;
use rand::Rng;
use crate::text::string_from_chars;

verus! {

/// A registered user: name and PHC-format password hash.
#[derive(Clone, Debug)]
pub struct User {
    pub username: String,
    pub password_hash: String,
}

/// What a login or sign-up form submits.
#[derive(Debug)]
pub struct UserCredentials {
    pub username: String,
    pub password: String,
}

/// A saved spreadsheet of a user; times in seconds since the Unix epoch.
#[derive(Debug)]
pub struct UserFile {
    pub name: String,
    pub path: String,
    pub created: u64,
    pub modified: u64,
}

/// A login session: the user and when it expires, in seconds since the Unix epoch.
#[derive(Clone, Debug)]
pub struct Session {
    pub user_id: String,
    pub expires_at: u64,
}

/// How long a session lasts, in seconds.
pub const SESSION_DURATION: u64 = 86400;

/// `PasswordHash::new` accepts the text as a PHC-format hash.
pub uninterp spec fn hash_parses(hash: Seq<char>) -> bool;

/// Argon2 verification accepts the password against the (parsed) hash.
pub uninterp spec fn password_matches(password: Seq<char>, hash: Seq<char>) -> bool;

/// `PasswordHash::new` then `Argon2::default().verify_password`: `None` when
/// the hash does not parse, else whether the password matches it. Both are
/// named by [`hash_parses`] and [`password_matches`].
#[verifier::external_body]
fn argon2_verify(password: &str, hash: &str) -> (r: Option<bool>)
    ensures
        match r {
            Some(b) => hash_parses(hash@) && b == password_matches(password@, hash@),
            None => !hash_parses(hash@),
        },
{
    match PasswordHash::new(hash) {
        Ok(parsed) => Some(Argon2::default().verify_password(password.as_bytes(), &parsed).is_ok()),
        Err(_) => None,
    }
}

/// `Argon2::default().hash_password` with a fresh random salt (`OsRng`), as
/// a PHC string. The salt makes the text unpredictable; as the crate's
/// documentation shows, the hash parses and verifies the password it was made
/// from. `None` when hashing fails.
#[verifier::external_body]
fn argon2_hash(password: &str) -> (r: Option<String>)
    ensures
        r matches Some(h) ==> hash_parses(h@) && password_matches(password@, h@),
{
    let salt = SaltString::generate(&mut OsRng);
    match Argon2::default().hash_password(password.as_bytes(), &salt) {
        Ok(hash) => Some(hash.to_string()),
        Err(_) => None,
    }
}

fn owned(s: &str) -> (r: String)
    ensures
        r@ == s@,
{
    s.to_owned()
}

/// Whether a password matches a stored hash; an error when the hash is not
/// a PHC-format hash.
pub fn verify_password(password: &str, hash: &str) -> (r: Result<bool, String>)
    ensures
        match r {
            Ok(b) => hash_parses(hash@) && b == password_matches(password@, hash@),
            Err(e) => !hash_parses(hash@) && e@ == "Invalid password hash format"@,
        },
{
    match argon2_verify(password, hash) {
        Some(b) => Ok(b),
        None => Err(owned("Invalid password hash format")),
    }
}

/// The position of the first user named `name`, if any.
pub open spec fn find_user(users: Seq<User>, name: Seq<char>) -> Option<int> {
    if exists|k: int| 0 <= k < users.len() && (#[trigger] users[k]).username@ == name {
        Some(choose|k: int| 0 <= k < users.len() && (#[trigger] users[k]).username@ == name
            && forall|j: int| 0 <= j < k ==> users[j].username@ != name)
    } else {
        None
    }
}

fn text_eq(a: &String, b: &str) -> (r: bool)
    ensures
        r == (a@ == b@),
{
    let x = crate::text::chars_of(a.as_str());
    let y = crate::text::chars_of(b);
    if x.len() != y.len() {
        return false;
    }
    for i in 0..x.len()
        invariant
            x@ == a@,
            y@ == b@,
            x@.len() == y@.len(),
            forall|j: int| 0 <= j < i ==> x@[j] == y@[j],
    {
        if x[i] != y[i] {
            return false;
        }
    }
    assert(x@ == y@);
    true
}

/// The position of the first user named `name`.
pub fn lookup_user(users: &Vec<User>, name: &str) -> (r: Option<usize>)
    ensures
        match r {
            Some(k) => k < users@.len() && find_user(users@, name@) == Some(k as int),
            None => find_user(users@, name@) is None,
        },
{
    for k in 0..users.len()
        invariant
            forall|j: int| 0 <= j < k ==> users@[j].username@ != name@,
    {
        if text_eq(&users[k].username, name) {
            proof {
                let c = choose|c: int| 0 <= c < users@.len() && (#[trigger] users@[c]).username@ == name@
                    && forall|j: int| 0 <= j < c ==> users@[j].username@ != name@;
                assert(users@[k as int].username@ == name@);
                if c < k {
                    assert(users@[c].username@ != name@);
                } else if c > k {
                    assert(users@[k as int].username@ != name@);
                }
            }
            return Some(k);
        }
    }
    None
}

/// Whether the user's password is right: `false` for an unknown user, the
/// verification against the stored hash otherwise (an error when that hash
/// is malformed).
pub fn verify_user(users: &Vec<User>, username: &str, password: &str) -> (r: Result<bool, String>)
    ensures
        match find_user(users@, username@) {
            None => r == Ok::<bool, String>(false),
            Some(k) => match r {
                Ok(b) => hash_parses(users@[k].password_hash@) && b == password_matches(password@, users@[k].password_hash@),
                Err(e) => !hash_parses(users@[k].password_hash@) && e@ == "Invalid password hash format"@,
            },
        },
{
    match lookup_user(users, username) {
        Some(k) => verify_password(password, users[k].password_hash.as_str()),
        None => Ok(false),
    }
}

/// No two users share a name.
pub open spec fn names_distinct(users: Seq<User>) -> bool {
    forall|a: int, b: int| 0 <= a < users.len() && 0 <= b < users.len() && a != b
        ==> (#[trigger] users[a]).username@ != (#[trigger] users[b]).username@
}

/// A new user from a sign-up: refused when the name or password is empty or
/// the name is taken; otherwise the user with a fresh hash of the password
/// (an error when hashing fails). Adding the new user keeps the names of the
/// users distinct.
pub fn new_user(users: &Vec<User>, username: &str, password: &str) -> (r: Result<User, String>)
    ensures
        r matches Ok(u) ==> (names_distinct(users@) ==> names_distinct(users@.push(u))),
        if username@.len() == 0 || password@.len() == 0 {
            r matches Err(e) && e@ == "Username and password cannot be empty"@
        } else if find_user(users@, username@) is Some {
            r matches Err(e) && e@ == "Username already exists"@
        } else {
            match r {
                Ok(u) => u.username@ == username@ && hash_parses(u.password_hash@)
                    && password_matches(password@, u.password_hash@),
                Err(e) => e@ == "Password hashing failed"@,
            }
        },
{
    let name_chars = crate::text::chars_of(username);
    let pass_chars = crate::text::chars_of(password);
    if name_chars.len() == 0 || pass_chars.len() == 0 {
        return Err(owned("Username and password cannot be empty"));
    }
    if lookup_user(users, username).is_some() {
        return Err(owned("Username already exists"));
    }
    match argon2_hash(password) {
        Some(h) => {
            let u = User { username: owned(username), password_hash: h };
            proof {
                let all = users@.push(u);
                assert forall|a: int, b: int| names_distinct(users@) && 0 <= a < all.len() && 0 <= b < all.len()
                    && a != b implies (#[trigger] all[a]).username@ != (#[trigger] all[b]).username@ by {
                    if a < users@.len() && b < users@.len() {
                        assert(all[a] == users@[a] && all[b] == users@[b]);
                    } else if a < users@.len() {
                        assert(all[a] == users@[a]);
                    } else {
                        assert(all[b] == users@[b]);
                    }
                }
            }
            Ok(u)
        },
        None => Err(owned("Password hashing failed")),
    }
}

/// The position of the session with the given id, if any.
pub open spec fn find_session(sessions: Seq<(String, Session)>, id: Seq<char>) -> Option<int> {
    if exists|k: int| 0 <= k < sessions.len() && (#[trigger] sessions[k]).0@ == id {
        Some(choose|k: int| 0 <= k < sessions.len() && (#[trigger] sessions[k]).0@ == id)
    } else {
        None
    }
}

/// No two sessions share an id.
pub open spec fn ids_distinct(sessions: Seq<(String, Session)>) -> bool {
    forall|a: int, b: int| 0 <= a < sessions.len() && 0 <= b < sessions.len() && a != b
        ==> (#[trigger] sessions[a]).0@ != (#[trigger] sessions[b]).0@
}

fn lookup_session(sessions: &Vec<(String, Session)>, id: &str) -> (r: Option<usize>)
    requires
        ids_distinct(sessions@),
    ensures
        match r {
            Some(k) => k < sessions@.len() && find_session(sessions@, id@) == Some(k as int),
            None => find_session(sessions@, id@) is None,
        },
{
    for k in 0..sessions.len()
        invariant
            ids_distinct(sessions@),
            forall|j: int| 0 <= j < k ==> sessions@[j].0@ != id@,
    {
        if text_eq(&sessions[k].0, id) {
            proof {
                let c = choose|c: int| 0 <= c < sessions@.len() && (#[trigger] sessions@[c]).0@ == id@;
                assert(sessions@[k as int].0@ == id@);
                if c != k {
                    assert(sessions@[c].0@ != sessions@[k as int].0@);
                }
            }
            return Some(k);
        }
    }
    None
}

/// The user of the session `id` at time `now`: `None` when there is no such
/// session or it has expired.
pub open spec fn session_user(sessions: Seq<(String, Session)>, id: Seq<char>, now: int) -> Option<Seq<char>> {
    match find_session(sessions, id) {
        Some(k) => if sessions[k].1.expires_at > now { Some(sessions[k].1.user_id@) } else { None },
        None => None,
    }
}

/// The user of the session with the given id when it has not expired at
/// time `now` (seconds since the Unix epoch).
pub fn validate_session(sessions: &Vec<(String, Session)>, session_id: &str, now: u64) -> (r: Option<String>)
    requires
        ids_distinct(sessions@),
    ensures
        match r {
            Some(u) => session_user(sessions@, session_id@, now as int) == Some(u@),
            None => session_user(sessions@, session_id@, now as int) is None,
        },
{
    match lookup_session(sessions, session_id) {
        Some(k) => {
            if sessions[k].1.expires_at > now {
                Some(owned(sessions[k].1.user_id.as_str()))
            } else {
                None
            }
        },
        None => None,
    }
}

/// A session just recorded for `username` at time `now` gives back that user
/// at every time before it expires and nothing from then on; the sessions
/// under other ids answer as before.
pub proof fn law_session_lifetime(
    before: Seq<(String, Session)>,
    after: Seq<(String, Session)>,
    id: Seq<char>,
    username: Seq<char>,
    now: int,
    t: int,
    other: Seq<char>,
)
    requires
        match find_session(after, id) {
            Some(k) => after[k].1.user_id@ == username && after[k].1.expires_at == now + SESSION_DURATION,
            None => false,
        },
        other != id ==> match find_session(before, other) {
            Some(k) => match find_session(after, other) {
                Some(j) => after[j] == before[k],
                None => false,
            },
            None => find_session(after, other) is None,
        },
    ensures
        session_user(after, id, t) == if t < now + SESSION_DURATION { Some(username) } else { None::<Seq<char>> },
        other != id ==> session_user(after, other, t) == session_user(before, other, t),
{
}

/// A user just signed up with `password` and added to the users logs in with
/// that password: the name finds the new user, whose hash parses and matches.
pub proof fn law_signup_then_login(users: Seq<User>, user: User, password: Seq<char>)
    requires
        find_user(users, user.username@) is None,
        hash_parses(user.password_hash@),
        password_matches(password, user.password_hash@),
    ensures
        find_user(users.push(user), user.username@) == Some(users.len() as int),
        hash_parses(users.push(user)[users.len() as int].password_hash@),
        password_matches(password, users.push(user)[users.len() as int].password_hash@),
{
    let all = users.push(user);
    let name = user.username@;
    assert(all[users.len() as int] == user);
    assert forall|j: int| 0 <= j < users.len() implies all[j].username@ != name by {
        assert(all[j] == users[j]);
    }
    let c = choose|k: int| 0 <= k < all.len() && (#[trigger] all[k]).username@ == name
        && forall|j: int| 0 <= j < k ==> all[j].username@ != name;
    assert(all[users.len() as int].username@ == name);
    if c < users.len() {
        assert(all[c] == users[c]);
    }
}

/// A fresh session id: `Uuid::new_v4`, hyphenated (36 characters).
#[verifier::external_body]
fn new_session_id() -> (r: String)
    ensures
        r@.len() == 36,
{
    uuid::Uuid::new_v4().to_string()
}

/// Records a session for `username` under `session_id`, expiring
/// [`SESSION_DURATION`] seconds after `now` (a session with the same id is
/// replaced).
pub fn record_session(sessions: &mut Vec<(String, Session)>, session_id: String, username: &str, now: u64)
    requires
        ids_distinct(old(sessions)@),
        now + SESSION_DURATION <= u64::MAX,
    ensures
        ids_distinct(final(sessions)@),
        match find_session(final(sessions)@, session_id@) {
            Some(k) => final(sessions)@[k].1.user_id@ == username@
                && final(sessions)@[k].1.expires_at == now + SESSION_DURATION,
            None => false,
        },
        forall|x: Seq<char>| #![trigger find_session(final(sessions)@, x)] x != session_id@ ==> match find_session(old(sessions)@, x) {
            Some(k) => match find_session(final(sessions)@, x) {
                Some(j) => final(sessions)@[j] == old(sessions)@[k],
                None => false,
            },
            None => find_session(final(sessions)@, x) is None,
        },
{
    let expires = now + SESSION_DURATION;
    let session = Session { user_id: owned(username), expires_at: expires };
    let ghost before = sessions@;
    match lookup_session(sessions, session_id.as_str()) {
        Some(k) => {
            let ghost id = session_id@;
            sessions.set(k, (session_id, session));
            proof {
                assert(sessions@[k as int].0@ == id);
                assert forall|a: int, b: int| 0 <= a < sessions@.len() && 0 <= b < sessions@.len() && a != b
                    implies (#[trigger] sessions@[a]).0@ != (#[trigger] sessions@[b]).0@ by {
                    if a == k {
                        assert(before[b].0@ != before[k as int].0@);
                    } else if b == k {
                        assert(before[a].0@ != before[k as int].0@);
                    } else {
                        assert(before[a].0@ != before[b].0@);
                    }
                }
                assert(sessions@[k as int].0@ == id);
                assert forall|x: Seq<char>| #![trigger find_session(sessions@, x)] x != id implies match find_session(before, x) {
                    Some(j0) => match find_session(sessions@, x) {
                        Some(j) => sessions@[j] == before[j0],
                        None => false,
                    },
                    None => find_session(sessions@, x) is None,
                } by {
                    if find_session(before, x) is Some {
                        let j0 = find_session(before, x).unwrap();
                        assert(j0 != k);
                        assert(sessions@[j0].0@ == x);
                        let j = find_session(sessions@, x).unwrap();
                        assert(j == j0);
                    } else if find_session(sessions@, x) is Some {
                        let j = find_session(sessions@, x).unwrap();
                        assert(j != k);
                        assert(before[j].0@ == x);
                    }
                }
            }
        },
        None => {
            let ghost id = session_id@;
            sessions.push((session_id, session));
            proof {
                let n = before.len();
                assert(sessions@[n as int].0@ == id);
                assert forall|a: int, b: int| 0 <= a < sessions@.len() && 0 <= b < sessions@.len() && a != b
                    implies (#[trigger] sessions@[a]).0@ != (#[trigger] sessions@[b]).0@ by {
                    if a == n {
                        assert(before[b].0@ != id);
                    } else if b == n {
                        assert(before[a].0@ != id);
                    } else {
                        assert(before[a] == sessions@[a]);
                        assert(before[b] == sessions@[b]);
                    }
                }
                let j = find_session(sessions@, id).unwrap();
                assert(j == n);
                assert forall|x: Seq<char>| #![trigger find_session(sessions@, x)] x != id implies match find_session(before, x) {
                    Some(j0) => match find_session(sessions@, x) {
                        Some(j) => sessions@[j] == before[j0],
                        None => false,
                    },
                    None => find_session(sessions@, x) is None,
                } by {
                    if find_session(before, x) is Some {
                        let j0 = find_session(before, x).unwrap();
                        assert(sessions@[j0] == before[j0]);
                        let j = find_session(sessions@, x).unwrap();
                        assert(j == j0);
                    } else if find_session(sessions@, x) is Some {
                        let j = find_session(sessions@, x).unwrap();
                        assert(j != n);
                        assert(before[j] == sessions@[j]);
                    }
                }
            }
        },
    }
}

/// Opens a session for `username` at time `now` under a fresh random id,
/// and returns the id; see [`record_session`].
pub fn create_session(sessions: &mut Vec<(String, Session)>, username: &str, now: u64) -> (id: String)
    requires
        ids_distinct(old(sessions)@),
        now + SESSION_DURATION <= u64::MAX,
    ensures
        ids_distinct(final(sessions)@),
        id@.len() == 36,
        match find_session(final(sessions)@, id@) {
            Some(k) => final(sessions)@[k].1.user_id@ == username@
                && final(sessions)@[k].1.expires_at == now + SESSION_DURATION,
            None => false,
        },
        forall|x: Seq<char>| #![trigger find_session(final(sessions)@, x)] x != id@ ==> match find_session(old(sessions)@, x) {
            Some(k) => match find_session(final(sessions)@, x) {
                Some(j) => final(sessions)@[j] == old(sessions)@[k],
                None => false,
            },
            None => find_session(final(sessions)@, x) is None,
        },
{
    let id = new_session_id();
    let copy = owned(id.as_str());
    record_session(sessions, copy, username, now);
    id
}

/// The characters of a password reset code.
pub open spec fn reset_charset() -> Seq<char> {
    seq!['A', 'B', 'C', 'D', 'E', 'F', 'G', 'H', 'I', 'J', 'K', 'L', 'M', 'N', 'O', 'P', 'Q', 'R', 'S', 'T',
        'U', 'V', 'W', 'X', 'Y', 'Z', '0', '1', '2', '3', '4', '5', '6', '7', '8', '9']
}

/// `rand::thread_rng().gen_range(0..n)`: a random position below `n`.
#[verifier::external_body]
fn random_below(n: usize) -> (r: usize)
    requires
        n > 0,
    ensures
        r < n,
{
    rand::thread_rng().gen_range(0..n)
}

/// The reset code that the positions `idx` pick from [`reset_charset`].
pub open spec fn reset_code_text(idx: Seq<usize>) -> Seq<char> {
    Seq::new(idx.len(), |i: int| reset_charset()[idx[i] as int])
}

/// The reset code made of the characters at positions `idx` of
/// [`reset_charset`], in order.
pub fn reset_code_from(idx: &Vec<usize>) -> (r: String)
    requires
        idx@.len() == 8,
        forall|i: int| 0 <= i < 8 ==> idx@[i] < 36,
    ensures
        r@ == reset_code_text(idx@),
{
    let charset = ['A', 'B', 'C', 'D', 'E', 'F', 'G', 'H', 'I', 'J', 'K', 'L', 'M', 'N', 'O', 'P', 'Q', 'R', 'S', 'T',
        'U', 'V', 'W', 'X', 'Y', 'Z', '0', '1', '2', '3', '4', '5', '6', '7', '8', '9'];
    assert(charset@ == reset_charset());
    let mut out: Vec<char> = Vec::new();
    for i in 0..8usize
        invariant
            idx@.len() == 8,
            forall|k: int| 0 <= k < 8 ==> idx@[k] < 36,
            charset@ == reset_charset(),
            out@ == reset_code_text(idx@).take(i as int),
    {
        let c = charset[idx[i]];
        out.push(c);
        assert(reset_code_text(idx@).take(i + 1) =~= reset_code_text(idx@).take(i as int).push(c));
    }
    assert(reset_code_text(idx@).take(8) =~= reset_code_text(idx@));
    string_from_chars(&out)
}

/// A random password reset code: eight characters, each drawn at random from
/// the upper-case letters and the digits; see [`reset_code_from`].
pub fn generate_reset_code() -> (r: String)
    ensures
        exists|idx: Seq<usize>| idx.len() == 8 && (forall|i: int| 0 <= i < 8 ==> #[trigger] idx[i] < 36)
            && r@ == reset_code_text(idx),
        r@.len() == 8,
        forall|i: int| 0 <= i < 8 ==> reset_charset().contains(#[trigger] r@[i]),
{
    let mut idx: Vec<usize> = Vec::new();
    for _i in 0..8usize
        invariant
            idx@.len() == _i,
            forall|k: int| 0 <= k < idx@.len() ==> #[trigger] idx@[k] < 36,
    {
        idx.push(random_below(36));
    }
    let r = reset_code_from(&idx);
    assert forall|i: int| 0 <= i < 8 implies reset_charset().contains(#[trigger] r@[i]) by {
        assert(r@[i] == reset_charset()[idx@[i] as int]);
    }
    r
}

} // verus!
