//! Users and their sessions: random identifiers, password hashes, session
//! cookies, and the one-line text form of a user record.
use vstd::prelude::*;

use argon2::password_hash::SaltString;
use argon2::{Argon2, PasswordHash, PasswordHasher, PasswordVerifier};
use rand::rngs::OsRng;
use rand::Rng;

use crate::cookie::{set_cookie_text, SetCookie, SetCookieView};
use crate::text::{
    lemma_char_pos_absent, lemma_pieces_join, lemma_pieces_single,
    char_pos, chars_of, find_char, pieces, range_is, same_text, spans_text, spans_within,
    split_on, string_of, substring,
};

verus! {

/// The characters of a random identifier.
pub open spec fn base58_alphabet() -> Seq<char> {
    "123456789ABCDEFGHJKLMNPQRSTUVWXYZabcdefghijkmnopqrstuvwxyz"@
}

pub open spec fn is_base58(c: char) -> bool {
    base58_alphabet().contains(c)
}

/// Whether `s` is a random identifier of `n` characters.
pub open spec fn is_base58_id(s: Seq<char>, n: nat) -> bool {
    s.len() == n && forall|i: int| 0 <= i < s.len() ==> is_base58(#[trigger] s[i])
}

pub const USER_ID_LENGTH: usize = 6;

pub const SESSION_ID_LENGTH: usize = 6;

/// Relies on rand's `Rng::gen_range` over `OsRng`: a value in `0..n`
/// (it panics on an empty range, which `requires` leaves out).
#[verifier::external_body]
fn random_below(n: usize) -> (r: usize)
    requires
        n > 0,
    ensures
        r < n,
{
    OsRng.gen_range(0..n)
}

/// The characters that `indices` pick from the base58 alphabet.
pub open spec fn base58_of(indices: Seq<usize>) -> Seq<char> {
    indices.map_values(|i: usize| base58_alphabet()[i as int])
}

/// The text that the indices pick from the base58 alphabet, in order.
pub fn base58_text(indices: &Vec<usize>) -> (r: String)
    requires
        forall|k: int| 0 <= k < indices@.len() ==> #[trigger] indices@[k] < 58,
    ensures
        r@ == base58_of(indices@),
        is_base58_id(r@, indices@.len()),
{
    let alphabet = chars_of("123456789ABCDEFGHJKLMNPQRSTUVWXYZabcdefghijkmnopqrstuvwxyz");
    proof {
        reveal_strlit("123456789ABCDEFGHJKLMNPQRSTUVWXYZabcdefghijkmnopqrstuvwxyz");
    }
    assert(alphabet@.len() == 58);
    let mut out: Vec<char> = Vec::new();
    let mut k: usize = 0;
    while k < indices.len()
        invariant
            alphabet@ == base58_alphabet(),
            alphabet@.len() == 58,
            k <= indices@.len(),
            forall|t: int| 0 <= t < indices@.len() ==> #[trigger] indices@[t] < 58,
            out@ == base58_of(indices@.take(k as int)),
            is_base58_id(out@, k as nat),
        decreases indices@.len() - k,
    {
        let c = alphabet[indices[k]];
        out.push(c);
        assert(base58_of(indices@.take(k + 1)) =~= base58_of(indices@.take(k as int)).push(c));
        assert(is_base58(out@[k as int]));
        k = k + 1;
    }
    assert(indices@.take(k as int) =~= indices@);
    string_of(out.as_slice())
}

/// A random string of `count` characters of the base58 alphabet, each drawn
/// from the operating system's generator.
pub fn random_base58(count: usize) -> (r: String)
    ensures
        is_base58_id(r@, count as nat),
        exists|d: Seq<usize>|
            d.len() == count && (forall|k: int| 0 <= k < d.len() ==> #[trigger] d[k] < 58) && r@
                == base58_of(d),
{
    let mut draws: Vec<usize> = Vec::new();
    let mut k: usize = 0;
    while k < count
        invariant
            k <= count,
            draws@.len() == k,
            forall|t: int| 0 <= t < draws@.len() ==> #[trigger] draws@[t] < 58,
        decreases count - k,
    {
        draws.push(random_below(58));
        k = k + 1;
    }
    base58_text(&draws)
}

/// Relies on argon2's `PasswordHasher::hash_password` with the default
/// parameters and a salt from `SaltString::generate(&mut OsRng)`, written
/// as a PHC string. It fails only for a password longer than `u32::MAX`
/// bytes, which `requires` leaves out. The salt is random, so the text is
/// not fixed; what holds of every outcome is that the password verifies
/// against it and that a PHC string holds no space.
#[verifier::external_body]
fn hash_password(password: &str) -> (r: String)
    requires
        vstd::utf8::encode_utf8(password@).len() <= 0xFFFF_FFFF,
    ensures
        password_ok(r@, password@),
        !r@.contains(' '),
{
    Argon2::default().hash_password(password.as_bytes(), &SaltString::generate(&mut OsRng)).unwrap().to_string()
}

/// Whether `password` matches the PHC string `hash`.
pub uninterp spec fn password_ok(hash: Seq<char>, password: Seq<char>) -> bool;

/// Relies on argon2's `PasswordVerifier::verify_password` after
/// `PasswordHash::new`: whether `password` matches the PHC string `hash`,
/// which depends on the two texts alone. A hash that does not parse
/// matches nothing.
#[verifier::external_body]
fn password_matches(hash: &str, password: &str) -> (r: bool)
    ensures
        r == password_ok(hash@, password@),
{
    match PasswordHash::new(hash) {
        Ok(parsed) => Argon2::default().verify_password(password.as_bytes(), &parsed).is_ok(),
        Err(_) => false,
    }
}

/// The identifier of a user.
#[derive(Clone, Debug, PartialEq, Eq, Hash)]
pub struct UserId(String);

/// The identifier of a session.
#[derive(Clone, Debug, PartialEq, Eq, Hash)]
pub struct SessionId(String);

impl View for UserId {
    type V = Seq<char>;

    closed spec fn view(&self) -> Seq<char> {
        self.0@
    }
}

impl View for SessionId {
    type V = Seq<char>;

    closed spec fn view(&self) -> Seq<char> {
        self.0@
    }
}

impl From<String> for UserId {
    fn from(s: String) -> (r: UserId) {
        UserId(s)
    }
}

impl vstd::std_specs::convert::FromSpecImpl<String> for UserId {
    open spec fn obeys_from_spec() -> bool {
        true
    }

    closed spec fn from_spec(s: String) -> UserId {
        UserId(s)
    }
}

impl From<String> for SessionId {
    fn from(s: String) -> (r: SessionId) {
        SessionId(s)
    }
}

impl vstd::std_specs::convert::FromSpecImpl<String> for SessionId {
    open spec fn obeys_from_spec() -> bool {
        true
    }

    closed spec fn from_spec(s: String) -> SessionId {
        SessionId(s)
    }
}

/// `UserId::from(s)` holds the text of `s`.
pub proof fn lemma_user_id_from(s: String)
    ensures
        <UserId as vstd::std_specs::convert::FromSpec<String>>::obeys_from_spec(),
        <UserId as vstd::std_specs::convert::FromSpec<String>>::from_spec(s)@ == s@,
{
}

/// `SessionId::from(s)` holds the text of `s`.
pub proof fn lemma_session_id_from(s: String)
    ensures
        <SessionId as vstd::std_specs::convert::FromSpec<String>>::obeys_from_spec(),
        <SessionId as vstd::std_specs::convert::FromSpec<String>>::from_spec(s)@ == s@,
{
}

impl UserId {
    pub fn new(s: String) -> (r: UserId)
        ensures
            r@ == s@,
    {
        UserId(s)
    }

    pub fn as_str(&self) -> (r: &str)
        ensures
            r@ == self@,
    {
        self.0.as_str()
    }

    pub fn copy(&self) -> (r: UserId)
        ensures
            r@ == self@,
    {
        UserId(self.0.clone())
    }
}

impl SessionId {
    pub fn new(s: String) -> (r: SessionId)
        ensures
            r@ == s@,
    {
        SessionId(s)
    }

    pub fn as_str(&self) -> (r: &str)
        ensures
            r@ == self@,
    {
        self.0.as_str()
    }

    pub fn copy(&self) -> (r: SessionId)
        ensures
            r@ == self@,
    {
        SessionId(self.0.clone())
    }
}

/// What is shown of a user.
#[derive(Debug)]
pub struct UserStub {
    pub email: Option<String>,
    pub id: UserId,
    pub username: String,
}

/// A user with one of their sessions.
#[derive(Debug)]
pub struct Session {
    pub stub: UserStub,
    pub sid: SessionId,
}

pub open spec fn opt_text(o: Option<String>) -> Option<Seq<char>> {
    match o {
        Some(s) => Some(s@),
        None => None,
    }
}

fn copy_opt(o: &Option<String>) -> (r: Option<String>)
    ensures
        opt_text(r) == opt_text(*o),
{
    match o {
        Some(s) => Some(s.clone()),
        None => None,
    }
}

/// The cookie that a session is kept in: `sid`, secure, HTTP-only, path `/`,
/// for `max_age` seconds.
pub open spec fn session_cookie_text(sid: Seq<char>, max_age: u64) -> Seq<char> {
    set_cookie_text(
        SetCookieView {
            key: "sid"@,
            value: sid,
            max_age: Some(max_age),
            secure: true,
            httponly: true,
            path: Some("/"@),
        },
    )
}

/// Thirty days, in seconds.
pub const SESSION_MAX_AGE: u64 = 2592000;

fn session_cookie(sid: &SessionId, max_age: u64) -> (r: String)
    ensures
        r@ == session_cookie_text(sid@, max_age),
{
    SetCookie::new(String::from_str("sid"), sid.0.clone()).secure(true).httponly(true).max_age(
        Some(max_age),
    ).path(Some(String::from_str("/"))).as_string()
}

/// The `Set-Cookie` value that opens a session on the client for thirty days.
pub fn session_set_cookie(sid: &SessionId) -> (r: String)
    ensures
        r@ == session_cookie_text(sid@, SESSION_MAX_AGE),
{
    session_cookie(sid, SESSION_MAX_AGE)
}

/// The `Set-Cookie` value that ends a session on the client.
pub fn session_clear_cookie(sid: &SessionId) -> (r: String)
    ensures
        r@ == session_cookie_text(sid@, 0),
{
    session_cookie(sid, 0)
}

impl Session {
    pub fn login_cookie(&self) -> (r: String)
        ensures
            r@ == session_cookie_text(self.sid@, SESSION_MAX_AGE),
    {
        session_set_cookie(&self.sid)
    }

    pub fn logout_cookie(&self) -> (r: String)
        ensures
            r@ == session_cookie_text(self.sid@, 0),
    {
        session_clear_cookie(&self.sid)
    }
}

/// A stored user: identity, password hash and open sessions.
#[derive(Clone, Debug, PartialEq)]
pub struct UserEntry {
    pub id: UserId,
    pub email: Option<String>,
    pub username: String,
    pub password_hash: String,
    sessions: Vec<SessionId>,
}

pub struct UserEntryView {
    pub id: Seq<char>,
    pub email: Option<Seq<char>>,
    pub username: Seq<char>,
    pub password_hash: Seq<char>,
    pub sessions: Seq<Seq<char>>,
}

impl View for UserEntry {
    type V = UserEntryView;

    closed spec fn view(&self) -> UserEntryView {
        UserEntryView {
            id: self.id@,
            email: opt_text(self.email),
            username: self.username@,
            password_hash: self.password_hash@,
            sessions: self.sessions@.map_values(|s: SessionId| s@),
        }
    }
}

impl UserEntry {
    /// A new user with a fresh random id, the hash of their password, and no sessions.
    pub fn new_user(email: Option<String>, username: String, password_raw: String) -> (r: UserEntry)
        requires
            vstd::utf8::encode_utf8(password_raw@).len() <= 0xFFFF_FFFF,
        ensures
            is_base58_id(r@.id, USER_ID_LENGTH as nat),
            r@.email == opt_text(email),
            r@.username == username@,
            r@.sessions == Seq::<Seq<char>>::empty(),
            password_ok(r@.password_hash, password_raw@),
            !r@.password_hash.contains(' '),
    {
        let password_hash = hash_password(password_raw.as_str());
        let id = Self::generate_user_id();
        let r = UserEntry { id, email, username, password_hash, sessions: Vec::new() };
        assert(r@.sessions =~= Seq::<Seq<char>>::empty());
        r
    }

    /// Opens a new session with a fresh random id.
    pub fn new_session(&mut self) -> (r: Session)
        ensures
            is_base58_id(r.sid@, SESSION_ID_LENGTH as nat),
            final(self)@.sessions == old(self)@.sessions.push(r.sid@),
            final(self)@.id == old(self)@.id,
            final(self)@.email == old(self)@.email,
            final(self)@.username == old(self)@.username,
            final(self)@.password_hash == old(self)@.password_hash,
            r.stub.id@ == old(self)@.id,
            opt_text(r.stub.email) == old(self)@.email,
            r.stub.username@ == old(self)@.username,
    {
        let sid = Self::generate_session_id();
        self.sessions.push(sid.copy());
        assert(self@.sessions =~= old(self)@.sessions.push(sid@));
        Session { stub: self.stub(), sid }
    }

    /// Id, email and name of the user.
    pub fn stub(&self) -> (r: UserStub)
        ensures
            r.id@ == self@.id,
            opt_text(r.email) == self@.email,
            r.username@ == self@.username,
    {
        UserStub { email: copy_opt(&self.email), id: self.id.copy(), username: self.username.clone() }
    }

    /// Whether `password` matches the stored hash.
    pub fn verify_password(&self, password: &str) -> (r: bool)
        ensures
            r == password_ok(self@.password_hash, password@),
    {
        password_matches(self.password_hash.as_str(), password)
    }

    fn generate_user_id() -> (r: UserId)
        ensures
            is_base58_id(r@, USER_ID_LENGTH as nat),
    {
        UserId(random_base58(USER_ID_LENGTH))
    }

    fn generate_session_id() -> (r: SessionId)
        ensures
            is_base58_id(r@, SESSION_ID_LENGTH as nat),
    {
        SessionId(random_base58(SESSION_ID_LENGTH))
    }
}


/// The session ids, each followed by a comma.
pub open spec fn sessions_text(ss: Seq<Seq<char>>) -> Seq<char>
    decreases ss.len(),
{
    if ss.len() == 0 {
        seq![]
    } else {
        ss[0] + ","@ + sessions_text(ss.drop_first())
    }
}

/// The one-line text form of a user record:
/// `<id> <<email>> <username> <hash> sessions=<sid>,<sid>,`.
pub open spec fn entry_line(e: UserEntryView) -> Seq<char> {
    e.id + " <"@ + match e.email {
        Some(m) => m,
        None => seq![],
    } + "> "@ + e.username + " "@ + e.password_hash + " sessions="@ + sessions_text(e.sessions)
}

/// The non-empty pieces, in order.
pub open spec fn non_empty(ps: Seq<Seq<char>>) -> Seq<Seq<char>>
    decreases ps.len(),
{
    if ps.len() == 0 {
        seq![]
    } else if ps.last().len() > 0 {
        non_empty(ps.drop_last()).push(ps.last())
    } else {
        non_empty(ps.drop_last())
    }
}

/// Reads a user record from its line: the id up to the first space, the
/// email between `<` and the first `>` (empty for none), one more character
/// skipped, then the space-separated username, hash and `sessions=` list,
/// whose empty items are dropped. Words after the third are ignored.
pub open spec fn entry_of(s: Seq<char>) -> Option<UserEntryView> {
    let k = char_pos(s, ' ');
    let rest = s.skip(k + 1 as int);
    if k >= s.len() || rest.len() == 0 || rest[0] != '<' {
        None
    } else {
        let r1 = rest.skip(1);
        let g = char_pos(r1, '>');
        if g + 2 > r1.len() {
            None
        } else {
            let email = r1.take(g as int);
            let ps = pieces(r1.skip(g + 2 as int), ' ');
            if ps.len() < 3 || ps[2].len() < 9 || ps[2].take(9) != "sessions="@ {
                None
            } else {
                Some(
                    UserEntryView {
                        id: s.take(k as int),
                        email: if email.len() == 0 {
                            None
                        } else {
                            Some(email)
                        },
                        username: ps[0],
                        password_hash: ps[1],
                        sessions: non_empty(pieces(ps[2].skip(9), ',')),
                    },
                )
            }
        }
    }
}

impl UserEntry {
    /// The one-line text form of the record.
    pub fn to_line(&self) -> (r: String)
        ensures
            r@ == entry_line(self@),
    {
        let mut line = self.id.0.clone();
        line.append(" <");
        if let Some(m) = &self.email {
            line.append(m.as_str());
        }
        line.append("> ");
        line.append(self.username.as_str());
        line.append(" ");
        line.append(self.password_hash.as_str());
        line.append(" sessions=");
        let ghost pre = line@;
        let ghost ss = self@.sessions;
        let mut k: usize = 0;
        assert(ss.skip(0) =~= ss);
        assert(line@ + sessions_text(ss) =~= pre + sessions_text(ss));
        while k < self.sessions.len()
            invariant
                k <= self.sessions@.len(),
                ss == self@.sessions,
                ss.len() == self.sessions@.len(),
                line@ + sessions_text(ss.skip(k as int)) == pre + sessions_text(ss),
            decreases self.sessions@.len() - k,
        {
            let ghost before = line@;
            line.append(self.sessions[k].0.as_str());
            line.append(",");
            assert(ss.skip(k as int).drop_first() =~= ss.skip(k + 1));
            assert(ss.skip(k as int)[0] == self.sessions@[k as int]@);
            assert(line@ + sessions_text(ss.skip(k + 1)) =~= before + sessions_text(ss.skip(k as int)));
            k = k + 1;
        }
        assert(ss.skip(k as int) =~= Seq::<Seq<char>>::empty());
        assert(line@ =~= entry_line(self@));
        line
    }

    /// Reads a record from its one-line text form.
    pub fn from_line(s: &str) -> (r: Result<UserEntry, ()>)
        ensures
            match r {
                Ok(e) => entry_of(s@) == Some(e@),
                Err(_) => entry_of(s@) is None,
            },
    {
        let t = chars_of(s);
        let n = t.len();
        let k = find_char(&t, 0, n, ' ');
        assert(t@.subrange(0, n as int) =~= t@);
        if k == n || n - k < 2 || t[k + 1] != '<' {
            return Err(());
        }
        let g = find_char(&t, k + 2, n, '>');
        assert(t@.skip(k + 1).skip(1) =~= t@.subrange(k + 2, n as int));
        if n - g < 2 {
            return Err(());
        }
        let rest = vstd::slice::slice_to_vec(vstd::slice::slice_subrange(t.as_slice(), g + 2, n));
        assert(rest@ =~= t@.subrange(k + 2, n as int).skip(g - (k + 2) + 2));
        let spans = split_on(&rest, ' ');
        let ghost ps = pieces(rest@, ' ');
        assert(spans_text(rest@, spans@).len() == spans@.len());
        if spans.len() < 3 {
            return Err(());
        }
        let (s0, e0) = spans[2];
        assert(ps[2] == rest@.subrange(s0 as int, e0 as int));
        if e0 - s0 < 9 || !range_is(&rest, s0, s0 + 9, "sessions=") {
            proof {
                if e0 - s0 >= 9 {
                    assert(ps[2].take(9) =~= rest@.subrange(s0 as int, s0 + 9));
                }
            }
            return Err(());
        }
        assert(ps[2].take(9) =~= rest@.subrange(s0 as int, s0 + 9));
        let list = vstd::slice::slice_to_vec(vstd::slice::slice_subrange(rest.as_slice(), s0 + 9, e0));
        assert(list@ =~= ps[2].skip(9));
        let items = split_on(&list, ',');
        let ghost qs = pieces(list@, ',');
        assert(spans_text(list@, items@).len() == items@.len());
        let mut sessions: Vec<SessionId> = Vec::new();
        let mut j: usize = 0;
        assert(qs.take(0) =~= Seq::<Seq<char>>::empty());
        assert(sessions@.map_values(|x: SessionId| x@) =~= Seq::<Seq<char>>::empty());
        while j < items.len()
            invariant
                j <= items@.len(),
                qs == pieces(list@, ','),
                spans_text(list@, items@) == qs,
                spans_within(items@, 0, list@.len() as int),
                sessions@.map_values(|x: SessionId| x@) == non_empty(qs.take(j as int)),
            decreases items@.len() - j,
        {
            let (a, b) = items[j];
            assert(qs.take(j + 1).drop_last() =~= qs.take(j as int));
            assert(qs.take(j + 1).last() == list@.subrange(a as int, b as int));
            if a < b {
                let ghost before = sessions@.map_values(|x: SessionId| x@);
                sessions.push(SessionId(substring(&list, a, b)));
                assert(sessions@.map_values(|x: SessionId| x@) =~= before.push(
                    list@.subrange(a as int, b as int),
                ));
            }
            j = j + 1;
        }
        assert(qs.take(j as int) =~= qs);
        let email_text = substring(&t, k + 2, g);
        let email = if g == k + 2 {
            None
        } else {
            Some(email_text)
        };
        let (u0, u1) = spans[0];
        let (h0, h1) = spans[1];
        let e = UserEntry {
            id: UserId(substring(&t, 0, k)),
            email,
            username: substring(&rest, u0, u1),
            password_hash: substring(&rest, h0, h1),
            sessions,
        };
        assert(t@.subrange(k + 2, n as int).take(g - (k + 2)) =~= email_text@);
        assert(e@.id =~= t@.take(k as int));
        Ok(e)
    }
}

impl std::str::FromStr for UserEntry {
    type Err = ();

    fn from_str(s: &str) -> Result<UserEntry, ()> {
        UserEntry::from_line(s)
    }
}

impl UserEntry {
    /// Whether `sid` is one of the user's sessions.
    pub fn has_session(&self, sid: &SessionId) -> (r: bool)
        ensures
            r == self@.sessions.contains(sid@),
    {
        let mut k: usize = 0;
        while k < self.sessions.len()
            invariant
                k <= self.sessions@.len(),
                forall|j: int| 0 <= j < k ==> self@.sessions[j] != sid@,
            decreases self.sessions@.len() - k,
        {
            assert(self@.sessions[k as int] == self.sessions@[k as int]@);
            if same_text(self.sessions[k].0.as_str(), sid.0.as_str()) {
                return true;
            }
            k = k + 1;
        }
        false
    }

    /// Ends the session `sid`: its first occurrence is removed.
    pub fn remove_session(&mut self, sid: &SessionId) -> (r: bool)
        ensures
            r == old(self)@.sessions.contains(sid@),
            r ==> exists|i: int|
                0 <= i < old(self)@.sessions.len() && old(self)@.sessions[i] == sid@ && (forall|
                    t: int,
                | 0 <= t < i ==> old(self)@.sessions[t] != sid@) && final(self)@.sessions == old(
                    self,
                )@.sessions.remove(i),
            !r ==> final(self)@.sessions == old(self)@.sessions,
            final(self)@.id == old(self)@.id,
            final(self)@.email == old(self)@.email,
            final(self)@.username == old(self)@.username,
            final(self)@.password_hash == old(self)@.password_hash,
    {
        let mut k: usize = 0;
        while k < self.sessions.len()
            invariant
                k <= self.sessions@.len(),
                self == old(self),
                forall|j: int| 0 <= j < k ==> self@.sessions[j] != sid@,
            decreases self.sessions@.len() - k,
        {
            assert(self@.sessions[k as int] == self.sessions@[k as int]@);
            if same_text(self.sessions[k].0.as_str(), sid.0.as_str()) {
                self.sessions.remove(k);
                assert(self@.sessions =~= old(self)@.sessions.remove(k as int));
                return true;
            }
            k = k + 1;
        }
        false
    }
}

/// The registry of users, in insertion order; a user registered again under
/// an id that is already there replaces the stored entry.
pub struct Users {
    entries: Vec<UserEntry>,
}

impl View for Users {
    type V = Seq<UserEntryView>;

    closed spec fn view(&self) -> Seq<UserEntryView> {
        self.entries@.map_values(|e: UserEntry| e@)
    }
}

/// `es` with `e` stored: it replaces the first entry with the same id, or
/// comes last.
pub open spec fn with_entry(es: Seq<UserEntryView>, e: UserEntryView) -> Seq<UserEntryView> {
    if exists|i: int| 0 <= i < es.len() && es[i].id == e.id {
        let i = choose|i: int|
            0 <= i < es.len() && es[i].id == e.id && forall|j: int|
                0 <= j < i ==> es[j].id != e.id;
        es.update(i, e)
    } else {
        es.push(e)
    }
}

/// The first index whose entry satisfies `f`, if any.
pub open spec fn is_first(es: Seq<UserEntryView>, i: int, f: spec_fn(UserEntryView) -> bool) -> bool {
    0 <= i < es.len() && f(es[i]) && forall|j: int| 0 <= j < i ==> !f(#[trigger] es[j])
}

proof fn lemma_first_unique(es: Seq<UserEntryView>, i: int, k: int, f: spec_fn(UserEntryView) -> bool)
    requires
        is_first(es, i, f),
        is_first(es, k, f),
    ensures
        i == k,
{
    if i < k {
        assert(!f(es[i]));
    } else if k < i {
        assert(!f(es[k]));
    }
}

impl Users {
    pub fn new() -> (r: Users)
        ensures
            r@ == Seq::<UserEntryView>::empty(),
    {
        let r = Users { entries: Vec::new() };
        assert(r@ =~= Seq::<UserEntryView>::empty());
        r
    }

    /// Index of the first user that `pick` accepts, by a scan in order.
    fn index_with_id(&self, id: &UserId) -> (r: Option<usize>)
        ensures
            match r {
                Some(i) => is_first(self@, i as int, |e: UserEntryView| e.id == id@),
                None => forall|j: int| 0 <= j < self@.len() ==> #[trigger] self@[j].id != id@,
            },
    {
        let mut k: usize = 0;
        while k < self.entries.len()
            invariant
                k <= self.entries@.len(),
                self@.len() == self.entries@.len(),
                forall|j: int| 0 <= j < k ==> #[trigger] self@[j].id != id@,
            decreases self.entries@.len() - k,
        {
            assert(self@[k as int] == self.entries@[k as int]@);
            if same_text(self.entries[k].id.0.as_str(), id.0.as_str()) {
                return Some(k);
            }
            k = k + 1;
        }
        None
    }

    fn index_with_username(&self, username: &str) -> (r: Option<usize>)
        ensures
            match r {
                Some(i) => is_first(self@, i as int, |e: UserEntryView| e.username == username@),
                None => forall|j: int|
                    0 <= j < self@.len() ==> #[trigger] self@[j].username != username@,
            },
    {
        let mut k: usize = 0;
        while k < self.entries.len()
            invariant
                k <= self.entries@.len(),
                self@.len() == self.entries@.len(),
                forall|j: int| 0 <= j < k ==> #[trigger] self@[j].username != username@,
            decreases self.entries@.len() - k,
        {
            assert(self@[k as int] == self.entries@[k as int]@);
            if same_text(self.entries[k].username.as_str(), username) {
                return Some(k);
            }
            k = k + 1;
        }
        None
    }

    fn index_with_session(&self, sid: &SessionId) -> (r: Option<usize>)
        ensures
            match r {
                Some(i) => is_first(self@, i as int, |e: UserEntryView| e.sessions.contains(sid@)),
                None => forall|j: int|
                    0 <= j < self@.len() ==> !(#[trigger] self@[j]).sessions.contains(sid@),
            },
    {
        let mut k: usize = 0;
        while k < self.entries.len()
            invariant
                k <= self.entries@.len(),
                self@.len() == self.entries@.len(),
                forall|j: int| 0 <= j < k ==> !(#[trigger] self@[j]).sessions.contains(sid@),
            decreases self.entries@.len() - k,
        {
            assert(self@[k as int] == self.entries@[k as int]@);
            if self.entries[k].has_session(sid) {
                return Some(k);
            }
            k = k + 1;
        }
        None
    }

    /// Stores `entry`, replacing the first entry with the same id.
    pub fn insert(&mut self, entry: UserEntry)
        ensures
            final(self)@ == with_entry(old(self)@, entry@),
    {
        let ghost f = |e: UserEntryView| e.id == entry@.id;
        match self.index_with_id(&entry.id) {
            Some(i) => {
                self.entries.set(i, entry);
                assert(self@ =~= old(self)@.update(i as int, entry@));
                let ghost w = choose|w: int|
                    0 <= w < old(self)@.len() && old(self)@[w].id == entry@.id && forall|j: int|
                        0 <= j < w ==> old(self)@[j].id != entry@.id;
                proof {
                    lemma_first_unique(old(self)@, i as int, w, f);
                }
            },
            None => {
                self.entries.push(entry);
                assert(self@ =~= old(self)@.push(entry@));
            },
        }
    }

    /// Registers a user with a fresh id and opens their first session.
    pub fn register(&mut self, email: Option<String>, username: String, password: String) -> (r: Session)
        requires
            vstd::utf8::encode_utf8(password@).len() <= 0xFFFF_FFFF,
        ensures
            is_base58_id(r.stub.id@, USER_ID_LENGTH as nat),
            is_base58_id(r.sid@, SESSION_ID_LENGTH as nat),
            r.stub.username@ == username@,
            opt_text(r.stub.email) == opt_text(email),
            exists|e: UserEntryView|
                e.id == r.stub.id@ && e.sessions == seq![r.sid@] && final(self)@ == with_entry(
                    old(self)@,
                    e,
                ) && e.username == username@ && e.email == opt_text(email) && password_ok(
                    e.password_hash,
                    password@,
                ) && !e.password_hash.contains(' '),
    {
        let ghost em = opt_text(email);
        let ghost un = username@;
        let ghost pw = password@;
        let mut entry = UserEntry::new_user(email, username, password);
        let session = entry.new_session();
        assert(entry@.sessions =~= seq![session.sid@]);
        let ghost ev = entry@;
        self.insert(entry);
        assert(ev.id == session.stub.id@ && ev.sessions == seq![session.sid@] && self@ == with_entry(
            old(self)@,
            ev,
        ) && ev.username == un && ev.email == em && password_ok(ev.password_hash, pw)
            && !ev.password_hash.contains(' '));
        session
    }

    /// Logs a user in: the first user with that name, if the password
    /// matches, gets a new session.
    pub fn login(&mut self, username: &str, password: &str) -> (r: Option<Session>)
        ensures
            match r {
                None => final(self)@ == old(self)@ && forall|i: int|
                    is_first(old(self)@, i, |e: UserEntryView| e.username == username@)
                        ==> !password_ok(old(self)@[i].password_hash, password@),
                Some(sess) => exists|i: int|
                    is_first(old(self)@, i, |e: UserEntryView| e.username == username@)
                        && password_ok(old(self)@[i].password_hash, password@) && final(self)@
                        == old(self)@.update(
                        i,
                        UserEntryView {
                            sessions: old(self)@[i].sessions.push(sess.sid@),
                            ..old(self)@[i]
                        },
                    ) && sess.stub.id@ == old(self)@[i].id && is_base58_id(
                        sess.sid@,
                        SESSION_ID_LENGTH as nat,
                    ),
            },
    {
        let ghost f = |e: UserEntryView| e.username == username@;
        match self.index_with_username(username) {
            None => None,
            Some(i) => {
                assert(self@[i as int] == self.entries@[i as int]@);
                if !self.entries[i].verify_password(password) {
                    assert forall|k: int| is_first(old(self)@, k, f) implies !password_ok(
                        old(self)@[k].password_hash,
                        password@,
                    ) by {
                        lemma_first_unique(old(self)@, i as int, k, f);
                    }
                    return None;
                }
                let mut e = self.entries.remove(i);
                let sess = e.new_session();
                self.entries.insert(i, e);
                assert(self@ =~= old(self)@.update(
                    i as int,
                    UserEntryView {
                        sessions: old(self)@[i as int].sessions.push(sess.sid@),
                        ..old(self)@[i as int]
                    },
                ));
                Some(sess)
            },
        }
    }

    /// Checks a user's password without opening a session.
    pub fn authenticate(&self, username: &str, password: &str) -> (r: Option<UserStub>)
        ensures
            match r {
                None => forall|i: int|
                    is_first(self@, i, |e: UserEntryView| e.username == username@)
                        ==> !password_ok(self@[i].password_hash, password@),
                Some(stub) => exists|i: int|
                    is_first(self@, i, |e: UserEntryView| e.username == username@)
                        && password_ok(self@[i].password_hash, password@) && stub.id@
                        == self@[i].id && stub.username@ == self@[i].username && opt_text(
                        stub.email,
                    ) == self@[i].email,
            },
    {
        let ghost f = |e: UserEntryView| e.username == username@;
        match self.index_with_username(username) {
            None => None,
            Some(i) => {
                assert(self@[i as int] == self.entries@[i as int]@);
                if self.entries[i].verify_password(password) {
                    Some(self.entries[i].stub())
                } else {
                    assert forall|k: int| is_first(self@, k, f) implies !password_ok(
                        self@[k].password_hash,
                        password@,
                    ) by {
                        lemma_first_unique(self@, i as int, k, f);
                    }
                    None
                }
            },
        }
    }

    /// Ends the session `sid` of the first user that has it.
    pub fn logout(&mut self, sid: &SessionId) -> (r: Option<UserStub>)
        ensures
            match r {
                None => final(self)@ == old(self)@ && forall|j: int|
                    0 <= j < old(self)@.len() ==> !(#[trigger] old(self)@[j]).sessions.contains(
                        sid@,
                    ),
                Some(stub) => exists|i: int, k: int|
                    is_first(old(self)@, i, |e: UserEntryView| e.sessions.contains(sid@)) && 0
                        <= k < old(self)@[i].sessions.len() && old(self)@[i].sessions[k] == sid@
                        && (forall|t: int| 0 <= t < k ==> old(self)@[i].sessions[t] != sid@)
                        && final(self)@ == old(self)@.update(
                        i,
                        UserEntryView { sessions: old(self)@[i].sessions.remove(k), ..old(self)@[i] },
                    ) && stub.id@ == old(self)@[i].id && stub.username@ == old(self)@[i].username
                        && opt_text(stub.email) == old(self)@[i].email,
            },
    {
        match self.index_with_session(sid) {
            None => None,
            Some(i) => {
                assert(self@[i as int] == self.entries@[i as int]@);
                let mut e = self.entries.remove(i);
                let ghost ev = e@;
                let removed = e.remove_session(sid);
                let ghost k = choose|k: int|
                    0 <= k < ev.sessions.len() && ev.sessions[k] == sid@ && (forall|t: int|
                        0 <= t < k ==> ev.sessions[t] != sid@) && e@.sessions == ev.sessions.remove(
                        k,
                    );
                let stub = e.stub();
                self.entries.insert(i, e);
                assert(self@ =~= old(self)@.update(
                    i as int,
                    UserEntryView { sessions: ev.sessions.remove(k), ..ev },
                ));
                Some(stub)
            },
        }
    }

    /// The first user with the session `sid`, with that session.
    pub fn session_by_id(&self, sid: SessionId) -> (r: Option<Session>)
        ensures
            match r {
                None => forall|j: int|
                    0 <= j < self@.len() ==> !(#[trigger] self@[j]).sessions.contains(sid@),
                Some(sess) => exists|i: int|
                    is_first(self@, i, |e: UserEntryView| e.sessions.contains(sid@))
                        && sess.stub.id@ == self@[i].id && sess.stub.username@
                        == self@[i].username && opt_text(sess.stub.email) == self@[i].email
                        && sess.sid@ == sid@,
            },
    {
        match self.index_with_session(&sid) {
            None => None,
            Some(i) => {
                assert(self@[i as int] == self.entries@[i as int]@);
                Some(Session { stub: self.entries[i].stub(), sid })
            },
        }
    }

    /// The first user with the session `sid`.
    pub fn stub_by_session(&self, sid: &SessionId) -> (r: Option<UserStub>)
        ensures
            match r {
                None => forall|j: int|
                    0 <= j < self@.len() ==> !(#[trigger] self@[j]).sessions.contains(sid@),
                Some(stub) => exists|i: int|
                    is_first(self@, i, |e: UserEntryView| e.sessions.contains(sid@)) && stub.id@
                        == self@[i].id && stub.username@ == self@[i].username && opt_text(
                        stub.email,
                    ) == self@[i].email,
            },
    {
        match self.index_with_session(sid) {
            None => None,
            Some(i) => {
                assert(self@[i as int] == self.entries@[i as int]@);
                Some(self.entries[i].stub())
            },
        }
    }

    /// The user with the id `uid`.
    pub fn stub_by_uid(&self, uid: &UserId) -> (r: Option<UserStub>)
        ensures
            match r {
                None => forall|j: int| 0 <= j < self@.len() ==> #[trigger] self@[j].id != uid@,
                Some(stub) => exists|i: int|
                    is_first(self@, i, |e: UserEntryView| e.id == uid@) && stub.id@ == uid@
                        && stub.username@ == self@[i].username && opt_text(stub.email)
                        == self@[i].email,
            },
    {
        match self.index_with_id(uid) {
            None => None,
            Some(i) => {
                assert(self@[i as int] == self.entries@[i as int]@);
                Some(self.entries[i].stub())
            },
        }
    }

    /// All users with the name `username`, in order.
    pub fn stub_by_username(&self, username: &str) -> (r: Vec<UserStub>)
        ensures
            stubs_view(r@) == stubs_named(self@, username@),
    {
        let mut out: Vec<UserStub> = Vec::new();
        let mut k: usize = 0;
        assert(self@.take(0) =~= Seq::<UserEntryView>::empty());
        assert(stubs_view(out@) =~= Seq::<StubView>::empty());
        while k < self.entries.len()
            invariant
                k <= self.entries@.len(),
                self@.len() == self.entries@.len(),
                stubs_view(out@) == stubs_named(self@.take(k as int), username@),
            decreases self.entries@.len() - k,
        {
            assert(self@[k as int] == self.entries@[k as int]@);
            assert(self@.take(k + 1).drop_last() =~= self@.take(k as int));
            let ghost before = stubs_view(out@);
            if same_text(self.entries[k].username.as_str(), username) {
                out.push(self.entries[k].stub());
                assert(stubs_view(out@) =~= before.push(stub_of(self@[k as int])));
            }
            k = k + 1;
        }
        assert(self@.take(k as int) =~= self@);
        out
    }

    /// The registry as text: each entry's line followed by a line feed.
    pub fn save_text(&self) -> (r: String)
        ensures
            r@ == registry_text(self@),
    {
        let mut text = String::new();
        let mut k: usize = 0;
        assert(self@.take(0) =~= Seq::<UserEntryView>::empty());
        while k < self.entries.len()
            invariant
                k <= self.entries@.len(),
                self@.len() == self.entries@.len(),
                text@ == registry_text(self@.take(k as int)),
            decreases self.entries@.len() - k,
        {
            assert(self@[k as int] == self.entries@[k as int]@);
            assert(self@.take(k + 1).drop_last() =~= self@.take(k as int));
            let line = self.entries[k].to_line();
            text.append(line.as_str());
            text.append("\n");
            k = k + 1;
        }
        assert(self@.take(k as int) =~= self@);
        text
    }

    /// Reads entries from text, one per line, and stores them in order.
    /// Nothing is stored when a line is not an entry.
    pub fn load_text(&mut self, text: &str) -> (r: Result<(), ()>)
        ensures
            match parsed_entries(text_lines(text@), seq![]) {
                Some(es) => r is Ok && final(self)@ == with_entries(old(self)@, es),
                None => r is Err && final(self)@ == old(self)@,
            },
    {
        let t = chars_of(text);
        let spans = split_on(&t, '\n');
        let ghost ps = pieces(t@, '\n');
        assert(spans_text(t@, spans@).len() == spans@.len());
        let ghost ls = text_lines(t@);
        let count = if spans.len() > 0 && spans[spans.len() - 1].0 == spans[spans.len() - 1].1 {
            spans.len() - 1
        } else {
            spans.len()
        };
        assert(ls.len() == count);
        let mut parsed: Vec<UserEntry> = Vec::new();
        let mut k: usize = 0;
        assert(ls.skip(0) =~= ls);
        assert(parsed@.map_values(|e: UserEntry| e@) =~= Seq::<UserEntryView>::empty());
        while k < count
            invariant
                k <= count <= spans@.len(),
                t@ == text@,
                ls == text_lines(t@),
                ls.len() == count,
                ps == pieces(t@, '\n'),
                spans_text(t@, spans@) == ps,
                spans_within(spans@, 0, t@.len() as int),
                forall|j: int| 0 <= j < count ==> ls[j] == line_text(#[trigger] ps[j]),
                parsed_entries(ls, seq![]) == parsed_entries(
                    ls.skip(k as int),
                    parsed@.map_values(|e: UserEntry| e@),
                ),
            decreases count - k,
        {
            let (a, b) = spans[k];
            let b2 = if b > a && t[b - 1] == '\r' {
                b - 1
            } else {
                b
            };
            assert(ls.skip(k as int)[0] == ls[k as int]);
            assert(ls[k as int] =~= t@.subrange(a as int, b2 as int));
            assert(ls.skip(k as int).drop_first() =~= ls.skip(k + 1));
            let line = substring(&t, a, b2);
            match UserEntry::from_line(line.as_str()) {
                Err(_) => {
                    return Err(());
                },
                Ok(e) => {
                    let ghost before = parsed@.map_values(|e: UserEntry| e@);
                    parsed.push(e);
                    assert(parsed@.map_values(|e: UserEntry| e@) =~= before.push(e@));
                },
            }
            k = k + 1;
        }
        assert(ls.skip(k as int) =~= Seq::<Seq<char>>::empty());
        let ghost es = parsed@.map_values(|e: UserEntry| e@);
        let mut j: usize = 0;
        assert(es.take(0) =~= Seq::<UserEntryView>::empty());
        while j < parsed.len()
            invariant
                j <= parsed@.len(),
                es == parsed@.map_values(|e: UserEntry| e@),
                self@ == with_entries(old(self)@, es.take(j as int)),
            decreases parsed@.len() - j,
        {
            assert(es.take(j + 1).drop_last() =~= es.take(j as int));
            let e = parsed[j].clone_entry();
            self.insert(e);
            j = j + 1;
        }
        assert(es.take(j as int) =~= es);
        Ok(())
    }
}

/// A stub as id, username and email.
pub type StubView = (Seq<char>, Seq<char>, Option<Seq<char>>);

pub open spec fn stub_of(e: UserEntryView) -> StubView {
    (e.id, e.username, e.email)
}

pub open spec fn stubs_view(v: Seq<UserStub>) -> Seq<StubView> {
    v.map_values(|u: UserStub| (u.id@, u.username@, opt_text(u.email)))
}

/// The stubs of the users named `name`, in order.
pub open spec fn stubs_named(es: Seq<UserEntryView>, name: Seq<char>) -> Seq<StubView>
    decreases es.len(),
{
    if es.len() == 0 {
        seq![]
    } else if es.last().username == name {
        stubs_named(es.drop_last(), name).push(stub_of(es.last()))
    } else {
        stubs_named(es.drop_last(), name)
    }
}

/// The text form of a registry: one line per entry, each ended by a line feed.
pub open spec fn registry_text(es: Seq<UserEntryView>) -> Seq<char>
    decreases es.len(),
{
    if es.len() == 0 {
        seq![]
    } else {
        registry_text(es.drop_last()) + entry_line(es.last()) + "\n"@
    }
}

/// A line without its line feed and without a trailing carriage return.
pub open spec fn line_text(p: Seq<char>) -> Seq<char> {
    if p.len() > 0 && p.last() == '\r' {
        p.drop_last()
    } else {
        p
    }
}

/// The lines of `s`, as `str::lines` yields them: no empty line after a
/// final line feed.
pub open spec fn text_lines(s: Seq<char>) -> Seq<Seq<char>> {
    let ps = pieces(s, '\n');
    let kept = if ps.len() > 0 && ps.last().len() == 0 {
        ps.drop_last()
    } else {
        ps
    };
    kept.map_values(|p: Seq<char>| line_text(p))
}

/// The entries that the lines `ls` hold, after `acc`; `None` when one is not an entry.
pub open spec fn parsed_entries(ls: Seq<Seq<char>>, acc: Seq<UserEntryView>) -> Option<
    Seq<UserEntryView>,
>
    decreases ls.len(),
{
    if ls.len() == 0 {
        Some(acc)
    } else {
        match entry_of(ls[0]) {
            None => None,
            Some(e) => parsed_entries(ls.drop_first(), acc.push(e)),
        }
    }
}

/// `es` with each of `new` stored in turn.
pub open spec fn with_entries(es: Seq<UserEntryView>, new: Seq<UserEntryView>) -> Seq<UserEntryView>
    decreases new.len(),
{
    if new.len() == 0 {
        es
    } else {
        with_entry(with_entries(es, new.drop_last()), new.last())
    }
}

impl UserEntry {
    /// A copy of the record.
    pub fn clone_entry(&self) -> (r: UserEntry)
        ensures
            r@ == self@,
    {
        let mut sessions: Vec<SessionId> = Vec::new();
        let mut k: usize = 0;
        while k < self.sessions.len()
            invariant
                k <= self.sessions@.len(),
                self@.sessions.len() == self.sessions@.len(),
                sessions@.map_values(|x: SessionId| x@) == self@.sessions.take(k as int),
            decreases self.sessions@.len() - k,
        {
            let ghost before = sessions@.map_values(|x: SessionId| x@);
            let c = self.sessions[k].copy();
            sessions.push(c);
            assert(self@.sessions[k as int] == self.sessions@[k as int]@);
            assert(sessions@.map_values(|x: SessionId| x@) =~= before.push(c@));
            assert(self@.sessions.take(k + 1) =~= self@.sessions.take(k as int).push(
                self@.sessions[k as int],
            ));
            k = k + 1;
        }
        assert(self@.sessions.take(k as int) =~= self@.sessions);
        let r = UserEntry {
            id: self.id.copy(),
            email: copy_opt(&self.email),
            username: self.username.clone(),
            password_hash: self.password_hash.clone(),
            sessions,
        };
        assert(r@.sessions =~= self@.sessions);
        r
    }
}

/// The id of the session that a `Cookie` header carries under `sid`, if any.
pub fn session_id_from_cookies(header: &str) -> (r: Option<SessionId>)
    ensures
        match r {
            Some(sid) => crate::cookie::cookie_pairs_of(pieces(header@, ';'), seq![]) matches Some(
                ps,
            ) && crate::cookie::cookie_lookup(ps, "sid"@) == Some(sid@),
            None => crate::cookie::cookie_pairs_of(pieces(header@, ';'), seq![]) is None || (
            crate::cookie::cookie_pairs_of(pieces(header@, ';'), seq![]) matches Some(ps)
                && crate::cookie::cookie_lookup(ps, "sid"@) is None),
        },
{
    match crate::cookie::parse_header(header) {
        Err(_) => None,
        Ok(pairs) => match crate::cookie::cookie_value(&pairs, "sid") {
            None => None,
            Some(v) => Some(SessionId(String::from_str(v))),
        },
    }
}

/// Whether a record can be written as one line and read back: no space in
/// its id, username, hash or session ids; an email that is absent, or
/// non-empty and without `>`; session ids that are non-empty and hold no comma.
pub open spec fn line_safe(e: UserEntryView) -> bool {
    !e.id.contains(' ') && !e.username.contains(' ') && !e.password_hash.contains(' ') && match e.email {
        Some(m) => m.len() > 0 && !m.contains('>'),
        None => true,
    } && forall|i: int|
        0 <= i < e.sessions.len() ==> #[trigger] e.sessions[i].len() > 0 && !e.sessions[i].contains(
            ' ',
        ) && !e.sessions[i].contains(',')
}

proof fn lemma_no_char_concat(x: Seq<char>, y: Seq<char>, c: char)
    requires
        !x.contains(c),
        !y.contains(c),
    ensures
        !(x + y).contains(c),
{
    if (x + y).contains(c) {
        let t = choose|t: int| 0 <= t < (x + y).len() && (x + y)[t] == c;
        if t < x.len() {
            assert(x[t] == c);
        } else {
            assert(y[t - x.len()] == c);
        }
    }
}

proof fn lemma_sessions_text(ss: Seq<Seq<char>>, z: Seq<char>)
    requires
        forall|i: int|
            0 <= i < ss.len() ==> !(#[trigger] ss[i]).contains(' ') && !ss[i].contains(','),
    ensures
        pieces(sessions_text(ss) + z, ',') == ss + pieces(z, ','),
        !sessions_text(ss).contains(' '),
    decreases ss.len(),
{
    reveal_strlit(",");
    if ss.len() == 0 {
        assert(sessions_text(ss) + z =~= z);
        assert(ss + pieces(z, ',') =~= pieces(z, ','));
    } else {
        let rest = ss.drop_first();
        assert forall|i: int| 0 <= i < rest.len() implies !(#[trigger] rest[i]).contains(' ')
            && !rest[i].contains(',') by {
            assert(rest[i] == ss[i + 1]);
        }
        lemma_sessions_text(rest, z);
        assert(sessions_text(ss) + z =~= ss[0] + seq![','] + (sessions_text(rest) + z));
        lemma_pieces_join(ss[0], sessions_text(rest) + z, ',');
        lemma_pieces_single(ss[0], ',');
        assert(ss + pieces(z, ',') =~= seq![ss[0]] + (rest + pieces(z, ',')));
        assert(!seq![','].contains(' ')) by {
            if seq![','].contains(' ') {
                assert(seq![','][0] == ' ');
            }
        }
        lemma_no_char_concat(ss[0], seq![','], ' ');
        lemma_no_char_concat(ss[0] + seq![','], sessions_text(rest), ' ');
        assert(sessions_text(ss) =~= ss[0] + seq![','] + sessions_text(rest));
    }
}

proof fn lemma_non_empty_all(ss: Seq<Seq<char>>)
    requires
        forall|i: int| 0 <= i < ss.len() ==> (#[trigger] ss[i]).len() > 0,
    ensures
        non_empty(ss) == ss,
    decreases ss.len(),
{
    if ss.len() > 0 {
        lemma_non_empty_all(ss.drop_last());
        assert(ss.drop_last().push(ss.last()) =~= ss);
    }
}

/// The part of a record's line after the `> ` that closes the email.
pub open spec fn line_fields(e: UserEntryView) -> Seq<char> {
    e.username + seq![' '] + (e.password_hash + seq![' '] + ("sessions="@ + sessions_text(
        e.sessions,
    )))
}

pub open spec fn email_text(e: UserEntryView) -> Seq<char> {
    match e.email {
        Some(m) => m,
        None => seq![],
    }
}

proof fn lemma_line_shape(e: UserEntryView)
    ensures
        entry_line(e) == e.id + (seq![' '] + (seq!['<'] + (email_text(e) + seq!['>', ' ']
            + line_fields(e)))),
{
    reveal_strlit(" <");
    reveal_strlit("> ");
    reveal_strlit(" ");
    reveal_strlit(" sessions=");
    reveal_strlit("sessions=");
    assert(entry_line(e) =~= e.id + (seq![' '] + (seq!['<'] + (email_text(e) + seq!['>', ' ']
        + line_fields(e)))));
}

proof fn lemma_line_email(m: Seq<char>, rest: Seq<char>)
    requires
        !m.contains('>'),
    ensures
        char_pos(m + seq!['>', ' '] + rest, '>') == m.len(),
        (m + seq!['>', ' '] + rest).take(m.len() as int) == m,
        (m + seq!['>', ' '] + rest).skip(m.len() + 2 as int) == rest,
{
    lemma_char_pos_absent(m, seq!['>', ' '] + rest, '>');
    assert(m + seq!['>', ' '] + rest =~= m + (seq!['>', ' '] + rest));
    assert((m + seq!['>', ' '] + rest).take(m.len() as int) =~= m);
    assert((m + seq!['>', ' '] + rest).skip(m.len() + 2 as int) =~= rest);
}

proof fn lemma_line_fields(e: UserEntryView)
    requires
        line_safe(e),
    ensures
        pieces(line_fields(e), ' ') == seq![
            e.username,
            e.password_hash,
            "sessions="@ + sessions_text(e.sessions),
        ],
{
    reveal_strlit("sessions=");
    let tail = "sessions="@ + sessions_text(e.sessions);
    assert forall|i: int| 0 <= i < e.sessions.len() implies !(#[trigger] e.sessions[i]).contains(' ')
        && !e.sessions[i].contains(',') by {}
    lemma_sessions_text(e.sessions, seq![]);
    assert(!"sessions="@.contains(' ')) by {
        if "sessions="@.contains(' ') {
            let t = choose|t: int| 0 <= t < 9 && "sessions="@[t] == ' ';
        }
    }
    lemma_no_char_concat("sessions="@, sessions_text(e.sessions), ' ');
    lemma_pieces_join(e.username, e.password_hash + seq![' '] + tail, ' ');
    lemma_pieces_join(e.password_hash, tail, ' ');
    lemma_pieces_single(e.username, ' ');
    lemma_pieces_single(e.password_hash, ' ');
    lemma_pieces_single(tail, ' ');
    assert(pieces(line_fields(e), ' ') =~= seq![e.username, e.password_hash, tail]);
}

proof fn lemma_line_sessions(e: UserEntryView)
    requires
        line_safe(e),
    ensures
        ("sessions="@ + sessions_text(e.sessions)).take(9) == "sessions="@,
        non_empty(pieces(("sessions="@ + sessions_text(e.sessions)).skip(9), ',')) == e.sessions,
{
    reveal_strlit("sessions=");
    let st = sessions_text(e.sessions);
    assert(("sessions="@ + st).take(9) =~= "sessions="@);
    assert(("sessions="@ + st).skip(9) =~= st);
    assert forall|i: int| 0 <= i < e.sessions.len() implies !(#[trigger] e.sessions[i]).contains(' ')
        && !e.sessions[i].contains(',') by {}
    lemma_sessions_text(e.sessions, seq![]);
    assert(st + seq![] =~= st);
    assert(pieces(Seq::<char>::empty(), ',') == seq![Seq::<char>::empty()]);
    let qs = pieces(st, ',');
    assert(qs =~= e.sessions.push(Seq::<char>::empty()));
    assert(qs.drop_last() =~= e.sessions);
    lemma_non_empty_all(e.sessions);
}

/// How `entry_of` reads a line, given where its separators fall.
proof fn lemma_entry_of_parts(s: Seq<char>, id: Seq<char>, r1: Seq<char>, em: Seq<char>, ps: Seq<Seq<char>>)
    requires
        char_pos(s, ' ') == id.len() < s.len(),
        s.take(id.len() as int) == id,
        s.skip(id.len() + 1 as int) == seq!['<'] + r1,
        char_pos(r1, '>') == em.len(),
        em.len() + 2 <= r1.len(),
        r1.take(em.len() as int) == em,
        pieces(r1.skip(em.len() + 2 as int), ' ') == ps,
        ps.len() == 3,
        ps[2].len() >= 9,
        ps[2].take(9) == "sessions="@,
    ensures
        entry_of(s) == Some(
            UserEntryView {
                id,
                email: if em.len() == 0 {
                    None
                } else {
                    Some(em)
                },
                username: ps[0],
                password_hash: ps[1],
                sessions: non_empty(pieces(ps[2].skip(9), ',')),
            },
        ),
{
    assert((seq!['<'] + r1)[0] == '<');
    assert((seq!['<'] + r1).skip(1) =~= r1);
}

/// A record that is line-safe reads back from its line unchanged.
pub proof fn lemma_entry_line_round_trip(e: UserEntryView)
    requires
        line_safe(e),
    ensures
        entry_of(entry_line(e)) == Some(e),
{
    let s = entry_line(e);
    let em = email_text(e);
    let r1 = em + seq!['>', ' '] + line_fields(e);
    assert(s.take(e.id.len() as int) == e.id && s.skip(e.id.len() + 1 as int) == seq!['<'] + r1
        && char_pos(s, ' ') == e.id.len() && e.id.len() < s.len()) by {
        lemma_line_shape(e);
        lemma_char_pos_absent(e.id, seq![' '] + (seq!['<'] + r1), ' ');
        assert(s.take(e.id.len() as int) =~= e.id);
        assert(s.skip(e.id.len() + 1 as int) =~= seq!['<'] + r1);
    }
    assert(!em.contains('>'));
    lemma_line_email(em, line_fields(e));
    lemma_line_fields(e);
    lemma_line_sessions(e);
    reveal_strlit("sessions=");
    let ps = pieces(line_fields(e), ' ');
    lemma_entry_of_parts(s, e.id, r1, em, ps);
    let email = if em.len() == 0 {
        None
    } else {
        Some(em)
    };
    assert(email == e.email);
}

} // verus!
