//! The password of the dashboard: sessions, cookies, logging in and out.

use crate::numerals;
use crate::numerals::{hex_chars, same_ignoring_case};
use crate::random::{random_bytes, NoRandom};
use crate::storage;
use crate::text;
use crate::text::{chars_of, push_all, split_on, stands_at, string_of, trim};
use vstd::hash_set::StringHashSet;
use vstd::prelude::*;
use vstd::slice::slice_subrange;
use vstd::string::*;
use vstd::utf8::*;

verus! {

/// How many random bytes make a session token.
pub const TOKEN_BYTES: usize = 32;

/// How long the answer to a wrong password is held back.
pub const WRONG_PASSWORD_DELAY_MS: u64 = 500;

/// The settings of the login.
pub struct AuthConfig {
    pub password: Option<String>,
    pub cookie_secure: bool,
}

/// What the settings of the login hold.
pub struct AuthModel {
    pub password: Option<Seq<char>>,
    pub cookie_secure: bool,
}

impl View for AuthConfig {
    type V = AuthModel;

    open spec fn view(&self) -> AuthModel {
        AuthModel {
            password: storage::text_of(self.password),
            cookie_secure: self.cookie_secure,
        }
    }
}

/// The settings made of two environment variables: an empty password is none,
/// and the secure flag is set by `1` or `true`.
pub open spec fn settings(password: Option<Seq<char>>, secure: Option<Seq<char>>) -> AuthModel {
    AuthModel {
        password: match password {
            Some(p) => if p.len() > 0 {
                Some(p)
            } else {
                None
            },
            None => None,
        },
        cookie_secure: match secure {
            Some(v) => v == "1"@ || numerals::lowered(v) == numerals::lowered("true"@),
            None => false,
        },
    }
}

impl AuthConfig {
    /// Reads the settings from the values of the environment variables.
    pub fn from_settings(password: Option<String>, secure: Option<String>) -> (res: Self)
        ensures
            res@ == settings(storage::text_of(password), storage::text_of(secure)),
    {
        let kept = match password {
            Some(p) => if p.as_str().is_empty() {
                None
            } else {
                Some(p)
            },
            None => None,
        };
        let cookie_secure = match secure {
            Some(v) => {
                let chars = chars_of(v.as_str());
                v == "1".to_string() || same_ignoring_case(&chars, &chars_of("true"))
            },
            None => false,
        };
        AuthConfig { password: kept, cookie_secure }
    }

    /// Whether a password is required.
    pub fn enabled(&self) -> (res: bool)
        ensures
            res == (self@.password is Some),
    {
        self.password.is_some()
    }
}

/// Compares two byte strings in a time that depends on their lengths alone.
pub fn ct_eq(a: &[u8], b: &[u8]) -> (res: bool)
    ensures
        res == (a@ == b@),
{
    if a.len() != b.len() {
        return false;
    }
    let mut diff: u8 = 0;
    let mut i: usize = 0;
    assert(a@.take(0) =~= b@.take(0));
    while i < a.len()
        invariant
            i <= a@.len(),
            a@.len() == b@.len(),
            diff == 0 <==> a@.take(i as int) == b@.take(i as int),
        decreases a@.len() - i,
    {
        let x = a[i];
        let y = b[i];
        let before = diff;
        diff = before | (x ^ y);
        proof {
            assert((before | (x ^ y)) == 0 <==> before == 0 && x == y) by (bit_vector);
            let a1 = a@.take(i + 1);
            let b1 = b@.take(i + 1);
            assert(a1 =~= a@.take(i as int).push(x));
            assert(b1 =~= b@.take(i as int).push(y));
            if a1 == b1 {
                assert(a@.take(i as int) =~= a1.take(i as int));
                assert(b@.take(i as int) =~= b1.take(i as int));
                assert(a1[i as int] == b1[i as int]);
            }
        }
        i = i + 1;
    }
    assert(a@.take(i as int) =~= a@);
    assert(b@.take(i as int) =~= b@);
    diff == 0
}

/// The name of the session cookie.
pub open spec fn session_cookie() -> Seq<char> {
    "lansight_session"@
}

/// A session token made of random bytes.
pub fn token_of(bytes: &[u8]) -> (res: String)
    ensures
        res@ == numerals::hex_text(bytes@),
{
    string_of(&hex_chars(bytes))
}

/// Whether `token` is one that random bytes can make.
pub open spec fn is_token(token: Seq<char>) -> bool {
    exists|bytes: Seq<u8>|
        bytes.len() == TOKEN_BYTES && token == #[trigger] numerals::hex_text(bytes)
}

/// Makes a session token of the random bytes that were drawn, if any were.
pub fn token_from(drawn: Result<Vec<u8>, NoRandom>) -> (res: Result<String, NoRandom>)
    ensures
        match drawn {
            Ok(bytes) => res matches Ok(token) && token@ == numerals::hex_text(bytes@),
            Err(e) => res == Err::<String, NoRandom>(e),
        },
{
    match drawn {
        Ok(bytes) => Ok(token_of(&bytes)),
        Err(e) => Err(e),
    }
}

/// Draws a session token. It has nothing to do with the password.
pub fn new_token() -> (res: Result<String, NoRandom>)
    ensures
        res matches Ok(token) ==> is_token(token@),
{
    token_from(random_bytes(TOKEN_BYTES))
}

/// The value in one part of a cookie header, if it is of the cookie `name`.
pub open spec fn value_in_part(part: Seq<char>, name: Seq<char>) -> Option<Seq<char>> {
    let p = text::trimmed(part);
    if text::begins_with(p, name + seq!['=']) {
        Some(p.skip(name.len() as int + 1))
    } else {
        None
    }
}

/// The value of the first of the parts from `i` on that is of the cookie.
pub open spec fn value_from(parts: Seq<Seq<char>>, name: Seq<char>, i: int) -> Option<Seq<char>>
    decreases parts.len() - i,
{
    if i >= parts.len() {
        None
    } else {
        match value_in_part(parts[i], name) {
            Some(value) => Some(value),
            None => value_from(parts, name, i + 1),
        }
    }
}

/// The value of the cookie `name` in a cookie header.
pub open spec fn cookie_in(raw: Seq<char>, name: Seq<char>) -> Option<Seq<char>> {
    value_from(text::pieces(raw, ';'), name, 0)
}

/// The value of the cookie `name`, if there is a header.
pub open spec fn cookie_of(raw: Option<Seq<char>>, name: Seq<char>) -> Option<Seq<char>> {
    match raw {
        Some(r) => cookie_in(r, name),
        None => None,
    }
}

/// Finds the value of the cookie `name` in the text of a cookie header.
pub fn cookie_value(raw: Option<&str>, name: &str) -> (res: Option<String>)
    ensures
        match res {
            Some(value) => cookie_of(text::held(raw), name@) == Some(value@),
            None => cookie_of(text::held(raw), name@) is None,
        },
{
    match raw {
        Some(r) => {
            let chars = chars_of(r);
            let parts = split_on(&chars, ';');
            let ghost views = text::views(parts@);
            let mut wanted = chars_of(name);
            let ghost bare = wanted@;
            wanted.push('=');
            assert(wanted@ =~= bare + seq!['=']);
            let mut i: usize = 0;
            while i < parts.len()
                invariant
                    i <= parts@.len(),
                    wanted@ == name@ + seq!['='],
                    views == text::views(parts@),
                    raw == Some(r),
                    views == text::pieces(r@, ';'),
                    value_from(views, name@, i as int) == value_from(views, name@, 0),
                decreases parts@.len() - i,
            {
                assert(views[i as int] == parts@[i as int]@);
                let part = trim(parts[i]);
                if stands_at(part, &wanted, 0) {
                    let value = slice_subrange(part, wanted.len(), part.len());
                    assert(value@ =~= part@.skip(name@.len() as int + 1));
                    return Some(string_of(value));
                }
                i = i + 1;
            }
            None
        },
        None => None,
    }
}

/// What ends a cookie header: the flag that restricts it to secure channels.
pub open spec fn secure_flag(secure: bool) -> Seq<char> {
    if secure {
        "; Secure"@
    } else {
        Seq::<char>::empty()
    }
}

/// The header that hands out a session: for thirty days, and out of reach of
/// scripts.
pub open spec fn session_header(token: Seq<char>, secure: bool) -> Seq<char> {
    session_cookie() + "="@ + token + "; HttpOnly; SameSite=Lax; Path=/; Max-Age=2592000"@
        + secure_flag(secure)
}

/// The header that takes a session back.
pub open spec fn clearing_header(secure: bool) -> Seq<char> {
    session_cookie() + "=; HttpOnly; SameSite=Lax; Path=/; Max-Age=0"@ + secure_flag(secure)
}

/// Writes the header that hands out a session.
pub fn set_cookie_header(token: &str, secure: bool) -> (res: String)
    ensures
        res@ == session_header(token@, secure),
{
    let mut out = chars_of("lansight_session");
    push_all(&mut out, &chars_of("="));
    push_all(&mut out, &chars_of(token));
    push_all(&mut out, &chars_of("; HttpOnly; SameSite=Lax; Path=/; Max-Age=2592000"));
    if secure {
        push_all(&mut out, &chars_of("; Secure"));
    }
    assert(out@ =~= session_header(token@, secure));
    string_of(&out)
}

/// Writes the header that takes a session back.
pub fn clear_cookie_header(secure: bool) -> (res: String)
    ensures
        res@ == clearing_header(secure),
{
    let mut out = chars_of("lansight_session");
    push_all(&mut out, &chars_of("=; HttpOnly; SameSite=Lax; Path=/; Max-Age=0"));
    if secure {
        push_all(&mut out, &chars_of("; Secure"));
    }
    assert(out@ =~= clearing_header(secure));
    string_of(&out)
}

/// The sessions that are open.
pub struct Sessions {
    tokens: StringHashSet,
}

impl View for Sessions {
    type V = Set<Seq<char>>;

    closed spec fn view(&self) -> Set<Seq<char>> {
        self.tokens@
    }
}

/// Whether a request with this cookie header belongs to an open session.
pub open spec fn admitted(sessions: Set<Seq<char>>, raw: Option<Seq<char>>) -> bool {
    match cookie_of(raw, session_cookie()) {
        Some(token) => sessions.contains(token),
        None => false,
    }
}

impl Sessions {
    /// No sessions.
    pub fn new() -> (res: Self)
        ensures
            res@ == Set::<Seq<char>>::empty(),
    {
        Sessions { tokens: StringHashSet::new() }
    }

    /// Opens the session of `token`.
    pub fn open(&mut self, token: String)
        ensures
            final(self)@ == old(self)@.insert(token@),
    {
        self.tokens.insert(token);
    }

    /// Closes the session of `token`.
    pub fn close(&mut self, token: &str)
        ensures
            final(self)@ == old(self)@.remove(token@),
    {
        self.tokens.remove(token);
    }

    /// Whether a request with this cookie header belongs to an open session.
    pub fn admits(&self, raw: Option<&str>) -> (res: bool)
        ensures
            res == admitted(self@, text::held(raw)),
    {
        match cookie_value(raw, "lansight_session") {
            Some(token) => self.tokens.contains(token.as_str()),
            None => false,
        }
    }
}

/// What becomes of a request.
#[derive(Clone, Copy, Debug, PartialEq, Eq, Structural)]
pub enum Access {
    /// It goes through.
    Pass,
    /// It is answered that it is not authorized.
    Unauthorized,
    /// It is sent to the login page.
    ToLogin,
}

/// What becomes of a request for `path`.
pub open spec fn access(
    auth: AuthModel,
    sessions: Set<Seq<char>>,
    raw: Option<Seq<char>>,
    path: Seq<char>,
) -> Access {
    if auth.password is None || admitted(sessions, raw) {
        Access::Pass
    } else if text::begins_with(path, "/api"@) {
        Access::Unauthorized
    } else {
        Access::ToLogin
    }
}

/// Decides what becomes of a request for a protected page.
pub fn require_auth(
    auth: &AuthConfig,
    sessions: &Sessions,
    raw: Option<&str>,
    path: &str,
) -> (res: Access)
    ensures
        res == access(auth@, sessions@, text::held(raw), path@),
{
    if !auth.enabled() || sessions.admits(raw) {
        Access::Pass
    } else if stands_at(&chars_of(path), &chars_of("/api"), 0) {
        Access::Unauthorized
    } else {
        Access::ToLogin
    }
}

/// Whether the login page has a form to show: there is a password to ask for,
/// and it has not been given yet.
pub open spec fn asks_password(
    auth: AuthModel,
    sessions: Set<Seq<char>>,
    raw: Option<Seq<char>>,
) -> bool {
    auth.password is Some && !admitted(sessions, raw)
}

/// Decides whether the login page shows its form; otherwise the request is
/// sent on to the dashboard.
pub fn login_page(auth: &AuthConfig, sessions: &Sessions, raw: Option<&str>) -> (form: bool)
    ensures
        form == asks_password(auth@, sessions@, text::held(raw)),
{
    auth.enabled() && !sessions.admits(raw)
}

/// An answer that sends the browser on.
#[derive(Clone, Debug)]
pub struct Reply {
    /// Where to.
    pub location: String,
    /// The cookie header that goes with it.
    pub set_cookie: Option<String>,
    /// How long the answer is held back.
    pub delay_ms: u64,
}

/// What an answer holds.
pub struct ReplyModel {
    pub location: Seq<char>,
    pub set_cookie: Option<Seq<char>>,
    pub delay_ms: u64,
}

impl View for Reply {
    type V = ReplyModel;

    open spec fn view(&self) -> ReplyModel {
        ReplyModel {
            location: self.location@,
            set_cookie: storage::text_of(self.set_cookie),
            delay_ms: self.delay_ms,
        }
    }
}

/// Whether a password is the right one.
pub open spec fn right_password(auth: AuthModel, password: Seq<char>) -> bool {
    auth.password == Some(password)
}

/// The sessions after an attempt to log in, `token` being the one handed out.
pub open spec fn after_login(
    auth: AuthModel,
    sessions: Set<Seq<char>>,
    password: Seq<char>,
    token: Seq<char>,
) -> Set<Seq<char>> {
    if right_password(auth, password) {
        sessions.insert(token)
    } else {
        sessions
    }
}

/// The answer to an attempt to log in: to the dashboard, with a cookie where
/// the password is right, and without where none is required; otherwise back
/// to the login page, after a while.
pub open spec fn login_reply(auth: AuthModel, password: Seq<char>, token: Seq<char>) -> ReplyModel {
    if auth.password is None {
        ReplyModel { location: "/"@, set_cookie: None, delay_ms: 0 }
    } else if right_password(auth, password) {
        ReplyModel {
            location: "/"@,
            set_cookie: Some(session_header(token, auth.cookie_secure)),
            delay_ms: 0,
        }
    } else {
        ReplyModel {
            location: "/login?e=1"@,
            set_cookie: None,
            delay_ms: WRONG_PASSWORD_DELAY_MS,
        }
    }
}

fn is_right(auth: &AuthConfig, password: &str) -> (res: bool)
    ensures
        res == right_password(auth@, password@),
{
    match &auth.password {
        Some(expected) => {
            proof {
                encode_utf8_decode_utf8(password@);
                encode_utf8_decode_utf8(expected@);
            }
            ct_eq(password.as_bytes(), expected.as_str().as_bytes())
        },
        None => false,
    }
}

/// Answers an attempt to log in, `token` being the one to hand out.
pub fn login_with_token(
    auth: &AuthConfig,
    sessions: &mut Sessions,
    password: &str,
    token: String,
) -> (res: Reply)
    ensures
        res@ == login_reply(auth@, password@, token@),
        final(sessions)@ == after_login(auth@, old(sessions)@, password@, token@),
{
    if !auth.enabled() {
        return Reply { location: "/".to_string(), set_cookie: None, delay_ms: 0 };
    }
    if is_right(auth, password) {
        let cookie = set_cookie_header(token.as_str(), auth.cookie_secure);
        sessions.open(token);
        Reply { location: "/".to_string(), set_cookie: Some(cookie), delay_ms: 0 }
    } else {
        Reply {
            location: "/login?e=1".to_string(),
            set_cookie: None,
            delay_ms: WRONG_PASSWORD_DELAY_MS,
        }
    }
}

/// Answers an attempt to log in. A token is drawn only for the right password.
pub fn login_submit(auth: &AuthConfig, sessions: &mut Sessions, password: &str) -> (res: Result<
    Reply,
    NoRandom,
>)
    ensures
        if right_password(auth@, password@) {
            match res {
                Ok(reply) => exists|token: Seq<char>|
                    {
                        &&& #[trigger] is_token(token)
                        &&& reply@ == login_reply(auth@, password@, token)
                        &&& final(sessions)@ == old(sessions)@.insert(token)
                    },
                Err(_) => final(sessions)@ == old(sessions)@,
            }
        } else {
            &&& res matches Ok(reply) && reply@ == login_reply(auth@, password@, Seq::empty())
            &&& final(sessions)@ == old(sessions)@
        },
{
    if is_right(auth, password) {
        match new_token() {
            Ok(token) => {
                let ghost t = token@;
                let reply = login_with_token(auth, sessions, password, token);
                assert(is_token(t));
                Ok(reply)
            },
            Err(e) => Err(e),
        }
    } else {
        Ok(login_with_token(auth, sessions, password, String::new()))
    }
}

/// The sessions after a request to log out.
pub open spec fn after_logout(sessions: Set<Seq<char>>, raw: Option<Seq<char>>) -> Set<Seq<char>> {
    match cookie_of(raw, session_cookie()) {
        Some(token) => sessions.remove(token),
        None => sessions,
    }
}

/// Answers a request to log out: the session is closed, the cookie taken back.
pub fn logout(auth: &AuthConfig, sessions: &mut Sessions, raw: Option<&str>) -> (res: Reply)
    ensures
        res@ == (ReplyModel {
            location: "/login"@,
            set_cookie: Some(clearing_header(auth@.cookie_secure)),
            delay_ms: 0,
        }),
        final(sessions)@ == after_logout(old(sessions)@, text::held(raw)),
{
    match cookie_value(raw, "lansight_session") {
        Some(token) => sessions.close(token.as_str()),
        None => {},
    }
    Reply {
        location: "/login".to_string(),
        set_cookie: Some(clear_cookie_header(auth.cookie_secure)),
        delay_ms: 0,
    }
}

/// Whether a text has no white space at its ends.
proof fn lemma_trimmed_as_it_is(s: Seq<char>)
    requires
        s.len() > 0,
        !text::is_space(s[0]),
        !text::is_space(s.last()),
    ensures
        text::trimmed(s) == s,
{
}

/// Whether a token comes back from a cookie as it was handed out: it holds no
/// semicolon and does not end in white space.
pub open spec fn is_plain(token: Seq<char>) -> bool {
    &&& forall|i: int| 0 <= i < token.len() ==> #[trigger] token[i] != ';'
    &&& token.len() > 0 ==> !text::is_space(token.last())
}

/// Every token that is drawn is plain.
pub proof fn law_tokens_are_plain(token: Seq<char>)
    requires
        is_token(token),
    ensures
        is_plain(token),
        token.len() == 64,
{
    let bytes = choose|bytes: Seq<u8>|
        bytes.len() == TOKEN_BYTES && token == #[trigger] numerals::hex_text(bytes);
    numerals::lemma_hex_text(bytes);
}

/// The cookie header that a browser sends for a token.
pub open spec fn browser_cookie(token: Seq<char>) -> Seq<char> {
    session_cookie() + seq!['='] + token
}

/// The token in the cookie that a browser sends is the one that it was given.
pub proof fn law_cookie_reads_back(token: Seq<char>)
    requires
        is_plain(token),
    ensures
        cookie_in(browser_cookie(token), session_cookie()) == Some(token),
{
    reveal_strlit("lansight_session");
    let raw = browser_cookie(token);
    let head = session_cookie() + seq!['='];
    assert(head.len() == 17);
    assert forall|i: int| 0 <= i < raw.len() implies #[trigger] raw[i] != ';' by {
        if i >= 17 {
            assert(raw[i] == token[i - 17]);
        }
    }
    text::lemma_one_piece(raw, ';');
    assert(raw[0] == 'l');
    if token.len() > 0 {
        assert(raw.last() == token.last());
    } else {
        assert(raw.last() == '=');
    }
    lemma_trimmed_as_it_is(raw);
    assert(raw.subrange(0, 17) =~= head);
    assert(raw.skip(17) =~= token);
    assert(text::pieces(raw, ';')[0] == raw);
}

/// Who logs in with the right password is let through everywhere with the
/// cookie that was handed out, until logging out with it.
pub proof fn law_session_lasts_until_logout(
    auth: AuthModel,
    sessions: Set<Seq<char>>,
    password: Seq<char>,
    token: Seq<char>,
    path: Seq<char>,
)
    requires
        right_password(auth, password),
        is_plain(token),
    ensures
        ({
            let opened = after_login(auth, sessions, password, token);
            let cookie = Some(browser_cookie(token));
            let closed = after_logout(opened, cookie);
            &&& access(auth, opened, cookie, path) is Pass
            &&& !asks_password(auth, opened, cookie)
            &&& !(access(auth, closed, cookie, path) is Pass)
            &&& asks_password(auth, closed, cookie)
        }),
{
    law_cookie_reads_back(token);
}

/// A wrong password opens no session.
pub proof fn law_wrong_password_opens_nothing(
    auth: AuthModel,
    sessions: Set<Seq<char>>,
    password: Seq<char>,
    token: Seq<char>,
)
    requires
        auth.password is Some,
        !right_password(auth, password),
    ensures
        after_login(auth, sessions, password, token) == sessions,
        login_reply(auth, password, token).set_cookie is None,
        login_reply(auth, password, token).delay_ms > 0,
{
}

/// Without a password every request goes through, and an empty password is no
/// password.
pub proof fn law_no_password_no_login(
    secure: Option<Seq<char>>,
    sessions: Set<Seq<char>>,
    raw: Option<Seq<char>>,
    path: Seq<char>,
)
    ensures
        access(settings(None, secure), sessions, raw, path) is Pass,
        access(settings(Some(Seq::empty()), secure), sessions, raw, path) is Pass,
{
}

/// With a password nobody is let through while no session is open, as after a
/// restart; programs are told so, browsers are sent to the login page.
pub proof fn law_no_session_no_entry(auth: AuthModel, raw: Option<Seq<char>>, path: Seq<char>)
    requires
        auth.password is Some,
    ensures
        access(auth, Set::empty(), raw, path) == (if text::begins_with(path, "/api"@) {
            Access::Unauthorized
        } else {
            Access::ToLogin
        }),
{
}

/// Logging out closes one session and leaves the others open.
pub proof fn law_logout_closes_one(sessions: Set<Seq<char>>, token: Seq<char>, other: Seq<char>)
    requires
        is_plain(token),
        token != other,
    ensures
        after_logout(sessions, Some(browser_cookie(token))).contains(other) == sessions.contains(
            other,
        ),
{
    law_cookie_reads_back(token);
}

/// The settings: a password that has characters is asked for as it is, and the
/// cookie is kept to secure channels by `1`, and by `true` in whatever case.
pub proof fn law_settings(password: Seq<char>, secure: Seq<char>)
    ensures
        password.len() > 0 ==> settings(Some(password), Some(secure)).password == Some(password),
        settings(Some(password), Some(secure)).cookie_secure <==> secure == seq!['1']
            || numerals::lowered(secure) == seq!['t', 'r', 'u', 'e'],
        !settings(Some(password), None).cookie_secure,
        settings(None, Some(secure)).password is None,
{
    reveal_strlit("1");
    reveal_strlit("true");
    assert("1"@ =~= seq!['1']);
    assert(numerals::lowered("true"@) =~= seq!['t', 'r', 'u', 'e']);
}

proof fn lemma_value_from(a: Seq<Seq<char>>, b: Seq<Seq<char>>, name: Seq<char>, i: int)
    requires
        0 <= i <= a.len(),
    ensures
        value_from(a + b, name, i) == (match value_from(a, name, i) {
            Some(value) => Some(value),
            None => value_from(b, name, 0),
        }),
    decreases a.len() - i,
{
    if i < a.len() {
        lemma_value_from(a, b, name, i + 1);
        assert((a + b)[i] == a[i]);
    } else {
        lemma_value_behind(a, b, name, 0);
    }
}

proof fn lemma_value_behind(a: Seq<Seq<char>>, b: Seq<Seq<char>>, name: Seq<char>, i: int)
    requires
        0 <= i <= b.len(),
    ensures
        value_from(a + b, name, a.len() + i) == value_from(b, name, i),
    decreases b.len() - i,
{
    if i < b.len() {
        lemma_value_behind(a, b, name, i + 1);
        assert((a + b)[a.len() + i] == b[i]);
    }
}

/// Of several cookies in a header, with semicolons between them, the first of
/// the name counts.
pub proof fn law_first_cookie_counts(a: Seq<char>, b: Seq<char>, name: Seq<char>)
    ensures
        cookie_in(a + seq![';'] + b, name) == (match cookie_in(a, name) {
            Some(value) => Some(value),
            None => cookie_in(b, name),
        }),
{
    text::lemma_pieces_across(a, b, ';');
    lemma_value_from(text::pieces(a, ';'), text::pieces(b, ';'), name, 0);
}

/// One cookie, with white space around it or not, has the value behind its name
/// and an equals sign; under another name it has none.
pub proof fn law_one_cookie(
    before: Seq<char>,
    name: Seq<char>,
    value: Seq<char>,
    after: Seq<char>,
    other: Seq<char>,
)
    requires
        forall|k: int|
            0 <= k < before.len() ==> text::is_space(#[trigger] before[k]) && before[k] != ';',
        forall|k: int|
            0 <= k < after.len() ==> text::is_space(#[trigger] after[k]) && after[k] != ';',
        name.len() > 0,
        !text::is_space(name[0]),
        forall|k: int| 0 <= k < name.len() ==> #[trigger] name[k] != ';' && name[k] != '=',
        forall|k: int| 0 <= k < value.len() ==> #[trigger] value[k] != ';',
        value.len() > 0 ==> !text::is_space(value[value.len() - 1]),
        forall|k: int| 0 <= k < other.len() ==> #[trigger] other[k] != '=',
    ensures
        cookie_in(before + (name + seq!['='] + value) + after, name) == Some(value),
        other != name ==> cookie_in(before + (name + seq!['='] + value) + after, other) is None,
{
    let pair = name + seq!['='] + value;
    let raw = before + pair + after;
    assert forall|i: int| 0 <= i < raw.len() implies #[trigger] raw[i] != ';' by {
        if i < before.len() {
            assert(raw[i] == before[i]);
        } else if i < before.len() + pair.len() {
            let k = i - before.len();
            assert(raw[i] == pair[k]);
            if k < name.len() {
                assert(pair[k] == name[k]);
            } else if k > name.len() {
                assert(pair[k] == value[k - name.len() - 1]);
            }
        } else {
            assert(raw[i] == after[i - before.len() - pair.len()]);
        }
    }
    text::lemma_one_piece(raw, ';');
    assert(pair[0] == name[0]);
    if value.len() > 0 {
        assert(pair[pair.len() - 1] == value[value.len() - 1]);
    } else {
        assert(pair[pair.len() - 1] == '=');
    }
    text::law_trim_around(before, pair, after);
    let n = name.len() as int;
    assert(pair.subrange(0, n + 1) =~= name + seq!['=']);
    assert(pair.skip(n + 1) =~= value);
    assert(text::pieces(raw, ';')[0] == raw);
    assert(text::pieces(raw, ';').len() == 1);
    reveal_with_fuel(value_from, 2);
    let wanted = other + seq!['='];
    if text::begins_with(pair, wanted) {
        text::law_beginning(pair, wanted);
        let m = other.len() as int;
        assert(wanted[m] == '=');
        assert(pair[m] == '=');
        if m < n {
            assert(pair[m] == name[m]);
        }
        if m > n {
            assert(wanted[n] == other[n]);
            assert(pair[n] == '=');
        }
        assert forall|i: int| 0 <= i < n implies other[i] == name[i] by {
            assert(wanted[i] == other[i]);
            assert(pair[i] == name[i]);
        }
        assert(other =~= name);
    }
}

/// The header that hands out a session holds the token, keeps it from scripts
/// and from other sites, and lasts thirty days for the whole dashboard; over
/// secure channels only where that is set.
pub proof fn law_session_header(token: Seq<char>, secure: bool)
    requires
        is_plain(token),
    ensures
        ({
            let parts = text::pieces(session_header(token, secure), ';');
            &&& parts[0] == browser_cookie(token)
            &&& parts[1] == " HttpOnly"@
            &&& parts[2] == " SameSite=Lax"@
            &&& parts[3] == " Path=/"@
            &&& parts[4] == " Max-Age=2592000"@
            &&& secure ==> parts.len() == 6 && parts[5] == " Secure"@
            &&& !secure ==> parts.len() == 5
        }),
{
    reveal_strlit("lansight_session");
    reveal_strlit("=");
    reveal_strlit("; HttpOnly; SameSite=Lax; Path=/; Max-Age=2592000");
    reveal_strlit("; Secure");
    reveal_strlit(" HttpOnly");
    reveal_strlit(" SameSite=Lax");
    reveal_strlit(" Path=/");
    reveal_strlit(" Max-Age=2592000");
    reveal_strlit(" Secure");
    let p0 = browser_cookie(token);
    assert forall|i: int| 0 <= i < p0.len() implies #[trigger] p0[i] != ';' by {
        if i >= 17 {
            assert(p0[i] == token[i - 17]);
        }
    }
    let tail = "; HttpOnly; SameSite=Lax; Path=/; Max-Age=2592000"@;
    let a = " HttpOnly"@;
    let b = " SameSite=Lax"@;
    let c = " Path=/"@;
    let d = " Max-Age=2592000"@;
    let e = " Secure"@;
    assert(tail =~= seq![';'] + a + seq![';'] + b + seq![';'] + c + seq![';'] + d);
    lemma_five_parts(p0, a, b, c, d);
    let base = p0 + seq![';'] + a + seq![';'] + b + seq![';'] + c + seq![';'] + d;
    assert(session_header(token, false) =~= base);
    if secure {
        assert(session_header(token, true) =~= base + seq![';'] + e);
        text::lemma_one_piece(e, ';');
        text::lemma_pieces_across(base, e, ';');
        assert(seq![p0, a, b, c, d] + seq![e] =~= seq![p0, a, b, c, d, e]);
    }
}

proof fn lemma_five_parts(
    p: Seq<char>,
    a: Seq<char>,
    b: Seq<char>,
    c: Seq<char>,
    d: Seq<char>,
)
    requires
        forall|i: int| 0 <= i < p.len() ==> #[trigger] p[i] != ';',
        forall|i: int| 0 <= i < a.len() ==> #[trigger] a[i] != ';',
        forall|i: int| 0 <= i < b.len() ==> #[trigger] b[i] != ';',
        forall|i: int| 0 <= i < c.len() ==> #[trigger] c[i] != ';',
        forall|i: int| 0 <= i < d.len() ==> #[trigger] d[i] != ';',
    ensures
        text::pieces(p + seq![';'] + a + seq![';'] + b + seq![';'] + c + seq![';'] + d, ';')
            == seq![p, a, b, c, d],
{
    text::lemma_one_piece(p, ';');
    text::lemma_one_piece(a, ';');
    text::lemma_one_piece(b, ';');
    text::lemma_one_piece(c, ';');
    text::lemma_one_piece(d, ';');
    let pa = p + seq![';'] + a;
    let pb = pa + seq![';'] + b;
    let pc = pb + seq![';'] + c;
    text::lemma_pieces_across(p, a, ';');
    text::lemma_pieces_across(pa, b, ';');
    text::lemma_pieces_across(pb, c, ';');
    text::lemma_pieces_across(pc, d, ';');
    assert(seq![p] + seq![a] + seq![b] + seq![c] + seq![d] =~= seq![p, a, b, c, d]);
}

/// The header that takes a session back leaves an empty token that is over at
/// once, where the one before stood.
pub proof fn law_clearing_header(secure: bool)
    ensures
        ({
            let parts = text::pieces(clearing_header(secure), ';');
            &&& parts[0] == browser_cookie(Seq::empty())
            &&& parts[1] == " HttpOnly"@
            &&& parts[2] == " SameSite=Lax"@
            &&& parts[3] == " Path=/"@
            &&& parts[4] == " Max-Age=0"@
            &&& secure ==> parts.len() == 6 && parts[5] == " Secure"@
            &&& !secure ==> parts.len() == 5
        }),
{
    reveal_strlit("lansight_session");
    reveal_strlit("=; HttpOnly; SameSite=Lax; Path=/; Max-Age=0");
    reveal_strlit("; Secure");
    reveal_strlit(" HttpOnly");
    reveal_strlit(" SameSite=Lax");
    reveal_strlit(" Path=/");
    reveal_strlit(" Max-Age=0");
    reveal_strlit(" Secure");
    let p0 = browser_cookie(Seq::empty());
    let tail = "=; HttpOnly; SameSite=Lax; Path=/; Max-Age=0"@;
    let a = " HttpOnly"@;
    let b = " SameSite=Lax"@;
    let c = " Path=/"@;
    let d = " Max-Age=0"@;
    let e = " Secure"@;
    assert(tail =~= seq!['='] + seq![';'] + a + seq![';'] + b + seq![';'] + c + seq![';'] + d);
    lemma_five_parts(p0, a, b, c, d);
    let base = p0 + seq![';'] + a + seq![';'] + b + seq![';'] + c + seq![';'] + d;
    assert(clearing_header(false) =~= base);
    if secure {
        assert(clearing_header(true) =~= base + seq![';'] + e);
        text::lemma_one_piece(e, ';');
        text::lemma_pieces_across(base, e, ';');
        assert(seq![p0, a, b, c, d] + seq![e] =~= seq![p0, a, b, c, d, e]);
    }
}

/// What a request is answered: it goes through where no password is set, or where
/// its cookie is of an open session; else a request below `/api` is refused, and
/// any other is sent to the login page.
pub proof fn law_access(
    auth: AuthModel,
    sessions: Set<Seq<char>>,
    raw: Option<Seq<char>>,
    path: Seq<char>,
)
    ensures
        ({
            let token = match raw {
                Some(r) => cookie_in(r, session_cookie()),
                None => None,
            };
            let known = token is Some && sessions.contains(token->0);
            let api = path.len() >= 4 && path[0] == '/' && path[1] == 'a' && path[2] == 'p'
                && path[3] == 'i';
            &&& access(auth, sessions, raw, path) is Pass <==> auth.password is None || known
            &&& access(auth, sessions, raw, path) is Unauthorized <==> auth.password is Some
                && !known && api
            &&& access(auth, sessions, raw, path) is ToLogin <==> auth.password is Some && !known
                && !api
            &&& asks_password(auth, sessions, raw) <==> auth.password is Some && !known
        }),
{
    reveal_strlit("/api");
    text::law_beginning(path, "/api"@);
    assert("/api"@[0] == '/' && "/api"@[1] == 'a' && "/api"@[2] == 'p' && "/api"@[3] == 'i');
}

/// What an attempt to log in is answered, and what it opens: with the right
/// password the session of the token and its cookie, at once; with a wrong one
/// nothing, after half a second, and the login page again.
pub proof fn law_login(
    expected: Seq<char>,
    secure: bool,
    sessions: Set<Seq<char>>,
    password: Seq<char>,
    token: Seq<char>,
)
    ensures
        ({
            let auth = AuthModel { password: Some(expected), cookie_secure: secure };
            let open = AuthModel { password: None, cookie_secure: secure };
            &&& password == expected ==> {
                &&& after_login(auth, sessions, password, token) == sessions.insert(token)
                &&& login_reply(auth, password, token) == (ReplyModel {
                    location: "/"@,
                    set_cookie: Some(session_header(token, secure)),
                    delay_ms: 0,
                })
            }
            &&& password != expected ==> {
                &&& after_login(auth, sessions, password, token) == sessions
                &&& login_reply(auth, password, token) == (ReplyModel {
                    location: "/login?e=1"@,
                    set_cookie: None,
                    delay_ms: 500,
                })
            }
            &&& after_login(open, sessions, password, token) == sessions
            &&& login_reply(open, password, token) == (ReplyModel {
                location: "/"@,
                set_cookie: None,
                delay_ms: 0,
            })
        }),
{
}

}
