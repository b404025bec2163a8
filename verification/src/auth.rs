//! Who may do what: tokens, sessions and the origin of a request.

use vstd::prelude::*;

use crate::clock::now_secs;
use crate::error::{ApiError, ErrorView, optional, outcome, plain_error, verdict};
use crate::headers::{
    Headers, all_printable, cookie_part, cookie_spec, cookie_value, first_value, header_text,
    header_value, header_value_spec, lemma_printable_concat, lemma_printable_value, printable,
};
use crate::ids::{is_identifier, is_uuid, lower_hex, new_id};
use crate::numbers::{decimal, decimal_spec};
use crate::revision::{hash_spec, hash_string};
use crate::table::{Record, Table};
use crate::text::{
    CharSet, chars_of, ends_with, law_prefix_is_taken_away, lemma_index_in, lemma_index_in_is, same,
    same_chars, split_spec, strip_prefix, strip_prefix_spec, text_of, trimmed, white_space,
};

verus! {

/// The name of the cookie that holds the session.
pub open spec fn session_cookie() -> Seq<char> {
    "llm_wiki_session"@
}

/// How long a session lives, in seconds.
pub const SESSION_TTL_SECS: u64 = 43200;

/// A session: its CSRF token and when it ends.
pub struct Session {
    pub csrf: String,
    pub expires_at: u64,
}

/// The view of a [`Session`].
pub struct SessionView {
    pub csrf: Seq<char>,
    pub expires_at: u64,
}

impl View for Session {
    type V = SessionView;

    open spec fn view(&self) -> SessionView {
        SessionView { csrf: self.csrf@, expires_at: self.expires_at }
    }
}

impl Record for Session {
    fn copied(&self) -> (r: Session) {
        Session { csrf: self.csrf.clone(), expires_at: self.expires_at }
    }
}

/// The byte of `s` at `i`, or zero past its end.
spec fn byte_at(s: Seq<u8>, i: int) -> u8 {
    if 0 <= i < s.len() {
        s[i]
    } else {
        0
    }
}

/// Whether two sequences of bytes are equal. Every byte is looked at, whatever the others
/// are.
pub fn constant_time_eq(left: &[u8], right: &[u8]) -> (r: bool)
    ensures
        r == (left@ == right@),
{
    let n: usize = left.len();
    let m: usize = right.len();
    let longest: usize = if n > m {
        n
    } else {
        m
    };
    let mut diff: usize = n ^ m;
    assert((n ^ m == 0) <==> n == m) by (bit_vector);
    let mut i: usize = 0;
    while i < longest
        invariant
            n == left@.len(),
            m == right@.len(),
            longest >= n,
            longest >= m,
            i <= longest,
            diff == 0 <==> (n == m && forall|j: int|
                0 <= j < i ==> #[trigger] byte_at(left@, j) == byte_at(right@, j)),
        decreases longest - i,
    {
        let a: u8 = if i < n {
            left[i]
        } else {
            0
        };
        let b: u8 = if i < m {
            right[i]
        } else {
            0
        };
        let x: usize = (a ^ b) as usize;
        assert((a ^ b == 0) <==> a == b) by (bit_vector);
        assert((diff | x) == 0 <==> (diff == 0 && x == 0)) by (bit_vector);
        assert(a == byte_at(left@, i as int) && b == byte_at(right@, i as int));
        diff = diff | x;
        i += 1;
    }
    proof {
        if diff == 0 {
            assert forall|j: int| 0 <= j < n implies left@[j] == right@[j] by {
                assert(byte_at(left@, j) == byte_at(right@, j));
            }
            assert(left@ =~= right@);
        }
    }
    diff == 0
}

/// Whether two texts are equal, told without stopping at the first difference.
fn same_secret(left: &str, right: &str) -> (r: bool)
    ensures
        r == (left@ == right@),
{
    proof {
        vstd::utf8::encode_utf8_decode_utf8(left@);
        vstd::utf8::encode_utf8_decode_utf8(right@);
    }
    constant_time_eq(left.as_bytes(), right.as_bytes())
}

/// The answer to a request without credentials.
pub open spec fn unauthorized_spec() -> ErrorView {
    plain_error(401, "UNAUTHORIZED"@, "Authentication required"@)
}

/// The answer to a request without credentials.
pub fn unauthorized() -> (e: ApiError)
    ensures
        e@ == unauthorized_spec(),
{
    ApiError::new(401, "UNAUTHORIZED", "Authentication required")
}

/// Whether a method writes.
pub open spec fn write_method(method: Seq<char>) -> bool {
    method != "GET"@ && method != "HEAD"@ && method != "OPTIONS"@
}

/// Whether a method writes.
pub fn is_write_method(method: &str) -> (r: bool)
    ensures
        r == write_method(method@),
{
    !same(method, "GET") && !same(method, "HEAD") && !same(method, "OPTIONS")
}

/// The refusal of an origin.
pub open spec fn origin_rejected(message: Seq<char>) -> ErrorView {
    plain_error(403, "ORIGIN_REJECTED"@, message)
}

/// What follows the scheme of an origin.
pub open spec fn authority(origin: Seq<char>) -> Option<Seq<char>> {
    match strip_prefix_spec(origin, "http://"@) {
        Some(rest) => Some(rest),
        None => strip_prefix_spec(origin, "https://"@),
    }
}

/// Whether the `Origin` of a request is its `Host`.
pub open spec fn required_origin(fields: Seq<(Seq<char>, Seq<u8>)>) -> Result<(), ErrorView> {
    match header_text(fields, "origin"@) {
        None => Err(origin_rejected("Origin is required"@)),
        Some(origin) => match header_text(fields, "host"@) {
            None => Err(origin_rejected("Host is required"@)),
            Some(host) => if authority(origin) == Some(host) {
                Ok(())
            } else {
                Err(origin_rejected("Origin does not match Host"@))
            },
        },
    }
}

/// Refuses a request whose `Origin` is not its `Host`.
pub fn validate_required_origin(headers: &Headers) -> (r: Result<(), ApiError>)
    ensures
        verdict(r) == required_origin(headers@),
{
    let origin = match headers.text("origin") {
        Some(origin) => origin,
        None => {
            return Err(ApiError::new(403, "ORIGIN_REJECTED", "Origin is required"));
        },
    };
    let host = match headers.text("host") {
        Some(host) => host,
        None => {
            return Err(ApiError::new(403, "ORIGIN_REJECTED", "Host is required"));
        },
    };
    let chars = chars_of(origin.as_str());
    let wanted = chars_of(host.as_str());
    let plain = chars_of("http://");
    let secure = chars_of("https://");
    let rest = match strip_prefix(chars.as_slice(), plain.as_slice()) {
        Some(rest) => Some(rest),
        None => strip_prefix(chars.as_slice(), secure.as_slice()),
    };
    let valid = match rest {
        Some(rest) => same_chars(rest, wanted.as_slice()),
        None => false,
    };
    if valid {
        Ok(())
    } else {
        Err(ApiError::new(403, "ORIGIN_REJECTED", "Origin does not match Host"))
    }
}

/// Whether the `Origin` of a request, if it has one, is its `Host`.
pub open spec fn optional_origin(fields: Seq<(Seq<char>, Seq<u8>)>) -> Result<(), ErrorView> {
    if first_value(fields, "origin"@) is Some {
        required_origin(fields)
    } else {
        Ok(())
    }
}

/// Refuses a request whose `Origin`, if it has one, is not its `Host`.
pub fn validate_optional_origin(headers: &Headers) -> (r: Result<(), ApiError>)
    ensures
        verdict(r) == optional_origin(headers@),
{
    if headers.contains("origin") {
        validate_required_origin(headers)
    } else {
        Ok(())
    }
}

/// How a request proved who it comes from.
pub enum AuthKind {
    /// By the bootstrap token.
    Bearer,
    /// By a session.
    Session,
}

impl AuthKind {
    /// The name of the kind.
    pub open spec fn text(self) -> Seq<char> {
        match self {
            AuthKind::Bearer => "bearer"@,
            AuthKind::Session => "session"@,
        }
    }

    /// The name of the kind.
    pub fn name(&self) -> (r: &'static str)
        ensures
            r@ == self.text(),
    {
        match self {
            AuthKind::Bearer => "bearer",
            AuthKind::Session => "session",
        }
    }
}

/// Who a request comes from; the CSRF token is that of its session.
pub struct AuthInfo {
    pub kind: AuthKind,
    pub csrf: Option<String>,
}

/// The view of an [`AuthInfo`].
pub struct AuthView {
    pub kind: AuthKind,
    pub csrf: Option<Seq<char>>,
}

impl View for AuthInfo {
    type V = AuthView;

    open spec fn view(&self) -> AuthView {
        AuthView { kind: self.kind, csrf: optional(self.csrf) }
    }
}

/// The sessions that have not ended.
pub open spec fn live_sessions(sessions: Map<Seq<char>, SessionView>, now: u64) -> Map<
    Seq<char>,
    SessionView,
> {
    Map::new(
        |key: Seq<char>| sessions.contains_key(key) && sessions[key].expires_at > now,
        |key: Seq<char>| sessions[key],
    )
}

/// Forgets the sessions that have ended.
pub fn retain_live(sessions: &mut Table<Session>, now: u64)
    ensures
        final(sessions)@ == live_sessions(old(sessions)@, now),
{
    let mut kept: Table<Session> = Table::new();
    let n: usize = sessions.len();
    let mut i: usize = 0;
    while i < n
        invariant
            i <= n,
            n == sessions.keys().len(),
            forall|key: Seq<char>| #[trigger]
                kept@.contains_key(key) <==> (exists|j: int|
                    0 <= j < i && #[trigger] sessions.keys()[j] == key) && sessions@.contains_key(
                    key,
                ) && sessions@[key].expires_at > now,
            forall|key: Seq<char>| #[trigger]
                kept@.contains_key(key) ==> kept@[key] == sessions@[key],
        decreases n - i,
    {
        let ghost before = kept@;
        let session = sessions.value_at(i);
        let ghost key = sessions.keys()[i as int];
        if session.expires_at > now {
            kept.insert(sessions.key_at(i).clone(), session.copied());
            assert(kept@ == before.insert(key, sessions@[key]));
        }
        proof {
            assert forall|k: Seq<char>| #[trigger] kept@.contains_key(k) <==> (exists|j: int|
                0 <= j < i + 1 && #[trigger] sessions.keys()[j] == k) && sessions@.contains_key(k)
                && sessions@[k].expires_at > now by {
                assert(kept@.contains_key(k) <==> before.contains_key(k) || (k == key
                    && sessions@[key].expires_at > now));
                if k == key {
                    assert(sessions.keys()[i as int] == k);
                }
                if before.contains_key(k) {
                    let j = choose|j: int| 0 <= j < i && #[trigger] sessions.keys()[j] == k;
                    assert(0 <= j < i + 1 && sessions.keys()[j] == k);
                }
            }
        }
        i += 1;
    }
    proof {
        assert forall|key: Seq<char>| sessions@.contains_key(key) implies exists|j: int|
            0 <= j < n && #[trigger] sessions.keys()[j] == key by {
            assert(sessions.keys().contains(key));
        }
        assert(kept@ =~= live_sessions(sessions@, now));
    }
    *sessions = kept;
}

/// The token that a request carries.
pub open spec fn bearer_token(fields: Seq<(Seq<char>, Seq<u8>)>) -> Option<Seq<char>> {
    match header_text(fields, "authorization"@) {
        Some(value) => strip_prefix_spec(value, "Bearer "@),
        None => None,
    }
}

/// Who the session under a key is, if it has not ended.
pub open spec fn session_auth(
    key: Seq<char>,
    sessions: Map<Seq<char>, SessionView>,
    now: u64,
) -> Result<AuthView, ErrorView> {
    let live = live_sessions(sessions, now);
    if live.contains_key(key) {
        Ok(AuthView { kind: AuthKind::Session, csrf: Some(live[key].csrf) })
    } else {
        Err(unauthorized_spec())
    }
}

/// Who the session under a key is, if it has not ended; the sessions that have are forgotten.
pub fn authenticate_session(key: &str, sessions: &mut Table<Session>, now: u64) -> (r: Result<
    AuthInfo,
    ApiError,
>)
    ensures
        outcome(r) == session_auth(key@, old(sessions)@, now),
        final(sessions)@ == live_sessions(old(sessions)@, now),
{
    retain_live(sessions, now);
    match sessions.get(key) {
        Some(session) => Ok(
            AuthInfo { kind: AuthKind::Session, csrf: Some(session.csrf.clone()) },
        ),
        None => Err(unauthorized()),
    }
}

/// Who a request comes from: the holder of the token, or of a session that has not ended.
pub open spec fn authenticated(
    token: Seq<char>,
    fields: Seq<(Seq<char>, Seq<u8>)>,
    sessions: Map<Seq<char>, SessionView>,
    now: u64,
) -> Result<AuthView, ErrorView> {
    if bearer_token(fields) == Some(token) {
        Ok(AuthView { kind: AuthKind::Bearer, csrf: None })
    } else {
        match cookie_spec(fields, session_cookie()) {
            Some(id) => session_auth(hash_spec(id), sessions, now),
            None => Err(unauthorized_spec()),
        }
    }
}

/// The sessions after a request was looked at: those that have ended are forgotten when a
/// request that does not carry the token names one.
pub open spec fn sessions_after(
    token: Seq<char>,
    fields: Seq<(Seq<char>, Seq<u8>)>,
    sessions: Map<Seq<char>, SessionView>,
    now: u64,
) -> Map<Seq<char>, SessionView> {
    if bearer_token(fields) != Some(token) && cookie_spec(fields, session_cookie()) is Some {
        live_sessions(sessions, now)
    } else {
        sessions
    }
}

/// Whether a request carries the token.
fn carries_token(headers: &Headers, token: &str) -> (r: bool)
    ensures
        r == (bearer_token(headers@) == Some(token@)),
{
    match headers.text("authorization") {
        Some(value) => {
            let chars = chars_of(value.as_str());
            let scheme = chars_of("Bearer ");
            match strip_prefix(chars.as_slice(), scheme.as_slice()) {
                Some(rest) => same_secret(text_of(rest).as_str(), token),
                None => false,
            }
        },
        None => false,
    }
}

/// Who a request comes from, at the time `now`.
pub fn authenticate_at(
    token: &str,
    headers: &Headers,
    sessions: &mut Table<Session>,
    now: u64,
) -> (r: Result<AuthInfo, ApiError>)
    ensures
        outcome(r) == authenticated(token@, headers@, old(sessions)@, now),
        final(sessions)@ == sessions_after(token@, headers@, old(sessions)@, now),
{
    if carries_token(headers, token) {
        return Ok(AuthInfo { kind: AuthKind::Bearer, csrf: None });
    }
    match cookie_value(headers, "llm_wiki_session") {
        Some(id) => authenticate_session(hash_string(id.as_str()).as_str(), sessions, now),
        None => Err(unauthorized()),
    }
}

/// Who a request comes from, at the time that the clock shows.
pub fn authenticate(token: &str, headers: &Headers, sessions: &mut Table<Session>) -> (r: Result<
    AuthInfo,
    ApiError,
>)
    ensures
        exists|now: u64|
            outcome(r) == #[trigger] authenticated(token@, headers@, old(sessions)@, now)
                && final(sessions)@ == sessions_after(token@, headers@, old(sessions)@, now),
{
    let now: u64 = now_secs();
    authenticate_at(token, headers, sessions, now)
}

/// The refusal of a CSRF token.
pub open spec fn csrf_rejected() -> ErrorView {
    plain_error(403, "CSRF_REJECTED"@, "Missing or invalid CSRF token"@)
}

/// A text, or nothing.
pub open spec fn or_empty(text: Option<Seq<char>>) -> Seq<char> {
    match text {
        Some(text) => text,
        None => seq![],
    }
}

/// Whether a write by a session must carry its CSRF token: every one but the request for
/// such a token.
pub open spec fn needs_csrf(kind: AuthKind, path: Seq<char>) -> bool {
    kind is Session && !"/auth/csrf"@.is_suffix_of(path)
}

/// Whether a request that proved who it comes from may go on: a write must come from the
/// host itself if it names its origin; a write by a session must name it, and must carry
/// the CSRF token.
pub open spec fn admitted(
    auth: AuthView,
    fields: Seq<(Seq<char>, Seq<u8>)>,
    method: Seq<char>,
    path: Seq<char>,
) -> Result<(), ErrorView> {
    if !write_method(method) {
        Ok(())
    } else if optional_origin(fields) is Err {
        optional_origin(fields)
    } else if !needs_csrf(auth.kind, path) {
        Ok(())
    } else if required_origin(fields) is Err {
        required_origin(fields)
    } else if or_empty(header_text(fields, "x-csrf-token"@)) != or_empty(auth.csrf) {
        Err(csrf_rejected())
    } else {
        Ok(())
    }
}

/// Refuses a request that proved who it comes from but may not go on.
pub fn check_admitted(auth: &AuthInfo, headers: &Headers, method: &str, path: &str) -> (r: Result<
    (),
    ApiError,
>)
    ensures
        verdict(r) == admitted(auth@, headers@, method@, path@),
{
    if !is_write_method(method) {
        return Ok(());
    }
    match validate_optional_origin(headers) {
        Ok(()) => {},
        Err(error) => {
            return Err(error);
        },
    }
    let chars = chars_of(path);
    let refresh = chars_of("/auth/csrf");
    let is_session = match auth.kind {
        AuthKind::Session => true,
        AuthKind::Bearer => false,
    };
    if !is_session || ends_with(chars.as_slice(), refresh.as_slice()) {
        return Ok(());
    }
    match validate_required_origin(headers) {
        Ok(()) => {},
        Err(error) => {
            return Err(error);
        },
    }
    proof {
        reveal_strlit("");
        assert(""@ =~= Seq::<char>::empty());
    }
    let supplied = match headers.text("x-csrf-token") {
        Some(text) => text,
        None => "".to_owned(),
    };
    let expected = match &auth.csrf {
        Some(text) => text.clone(),
        None => "".to_owned(),
    };
    if same_secret(supplied.as_str(), expected.as_str()) {
        Ok(())
    } else {
        Err(ApiError::new(403, "CSRF_REJECTED", "Missing or invalid CSRF token"))
    }
}

/// Who a request comes from, if it may go on.
pub open spec fn guarded(
    token: Seq<char>,
    fields: Seq<(Seq<char>, Seq<u8>)>,
    method: Seq<char>,
    path: Seq<char>,
    sessions: Map<Seq<char>, SessionView>,
    now: u64,
) -> Result<AuthView, ErrorView> {
    match authenticated(token, fields, sessions, now) {
        Err(error) => Err(error),
        Ok(auth) => match admitted(auth, fields, method, path) {
            Err(error) => Err(error),
            Ok(()) => Ok(auth),
        },
    }
}

/// Who a request comes from, if it may go on, at the time `now`.
pub fn require_auth_at(
    token: &str,
    headers: &Headers,
    method: &str,
    path: &str,
    sessions: &mut Table<Session>,
    now: u64,
) -> (r: Result<AuthInfo, ApiError>)
    ensures
        outcome(r) == guarded(token@, headers@, method@, path@, old(sessions)@, now),
        final(sessions)@ == sessions_after(token@, headers@, old(sessions)@, now),
{
    let auth = match authenticate_at(token, headers, sessions, now) {
        Ok(auth) => auth,
        Err(error) => {
            return Err(error);
        },
    };
    match check_admitted(&auth, headers, method, path) {
        Ok(()) => Ok(auth),
        Err(error) => Err(error),
    }
}

/// Who a request comes from, if it may go on, at the time that the clock shows.
pub fn require_auth(
    token: &str,
    headers: &Headers,
    method: &str,
    path: &str,
    sessions: &mut Table<Session>,
) -> (r: Result<AuthInfo, ApiError>)
    ensures
        exists|now: u64|
            outcome(r) == #[trigger] guarded(
                token@,
                headers@,
                method@,
                path@,
                old(sessions)@,
                now,
            ) && final(sessions)@ == sessions_after(token@, headers@, old(sessions)@, now),
{
    let now: u64 = now_secs();
    require_auth_at(token, headers, method, path, sessions, now)
}

/// The text of the cookie that holds a session.
pub open spec fn cookie_text(session_id: Seq<char>, secure: bool) -> Seq<char> {
    let plain = "llm_wiki_session="@ + session_id
        + "; HttpOnly; SameSite=Strict; Path=/; Max-Age="@ + decimal_spec(SESSION_TTL_SECS as nat);
    if secure {
        plain + "; Secure"@
    } else {
        plain
    }
}

/// What a login answers with: the CSRF token, and the value of the cookie.
pub struct LoginReply {
    pub csrf: String,
    pub cookie: Vec<u8>,
}

/// The view of a [`LoginReply`].
pub struct LoginView {
    pub csrf: Seq<char>,
    pub cookie: Seq<u8>,
}

impl View for LoginReply {
    type V = LoginView;

    open spec fn view(&self) -> LoginView {
        LoginView { csrf: self.csrf@, cookie: self.cookie@ }
    }
}

/// A session that begins at `now`.
pub open spec fn session_from(csrf: Seq<char>, now: u64) -> SessionView {
    SessionView { csrf, expires_at: (now + SESSION_TTL_SECS) as u64 }
}

/// Whether a login is accepted: by its origin, and by the token.
pub open spec fn login_check(
    token: Seq<char>,
    fields: Seq<(Seq<char>, Seq<u8>)>,
    supplied: Seq<char>,
) -> Result<(), ErrorView> {
    if optional_origin(fields) is Err {
        optional_origin(fields)
    } else if supplied != token {
        Err(plain_error(401, "INVALID_CREDENTIALS"@, "Invalid login token"@))
    } else {
        Ok(())
    }
}

/// Refuses a login that is not accepted.
pub fn check_login(token: &str, headers: &Headers, supplied: &str) -> (r: Result<(), ApiError>)
    ensures
        verdict(r) == login_check(token@, headers@, supplied@),
{
    match validate_optional_origin(headers) {
        Ok(()) => {},
        Err(error) => {
            return Err(error);
        },
    }
    if same_secret(supplied, token) {
        Ok(())
    } else {
        Err(ApiError::new(401, "INVALID_CREDENTIALS", "Invalid login token"))
    }
}

/// What a login that is accepted answers with.
pub open spec fn login_reply(session_id: Seq<char>, csrf: Seq<char>, secure: bool) -> Result<
    LoginView,
    ErrorView,
> {
    match header_value_spec(cookie_text(session_id, secure)) {
        Ok(cookie) => Ok(LoginView { csrf, cookie }),
        Err(message) => Err(plain_error(500, "COOKIE_ERROR"@, message)),
    }
}

/// The outcome of a login.
pub open spec fn login_spec(
    token: Seq<char>,
    secure: bool,
    fields: Seq<(Seq<char>, Seq<u8>)>,
    supplied: Seq<char>,
    session_id: Seq<char>,
    csrf: Seq<char>,
) -> Result<LoginView, ErrorView> {
    match login_check(token, fields, supplied) {
        Err(error) => Err(error),
        Ok(()) => login_reply(session_id, csrf, secure),
    }
}

/// The sessions after a login: one more if it was accepted.
pub open spec fn sessions_after_login(
    token: Seq<char>,
    fields: Seq<(Seq<char>, Seq<u8>)>,
    supplied: Seq<char>,
    session_id: Seq<char>,
    csrf: Seq<char>,
    sessions: Map<Seq<char>, SessionView>,
    now: u64,
) -> Map<Seq<char>, SessionView> {
    if login_check(token, fields, supplied) is Ok {
        sessions.insert(hash_spec(session_id), session_from(csrf, now))
    } else {
        sessions
    }
}

/// Begins a session, at the time `now`, for a request that carries the token.
pub fn login_with(
    token: &str,
    secure: bool,
    headers: &Headers,
    supplied: &str,
    session_id: &str,
    csrf: String,
    sessions: &mut Table<Session>,
    now: u64,
) -> (r: Result<LoginReply, ApiError>)
    requires
        login_check(token@, headers@, supplied@) is Ok ==> now + SESSION_TTL_SECS <= u64::MAX,
    ensures
        outcome(r) == login_spec(token@, secure, headers@, supplied@, session_id@, csrf@),
        final(sessions)@ == sessions_after_login(
            token@,
            headers@,
            supplied@,
            session_id@,
            csrf@,
            old(sessions)@,
            now,
        ),
{
    match check_login(token, headers, supplied) {
        Ok(()) => {},
        Err(error) => {
            return Err(error);
        },
    }
    let session = Session { csrf: csrf.clone(), expires_at: now + SESSION_TTL_SECS };
    sessions.insert(hash_string(session_id), session);
    let mut cookie = "llm_wiki_session=".to_owned().concat(session_id).concat(
        "; HttpOnly; SameSite=Strict; Path=/; Max-Age=",
    ).concat(decimal(SESSION_TTL_SECS).as_str());
    if secure {
        cookie = cookie.concat("; Secure");
    }
    assert(cookie@ == cookie_text(session_id@, secure));
    match header_value(cookie.as_str()) {
        Ok(cookie) => Ok(LoginReply { csrf, cookie }),
        Err(message) => Err(ApiError::new(500, "COOKIE_ERROR", message.as_str())),
    }
}

/// Whether the end of a session that begins at `now` has no number.
pub open spec fn too_late(now: u64) -> bool {
    now + SESSION_TTL_SECS > u64::MAX
}

/// Begins a session, at the time `now`, for a request that carries the token. There is no
/// outcome if the session is to begin and its end has no number.
pub fn login_at(
    token: &str,
    secure: bool,
    headers: &Headers,
    supplied: &str,
    session_id: &str,
    csrf: String,
    sessions: &mut Table<Session>,
    now: u64,
) -> (r: Option<Result<LoginReply, ApiError>>)
    ensures
        r is None <==> (login_check(token@, headers@, supplied@) is Ok && too_late(now)),
        r is None ==> final(sessions)@ == old(sessions)@,
        r matches Some(reply) ==> outcome(reply) == login_spec(
            token@,
            secure,
            headers@,
            supplied@,
            session_id@,
            csrf@,
        ) && final(sessions)@ == sessions_after_login(
            token@,
            headers@,
            supplied@,
            session_id@,
            csrf@,
            old(sessions)@,
            now,
        ),
{
    let late = now > u64::MAX - SESSION_TTL_SECS;
    if late && check_login(token, headers, supplied).is_ok() {
        return None;
    }
    Some(login_with(token, secure, headers, supplied, session_id, csrf, sessions, now))
}

/// The view of a login that may have no outcome.
pub open spec fn login_outcome(r: Option<Result<LoginReply, ApiError>>) -> Option<
    Result<LoginView, ErrorView>,
> {
    match r {
        Some(reply) => Some(outcome(reply)),
        None => None,
    }
}

/// What holds of an accepted login, whatever the clock shows and whatever is drawn: it begins
/// a session with a fresh identifier and CSRF token, unless the clock is too late for one.
pub open spec fn login_relation(
    token: Seq<char>,
    secure: bool,
    fields: Seq<(Seq<char>, Seq<u8>)>,
    supplied: Seq<char>,
    session_id: Seq<char>,
    csrf: Seq<char>,
    now: u64,
    before: Map<Seq<char>, SessionView>,
    after: Map<Seq<char>, SessionView>,
    result: Option<Result<LoginView, ErrorView>>,
) -> bool {
    &&& is_identifier(""@, session_id)
    &&& is_identifier(""@, csrf)
    &&& if too_late(now) {
        result is None && after == before
    } else {
        result == Some(login_spec(token, secure, fields, supplied, session_id, csrf)) && after
            == sessions_after_login(token, fields, supplied, session_id, csrf, before, now)
    }
}

/// Begins a session, at the time that the clock shows, for a request that carries the token.
/// A refusal does not depend on the clock; an accepted login has no outcome if the clock is so
/// late that the end of the session has no number.
pub fn login(
    token: &str,
    secure: bool,
    headers: &Headers,
    supplied: &str,
    sessions: &mut Table<Session>,
) -> (r: Option<Result<LoginReply, ApiError>>)
    ensures
        match login_check(token@, headers@, supplied@) {
            Err(error) => r matches Some(reply) && outcome(reply) == Err::<LoginView, _>(error)
                && final(sessions)@ == old(sessions)@,
            Ok(()) => exists|session_id: Seq<char>, csrf: Seq<char>, now: u64| #[trigger]
                login_relation(
                    token@,
                    secure,
                    headers@,
                    supplied@,
                    session_id,
                    csrf,
                    now,
                    old(sessions)@,
                    final(sessions)@,
                    login_outcome(r),
                ),
        },
{
    let now: u64 = now_secs();
    let session_id = new_id("");
    let csrf = new_id("");
    let ghost token_of_session = csrf@;
    let r = login_at(
        token,
        secure,
        headers,
        supplied,
        session_id.as_str(),
        csrf,
        sessions,
        now,
    );
    proof {
        if login_check(token@, headers@, supplied@) is Ok {
            assert(login_relation(
                token@,
                secure,
                headers@,
                supplied@,
                session_id@,
                token_of_session,
                now,
                old(sessions)@,
                sessions@,
                login_outcome(r),
            ));
        }
    }
    r
}

/// The sessions after a request to end one.
pub open spec fn sessions_after_logout(
    fields: Seq<(Seq<char>, Seq<u8>)>,
    sessions: Map<Seq<char>, SessionView>,
) -> Map<Seq<char>, SessionView> {
    match cookie_spec(fields, session_cookie()) {
        Some(id) => sessions.remove(hash_spec(id)),
        None => sessions,
    }
}

/// Ends the session that a request names, and gives the cookie that clears it.
pub fn logout(headers: &Headers, sessions: &mut Table<Session>) -> (cookie: &'static str)
    ensures
        final(sessions)@ == sessions_after_logout(headers@, old(sessions)@),
        cookie@ == "llm_wiki_session=; HttpOnly; SameSite=Strict; Path=/; Max-Age=0"@,
{
    if let Some(id) = cookie_value(headers, "llm_wiki_session") {
        let key = hash_string(id.as_str());
        let _ = sessions.remove(key.as_str());
    }
    "llm_wiki_session=; HttpOnly; SameSite=Strict; Path=/; Max-Age=0"
}

/// The session that a request names, if there is one.
pub open spec fn named_session(
    fields: Seq<(Seq<char>, Seq<u8>)>,
    sessions: Map<Seq<char>, SessionView>,
) -> Option<Seq<char>> {
    match cookie_spec(fields, session_cookie()) {
        Some(id) => if sessions.contains_key(hash_spec(id)) {
            Some(hash_spec(id))
        } else {
            None
        },
        None => None,
    }
}

/// The place of the session that a request names, if there is one.
fn session_of(headers: &Headers, sessions: &Table<Session>) -> (r: Option<String>)
    ensures
        optional(r) == named_session(headers@, sessions@),
{
    match cookie_value(headers, "llm_wiki_session") {
        Some(id) => {
            let key = hash_string(id.as_str());
            if sessions.get(key.as_str()).is_some() {
                Some(key)
            } else {
                None
            }
        },
        None => None,
    }
}

/// Gives the session that a request names the CSRF token `csrf` and a new end, counted from
/// `now`.
pub fn refresh_csrf_with(
    headers: &Headers,
    csrf: String,
    sessions: &mut Table<Session>,
    now: u64,
) -> (r: Result<String, ApiError>)
    requires
        named_session(headers@, old(sessions)@) is Some ==> now + SESSION_TTL_SECS <= u64::MAX,
    ensures
        match named_session(headers@, old(sessions)@) {
            Some(key) => outcome(r) == Ok::<Seq<char>, ErrorView>(csrf@) && final(sessions)@
                == old(sessions)@.insert(key, session_from(csrf@, now)),
            None => outcome(r) == Err::<Seq<char>, ErrorView>(unauthorized_spec())
                && final(sessions)@ == old(sessions)@,
        },
{
    match session_of(headers, sessions) {
        Some(key) => {
            let session = Session { csrf: csrf.clone(), expires_at: now + SESSION_TTL_SECS };
            sessions.insert(key, session);
            Ok(csrf)
        },
        None => Err(unauthorized()),
    }
}

/// Gives the session that a request names the CSRF token `csrf` and a new end, counted from
/// `now`. There is no outcome if there is such a session and its end has no number.
pub fn refresh_csrf_at(
    headers: &Headers,
    csrf: String,
    sessions: &mut Table<Session>,
    now: u64,
) -> (r: Option<Result<String, ApiError>>)
    ensures
        r is None <==> (named_session(headers@, old(sessions)@) is Some && too_late(now)),
        r is None ==> final(sessions)@ == old(sessions)@,
        r matches Some(reply) ==> match named_session(headers@, old(sessions)@) {
            Some(key) => outcome(reply) == Ok::<Seq<char>, ErrorView>(csrf@) && final(sessions)@
                == old(sessions)@.insert(key, session_from(csrf@, now)),
            None => outcome(reply) == Err::<Seq<char>, ErrorView>(unauthorized_spec())
                && final(sessions)@ == old(sessions)@,
        },
{
    let late = now > u64::MAX - SESSION_TTL_SECS;
    if late && session_of(headers, sessions).is_some() {
        return None;
    }
    Some(refresh_csrf_with(headers, csrf, sessions, now))
}

/// What holds of a new CSRF token, whatever the clock shows and whatever is drawn: the session
/// has it and a new end, unless the clock is too late for one.
pub open spec fn refresh_relation(
    key: Seq<char>,
    csrf: Seq<char>,
    now: u64,
    before: Map<Seq<char>, SessionView>,
    after: Map<Seq<char>, SessionView>,
    result: Option<Result<Seq<char>, ErrorView>>,
) -> bool {
    &&& is_identifier(""@, csrf)
    &&& if too_late(now) {
        result is None && after == before
    } else {
        result == Some(Ok::<Seq<char>, ErrorView>(csrf)) && after == before.insert(
            key,
            session_from(csrf, now),
        )
    }
}

/// The view of a CSRF token that may have no outcome.
pub open spec fn refresh_outcome(r: Option<Result<String, ApiError>>) -> Option<
    Result<Seq<char>, ErrorView>,
> {
    match r {
        Some(reply) => Some(outcome(reply)),
        None => None,
    }
}

/// Gives the session that a request names a fresh CSRF token and a new end. A refusal does not
/// depend on the clock; else there is no outcome if the clock is so late that the end has no
/// number.
pub fn refresh_csrf(headers: &Headers, sessions: &mut Table<Session>) -> (r: Option<
    Result<String, ApiError>,
>)
    ensures
        match named_session(headers@, old(sessions)@) {
            Some(key) => exists|csrf: Seq<char>, now: u64| #[trigger]
                refresh_relation(
                    key,
                    csrf,
                    now,
                    old(sessions)@,
                    final(sessions)@,
                    refresh_outcome(r),
                ),
            None => r matches Some(reply) && outcome(reply) == Err::<Seq<char>, _>(
                unauthorized_spec(),
            ) && final(sessions)@ == old(sessions)@,
        },
{
    let now: u64 = now_secs();
    let csrf = new_id("");
    let ghost fresh = csrf@;
    let r = refresh_csrf_at(headers, csrf, sessions, now);
    proof {
        if let Some(key) = named_session(headers@, old(sessions)@) {
            assert(refresh_relation(
                key,
                fresh,
                now,
                old(sessions)@,
                sessions@,
                refresh_outcome(r),
            ));
        }
    }
    r
}

/// A request with neither the token nor a session that lives is refused, whatever it asks.
pub proof fn law_stranger_is_refused(
    token: Seq<char>,
    fields: Seq<(Seq<char>, Seq<u8>)>,
    method: Seq<char>,
    path: Seq<char>,
    sessions: Map<Seq<char>, SessionView>,
    now: u64,
)
    requires
        bearer_token(fields) != Some(token),
        named_session(fields, live_sessions(sessions, now)) is None,
    ensures
        guarded(token, fields, method, path, sessions, now) == Err::<AuthView, ErrorView>(
            unauthorized_spec(),
        ),
{
}

/// A write by a session, other than the request for a CSRF token, goes on only if its origin
/// is its host and it carries the CSRF token of the session.
pub proof fn law_session_write_needs_origin_and_csrf(
    token: Seq<char>,
    fields: Seq<(Seq<char>, Seq<u8>)>,
    method: Seq<char>,
    path: Seq<char>,
    sessions: Map<Seq<char>, SessionView>,
    now: u64,
)
    requires
        write_method(method),
        bearer_token(fields) != Some(token),
        !"/auth/csrf"@.is_suffix_of(path),
        guarded(token, fields, method, path, sessions, now) is Ok,
    ensures
        required_origin(fields) is Ok,
        named_session(fields, live_sessions(sessions, now)) matches Some(key) && or_empty(
            header_text(fields, "x-csrf-token"@),
        ) == sessions[key].csrf,
{
}

/// A session that lives may read, and may ask for a CSRF token without having one.
pub proof fn law_session_reads_freely(
    token: Seq<char>,
    fields: Seq<(Seq<char>, Seq<u8>)>,
    method: Seq<char>,
    path: Seq<char>,
    sessions: Map<Seq<char>, SessionView>,
    now: u64,
)
    requires
        named_session(fields, live_sessions(sessions, now)) is Some,
        !write_method(method) || ("/auth/csrf"@.is_suffix_of(path) && optional_origin(fields) is Ok),
    ensures
        guarded(token, fields, method, path, sessions, now) is Ok,
{
}

/// The holder of the token may write from anywhere but a foreign origin.
pub proof fn law_token_writes_without_csrf(
    token: Seq<char>,
    fields: Seq<(Seq<char>, Seq<u8>)>,
    method: Seq<char>,
    path: Seq<char>,
    sessions: Map<Seq<char>, SessionView>,
    now: u64,
)
    requires
        bearer_token(fields) == Some(token),
        optional_origin(fields) is Ok,
    ensures
        guarded(token, fields, method, path, sessions, now) == Ok::<AuthView, ErrorView>(
            AuthView { kind: AuthKind::Bearer, csrf: None },
        ),
{
}

/// The session that a login begins is known, with its CSRF token, until it ends; from then on
/// it is not.
pub proof fn law_login_begins_session(
    token: Seq<char>,
    login_fields: Seq<(Seq<char>, Seq<u8>)>,
    session_id: Seq<char>,
    csrf: Seq<char>,
    sessions: Map<Seq<char>, SessionView>,
    begin: u64,
    fields: Seq<(Seq<char>, Seq<u8>)>,
    now: u64,
)
    requires
        begin + SESSION_TTL_SECS <= u64::MAX,
        login_check(token, login_fields, token) is Ok,
        bearer_token(fields) != Some(token),
        cookie_spec(fields, session_cookie()) == Some(session_id),
    ensures
        ({
            let after = sessions_after_login(
                token,
                login_fields,
                token,
                session_id,
                csrf,
                sessions,
                begin,
            );
            authenticated(token, fields, after, now) == if now < begin + SESSION_TTL_SECS {
                Ok::<AuthView, ErrorView>(AuthView { kind: AuthKind::Session, csrf: Some(csrf) })
            } else {
                Err(unauthorized_spec())
            }
        }),
{
}

/// After a logout the session is not known any more, and every other session is as it was.
pub proof fn law_logout_ends_session(
    token: Seq<char>,
    fields: Seq<(Seq<char>, Seq<u8>)>,
    sessions: Map<Seq<char>, SessionView>,
    now: u64,
)
    requires
        bearer_token(fields) != Some(token),
    ensures
        authenticated(token, fields, sessions_after_logout(fields, sessions), now) == Err::<
            AuthView,
            ErrorView,
        >(unauthorized_spec()),
        forall|key: Seq<char>| #[trigger]
            sessions.contains_key(key) && (cookie_spec(fields, session_cookie()) matches Some(id)
                ==> key != hash_spec(id)) ==> sessions_after_logout(fields, sessions).contains_key(
                key,
            ) && sessions_after_logout(fields, sessions)[key] == sessions[key],
{
}

/// A decimal number is made of visible characters.
proof fn lemma_decimal_printable(n: nat)
    ensures
        all_printable(decimal_spec(n)),
    decreases n,
{
    if n >= 10 {
        lemma_decimal_printable(n / 10);
    }
}

/// A UUID is made of visible characters.
proof fn lemma_uuid_printable(id: Seq<char>)
    requires
        is_uuid(id),
    ensures
        all_printable(id),
{
    assert forall|i: int| 0 <= i < id.len() implies printable(#[trigger] id[i]) by {
        if !(i == 8 || i == 13 || i == 18 || i == 23) {
            assert(lower_hex(id[i]));
        }
    }
}

/// A login that is accepted is answered with its cookie: the identifier that is drawn never
/// spoils the header.
pub proof fn law_accepted_login_is_answered(session_id: Seq<char>, csrf: Seq<char>, secure: bool)
    requires
        is_uuid(session_id),
    ensures
        login_reply(session_id, csrf, secure) matches Ok(reply) && reply.csrf == csrf,
{
    reveal_strlit("llm_wiki_session=");
    reveal_strlit("; HttpOnly; SameSite=Strict; Path=/; Max-Age=");
    reveal_strlit("; Secure");
    let a = "llm_wiki_session="@ + session_id;
    let b = a + "; HttpOnly; SameSite=Strict; Path=/; Max-Age="@;
    let c = b + decimal_spec(SESSION_TTL_SECS as nat);
    assert(all_printable("llm_wiki_session="@));
    assert(all_printable("; HttpOnly; SameSite=Strict; Path=/; Max-Age="@));
    assert(all_printable("; Secure"@));
    lemma_uuid_printable(session_id);
    lemma_decimal_printable(SESSION_TTL_SECS as nat);
    lemma_printable_concat("llm_wiki_session="@, session_id);
    lemma_printable_concat(a, "; HttpOnly; SameSite=Strict; Path=/; Max-Age="@);
    lemma_printable_concat(b, decimal_spec(SESSION_TTL_SECS as nat));
    lemma_printable_concat(c, "; Secure"@);
    lemma_printable_value(cookie_text(session_id, secure));
}

/// A client that sends back the cookie of a login names its session.
pub proof fn law_cookie_names_session(fields: Seq<(Seq<char>, Seq<u8>)>, session_id: Seq<char>)
    requires
        is_uuid(session_id),
        header_text(fields, "cookie"@) == Some("llm_wiki_session="@ + session_id),
    ensures
        cookie_spec(fields, session_cookie()) == Some(session_id),
{
    reveal_strlit("llm_wiki_session=");
    reveal_strlit("llm_wiki_session");
    let text = "llm_wiki_session="@ + session_id;
    let semicolon = CharSet::One(';');
    let equals = CharSet::One('=');
    assert forall|i: int| 0 <= i < session_id.len() implies {
        let c = #[trigger] session_id[i];
        c != ';' && !white_space(c)
    } by {
        if !(i == 8 || i == 13 || i == 18 || i == 23) {
            assert(lower_hex(session_id[i]));
        }
    }
    assert forall|i: int| 0 <= i < text.len() implies #[trigger] text[i] != ';' by {
        if i >= 17 {
            assert(text[i] == session_id[i - 17]);
        }
    }
    lemma_index_in(text, semicolon);
    assert(split_spec(text, semicolon) =~= seq![text]);
    assert(text[0] == 'l');
    assert(text.last() == session_id[35]);
    assert(!white_space(session_id[35]));
    assert(trimmed(text) =~= text);
    assert(text[16] == '=');
    assert forall|j: int| 0 <= j < 16 implies !equals.has(#[trigger] text[j]) by {
        assert(text[j] == "llm_wiki_session="@[j]);
    }
    lemma_index_in_is(text, equals, 16);
    assert(text.take(16) =~= "llm_wiki_session"@);
    assert(text.skip(17) =~= session_id);
    assert(cookie_part(text, session_cookie()) == Some(session_id));
    let parts = seq![text];
    assert(parts[0] == text);
}

/// A request writes unless its method is one of the three that read.
pub proof fn law_three_methods_read(method: Seq<char>)
    ensures
        write_method(method) <==> !(method == "GET"@ || method == "HEAD"@ || method == "OPTIONS"@),
{
}

/// A request with the right token is granted, whatever cookie it has, and no session changes. With
/// any other token, and no cookie, it is refused.
pub proof fn law_token_must_be_the_right_one(
    token: Seq<char>,
    supplied: Seq<char>,
    fields: Seq<(Seq<char>, Seq<u8>)>,
    sessions: Map<Seq<char>, SessionView>,
    now: u64,
)
    requires
        header_text(fields, "authorization"@) == Some("Bearer "@ + supplied),
        supplied == token || cookie_spec(fields, "llm_wiki_session"@) is None,
    ensures
        match authenticated(token, fields, sessions, now) {
            Ok(auth) => supplied == token && auth.kind is Bearer && auth.csrf is None,
            Err(error) => supplied != token && error.status == 401,
        },
        sessions_after(token, fields, sessions, now) == sessions,
{
    law_prefix_is_taken_away("Bearer "@, supplied, supplied);
}

/// A request with a cookie and without the token is of the session whose digest is kept, if that
/// has not ended; sessions that have are forgotten, and no others.
pub proof fn law_cookie_must_name_a_live_session(
    token: Seq<char>,
    fields: Seq<(Seq<char>, Seq<u8>)>,
    id: Seq<char>,
    sessions: Map<Seq<char>, SessionView>,
    now: u64,
)
    requires
        header_text(fields, "authorization"@) != Some("Bearer "@ + token),
        cookie_spec(fields, "llm_wiki_session"@) == Some(id),
    ensures
        match authenticated(token, fields, sessions, now) {
            Ok(auth) => {
                &&& sessions.contains_key(hash_spec(id))
                &&& now < sessions[hash_spec(id)].expires_at
                &&& auth.kind is Session
                &&& auth.csrf == Some(sessions[hash_spec(id)].csrf)
            },
            Err(error) => error.status == 401 && (!sessions.contains_key(hash_spec(id)) || now
                >= sessions[hash_spec(id)].expires_at),
        },
        forall|key: Seq<char>| #[trigger]
            sessions_after(token, fields, sessions, now).contains_key(key)
                <==> sessions.contains_key(key) && now < sessions[key].expires_at,
        forall|key: Seq<char>| #[trigger]
            sessions_after(token, fields, sessions, now).contains_key(key) ==> sessions_after(
                token,
                fields,
                sessions,
                now,
            )[key] == sessions[key],
{
    if let Some(value) = header_text(fields, "authorization"@) {
        law_prefix_is_taken_away("Bearer "@, token, value);
    }
}

/// A request without a token and without a cookie is refused.
pub proof fn law_nobody_is_refused(
    token: Seq<char>,
    fields: Seq<(Seq<char>, Seq<u8>)>,
    sessions: Map<Seq<char>, SessionView>,
    now: u64,
)
    requires
        header_text(fields, "authorization"@) is None,
        cookie_spec(fields, "llm_wiki_session"@) is None,
    ensures
        authenticated(token, fields, sessions, now) matches Err(error) && error.status == 401
            && error.code == "UNAUTHORIZED"@,
{
}

/// An origin is right exactly if it is the host of the request, by whichever of the two schemes.
pub proof fn law_origin_is_the_host(fields: Seq<(Seq<char>, Seq<u8>)>)
    ensures
        required_origin(fields) is Ok <==> exists|host: Seq<char>|
            {
                &&& #[trigger] header_text(fields, "host"@) == Some(host)
                &&& header_text(fields, "origin"@) == Some("http://"@ + host) || header_text(
                    fields,
                    "origin"@,
                ) == Some("https://"@ + host)
            },
        required_origin(fields) matches Err(error) ==> error.status == 403 && error.code
            == "ORIGIN_REJECTED"@,
        first_value(fields, "origin"@) is None ==> optional_origin(fields) is Ok,
        first_value(fields, "origin"@) is Some ==> optional_origin(fields) == required_origin(
            fields,
        ),
{
    reveal_strlit("http://");
    reveal_strlit("https://");
    if let Some(origin) = header_text(fields, "origin"@) {
        if let Some(host) = header_text(fields, "host"@) {
            law_prefix_is_taken_away("http://"@, host, origin);
            law_prefix_is_taken_away("https://"@, host, origin);
            if origin == "https://"@ + host {
                assert(origin[4] == 's');
                assert("http://"@[4] == ':');
                assert(!"http://"@.is_prefix_of(origin));
            }
        }
    }
}

/// Who may write: with a token, from the right origin if one is told; with a session, from the
/// right origin and with the right CSRF token, but for a new CSRF token. Everybody may read.
pub proof fn law_who_may_write(
    auth: AuthView,
    fields: Seq<(Seq<char>, Seq<u8>)>,
    method: Seq<char>,
    path: Seq<char>,
    csrf: Seq<char>,
)
    requires
        auth.kind is Session ==> auth.csrf == Some(csrf),
        csrf.len() > 0,
    ensures
        method == "GET"@ || method == "HEAD"@ || method == "OPTIONS"@ ==> admitted(
            auth,
            fields,
            method,
            path,
        ) is Ok,
        !(method == "GET"@ || method == "HEAD"@ || method == "OPTIONS"@) ==> (admitted(
            auth,
            fields,
            method,
            path,
        ) is Ok <==> if auth.kind is Bearer || "/auth/csrf"@.is_suffix_of(path) {
            first_value(fields, "origin"@) is None || required_origin(fields) is Ok
        } else {
            required_origin(fields) is Ok && header_text(fields, "x-csrf-token"@) == Some(csrf)
        }),
        admitted(auth, fields, method, path) matches Err(error) ==> error.status == 403,
{
}

/// A login is accepted exactly if the token is the right one and the origin, if one is told, is
/// right. It begins one session, which ends after twelve hours, and touches no other.
pub proof fn law_login_needs_the_token(
    token: Seq<char>,
    secure: bool,
    fields: Seq<(Seq<char>, Seq<u8>)>,
    supplied: Seq<char>,
    session_id: Seq<char>,
    csrf: Seq<char>,
    sessions: Map<Seq<char>, SessionView>,
    now: u64,
)
    requires
        now + 12 * 60 * 60 <= u64::MAX,
    ensures
        login_check(token, fields, supplied) is Ok <==> supplied == token && (first_value(
            fields,
            "origin"@,
        ) is None || required_origin(fields) is Ok),
        first_value(fields, "origin"@) is None && supplied != token ==> (login_check(
            token,
            fields,
            supplied,
        ) matches Err(error) && error.status == 401 && error.code == "INVALID_CREDENTIALS"@),
        ({
            let after = sessions_after_login(
                token,
                fields,
                supplied,
                session_id,
                csrf,
                sessions,
                now,
            );
            if login_check(token, fields, supplied) is Ok {
                &&& after.dom() == sessions.dom().insert(hash_spec(session_id))
                &&& after[hash_spec(session_id)].csrf == csrf
                &&& after[hash_spec(session_id)].expires_at == now + 12 * 60 * 60
                &&& forall|key: Seq<char>| #[trigger]
                    sessions.contains_key(key) && key != hash_spec(session_id) ==> after[key]
                        == sessions[key]
            } else {
                after == sessions
            }
        }),
        login_check(token, fields, supplied) matches Err(error) ==> login_spec(
            token,
            secure,
            fields,
            supplied,
            session_id,
            csrf,
        ) == Err::<LoginView, ErrorView>(error),
        too_late(now) <==> now + 12 * 60 * 60 > u64::MAX,
{
    let after = sessions_after_login(token, fields, supplied, session_id, csrf, sessions, now);
    if login_check(token, fields, supplied) is Ok {
        assert(after.dom() =~= sessions.dom().insert(hash_spec(session_id)));
    }
}

/// The cookie of a session names it, is kept from scripts and from other sites, lasts as long as
/// the session, and is for encrypted connections alone if that is asked for.
pub proof fn law_cookie_is_kept_safe(session_id: Seq<char>, secure: bool)
    ensures
        cookie_text(session_id, false) == "llm_wiki_session="@ + session_id
            + "; HttpOnly; SameSite=Strict; Path=/; Max-Age=43200"@,
        cookie_text(session_id, true) == cookie_text(session_id, false) + "; Secure"@,
{
    reveal_strlit("; HttpOnly; SameSite=Strict; Path=/; Max-Age=");
    reveal_strlit("; HttpOnly; SameSite=Strict; Path=/; Max-Age=43200");
    reveal_with_fuel(decimal_spec, 6);
    assert(decimal_spec(43200) =~= seq!['4', '3', '2', '0', '0']);
    let open = "; HttpOnly; SameSite=Strict; Path=/; Max-Age="@;
    let closed = "; HttpOnly; SameSite=Strict; Path=/; Max-Age=43200"@;
    assert(closed =~= open + decimal_spec(43200));
    assert(cookie_text(session_id, false) =~= "llm_wiki_session="@ + session_id + closed);
}

/// A logout ends the session that the cookie names, and no other.
pub proof fn law_logout_ends_one_session(
    fields: Seq<(Seq<char>, Seq<u8>)>,
    sessions: Map<Seq<char>, SessionView>,
)
    ensures
        cookie_spec(fields, "llm_wiki_session"@) matches Some(id) ==> sessions_after_logout(
            fields,
            sessions,
        ) == sessions.remove(hash_spec(id)),
        cookie_spec(fields, "llm_wiki_session"@) is None ==> sessions_after_logout(fields, sessions)
            == sessions,
{
}

/// The session that a request names is the one under the digest of its cookie.
pub proof fn law_session_is_named_by_its_cookie(
    fields: Seq<(Seq<char>, Seq<u8>)>,
    sessions: Map<Seq<char>, SessionView>,
    csrf: Seq<char>,
    now: u64,
)
    requires
        now + 12 * 60 * 60 <= u64::MAX,
    ensures
        named_session(fields, sessions) matches Some(key) ==> sessions.contains_key(key) && (
        cookie_spec(fields, "llm_wiki_session"@) matches Some(id) && key == hash_spec(id)),
        named_session(fields, sessions) is None ==> (cookie_spec(
            fields,
            "llm_wiki_session"@,
        ) matches Some(id) ==> !sessions.contains_key(hash_spec(id))),
        session_from(csrf, now).csrf == csrf,
        session_from(csrf, now).expires_at == now + 12 * 60 * 60,
{
}

/// Contracts speak of whole values: every part of a value is in its view, in its place, and nothing
/// else is.
pub proof fn law_views_of_auth_are_whole(
    session: Session,
    info: AuthInfo,
    reply: LoginReply,
    logged: Option<Result<LoginReply, ApiError>>,
    refreshed: Option<Result<String, ApiError>>,
)
    ensures
        session@.csrf == session.csrf@,
        session@.expires_at == session.expires_at,
        info@.kind == info.kind,
        info@.csrf == optional(info.csrf),
        reply@.csrf == reply.csrf@,
        reply@.cookie == reply.cookie@,
        match logged {
            Some(Ok(reply)) => login_outcome(logged) matches Some(Ok(shown)) && shown == reply@,
            Some(Err(error)) => login_outcome(logged) matches Some(Err(shown)) && shown == error@,
            None => login_outcome(logged) is None,
        },
        match refreshed {
            Some(Ok(csrf)) => refresh_outcome(refreshed) matches Some(Ok(shown)) && shown == csrf@,
            Some(Err(error)) => refresh_outcome(refreshed) matches Some(Err(shown)) && shown
                == error@,
            None => refresh_outcome(refreshed) is None,
        },
{
}

/// Whatever the clock shows and whatever is drawn: an accepted login begins one session under a
/// fresh identifier, which its cookie carries, with a fresh CSRF token, which it is answered with.
/// It lasts twelve hours.
pub proof fn law_fresh_session_lasts_twelve_hours(
    token: Seq<char>,
    secure: bool,
    fields: Seq<(Seq<char>, Seq<u8>)>,
    session_id: Seq<char>,
    csrf: Seq<char>,
    now: u64,
    before: Map<Seq<char>, SessionView>,
    after: Map<Seq<char>, SessionView>,
    result: Option<Result<LoginView, ErrorView>>,
)
    requires
        login_check(token, fields, token) is Ok,
        login_relation(
            token,
            secure,
            fields,
            token,
            session_id,
            csrf,
            now,
            before,
            after,
            result,
        ),
    ensures
        is_identifier(""@, session_id) && is_identifier(""@, csrf),
        result is Some <==> now + 12 * 60 * 60 <= u64::MAX,
        result is None ==> after == before,
        result matches Some(reply) ==> {
            &&& reply matches Ok(told) ==> told.csrf == csrf && header_value_spec(
                cookie_text(session_id, secure),
            ) == Ok::<Seq<u8>, Seq<char>>(told.cookie)
            &&& reply is Ok <==> header_value_spec(cookie_text(session_id, secure)) is Ok
            &&& after == before.insert(
                hash_spec(session_id),
                SessionView { csrf, expires_at: (now + 12 * 60 * 60) as u64 },
            )
        },
{
}

/// Whatever the clock shows and whatever is drawn: a fresh CSRF token replaces the one that the
/// session had, and the session lasts twelve hours from then.
pub proof fn law_refreshed_session_lasts_twelve_hours(
    key: Seq<char>,
    csrf: Seq<char>,
    now: u64,
    before: Map<Seq<char>, SessionView>,
    after: Map<Seq<char>, SessionView>,
    result: Option<Result<Seq<char>, ErrorView>>,
)
    requires
        refresh_relation(key, csrf, now, before, after, result),
    ensures
        is_identifier(""@, csrf),
        result is Some <==> now + 12 * 60 * 60 <= u64::MAX,
        result is None ==> after == before,
        result matches Some(told) ==> told == Ok::<Seq<char>, ErrorView>(csrf) && after
            == before.insert(
            key,
            SessionView { csrf, expires_at: (now + 12 * 60 * 60) as u64 },
        ),
{
}

} // verus!
