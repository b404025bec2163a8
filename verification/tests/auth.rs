use llm_wiki_server::auth::{
    authenticate, authenticate_at, authenticate_session, check_login, constant_time_eq,
    is_write_method, login, login_at, login_with, logout, refresh_csrf, refresh_csrf_at,
    refresh_csrf_with, require_auth, require_auth_at, retain_live, validate_optional_origin,
    validate_required_origin, AuthKind, Session, SESSION_TTL_SECS,
};
use llm_wiki_server::clock::{now_secs, seconds};
use llm_wiki_server::headers::{cookie_value, Headers};
use llm_wiki_server::ids::new_id;
use llm_wiki_server::revision::hash_string;
use llm_wiki_server::table::Table;

const TOKEN: &str = "secret";

fn headers(items: &[(&str, &str)]) -> Headers {
    let mut headers = Headers::new();
    for (name, value) in items {
        headers.push(name, value.as_bytes().to_vec());
    }
    headers
}

fn code<T>(r: Result<T, llm_wiki_server::error::ApiError>) -> (u16, &'static str) {
    let error = r.err().unwrap();
    (error.status, error.code)
}

fn sessions(id: &str, csrf: &str, expires_at: u64) -> Table<Session> {
    let mut sessions = Table::new();
    sessions.insert(hash_string(id), Session { csrf: csrf.to_string(), expires_at });
    sessions
}

#[test]
fn protected_api_rejects_unauthorized_request() {
    let mut none: Table<Session> = Table::new();
    let r = require_auth(TOKEN, &headers(&[]), "GET", "/api/v2/projects", &mut none);
    assert_eq!(code(r), (401, "UNAUTHORIZED"));
    let wrong = headers(&[("authorization", "Bearer wrong")]);
    assert_eq!(
        code(require_auth(TOKEN, &wrong, "GET", "/api/v2/projects", &mut none)),
        (401, "UNAUTHORIZED")
    );
    let basic = headers(&[("authorization", "Basic secret")]);
    assert!(require_auth(TOKEN, &basic, "GET", "/api/v2/projects", &mut none).is_err());
}

#[test]
fn bearer_token_needs_no_csrf() {
    let mut none: Table<Session> = Table::new();
    let bearer = headers(&[("authorization", "Bearer secret")]);
    let info = require_auth(TOKEN, &bearer, "POST", "/api/v2/projects", &mut none).ok().unwrap();
    assert!(matches!(info.kind, AuthKind::Bearer));
    assert_eq!(info.kind.name(), "bearer");
    assert_eq!(info.csrf, None);
    let foreign = headers(&[
        ("authorization", "Bearer secret"),
        ("origin", "http://evil"),
        ("host", "localhost"),
    ]);
    assert_eq!(
        code(require_auth(TOKEN, &foreign, "POST", "/api/v2/projects", &mut none)),
        (403, "ORIGIN_REJECTED")
    );
    assert!(require_auth(TOKEN, &foreign, "GET", "/api/v2/projects", &mut none).is_ok());
}

#[test]
fn session_write_requires_origin_and_csrf() {
    let mut sessions: Table<Session> = Table::new();
    let request = headers(&[("host", "localhost"), ("origin", "http://localhost")]);
    let reply = login(TOKEN, false, &request, "secret", &mut sessions).unwrap().ok().unwrap();
    let cookie = String::from_utf8(reply.cookie).unwrap();
    let cookie = cookie.split(';').next().unwrap().to_string();

    let bare = headers(&[("cookie", &cookie)]);
    assert_eq!(
        code(require_auth(TOKEN, &bare, "POST", "/api/v2/projects", &mut sessions)),
        (403, "ORIGIN_REJECTED")
    );
    let without = headers(&[
        ("cookie", &cookie),
        ("host", "localhost"),
        ("origin", "http://localhost"),
    ]);
    assert_eq!(
        code(require_auth(TOKEN, &without, "POST", "/api/v2/projects", &mut sessions)),
        (403, "CSRF_REJECTED")
    );
    let complete = headers(&[
        ("cookie", &cookie),
        ("host", "localhost"),
        ("origin", "https://localhost"),
        ("x-csrf-token", &reply.csrf),
    ]);
    let info = require_auth(TOKEN, &complete, "POST", "/api/v2/projects", &mut sessions)
        .ok()
        .unwrap();
    assert_eq!(info.kind.name(), "session");
    assert_eq!(info.csrf, Some(reply.csrf));
}

#[test]
fn csrf_refresh_supports_get_without_a_csrf_token() {
    let mut sessions: Table<Session> = Table::new();
    let request = headers(&[("host", "localhost"), ("origin", "http://localhost")]);
    let reply = login(TOKEN, false, &request, "secret", &mut sessions).unwrap().ok().unwrap();
    let cookie = String::from_utf8(reply.cookie).unwrap();
    let cookie = cookie.split(';').next().unwrap().to_string();
    let request = headers(&[("cookie", &cookie)]);
    assert!(require_auth(TOKEN, &request, "GET", "/api/v2/auth/csrf", &mut sessions).is_ok());
    assert!(require_auth(TOKEN, &request, "POST", "/api/v2/auth/csrf", &mut sessions).is_ok());
    let fresh = refresh_csrf(&request, &mut sessions).unwrap().ok().unwrap();
    assert_ne!(fresh, reply.csrf);
    let info = authenticate_at(TOKEN, &request, &mut sessions, 0).ok().unwrap();
    assert_eq!(info.csrf, Some(fresh));
}

#[test]
fn login_checks_origin_and_token() {
    assert!(check_login(TOKEN, &headers(&[]), "secret").is_ok());
    assert_eq!(code(check_login(TOKEN, &headers(&[]), "other")), (401, "INVALID_CREDENTIALS"));
    let foreign = headers(&[("origin", "http://a"), ("host", "b")]);
    assert_eq!(code(check_login(TOKEN, &foreign, "secret")), (403, "ORIGIN_REJECTED"));
    let mut sessions: Table<Session> = Table::new();
    assert!(login(TOKEN, false, &headers(&[]), "other", &mut sessions).unwrap().is_err());
    assert_eq!(sessions.len(), 0);
}

#[test]
fn login_sets_the_cookie_and_the_end_of_the_session() {
    let mut sessions: Table<Session> = Table::new();
    let reply = login_with(
        TOKEN,
        true,
        &headers(&[]),
        "secret",
        "the-id",
        "the-csrf".to_string(),
        &mut sessions,
        1000,
    )
    .ok()
    .unwrap();
    assert_eq!(
        String::from_utf8(reply.cookie).unwrap(),
        "llm_wiki_session=the-id; HttpOnly; SameSite=Strict; Path=/; Max-Age=43200; Secure"
    );
    assert_eq!(reply.csrf, "the-csrf");
    let session = sessions.get(&hash_string("the-id")).unwrap();
    assert_eq!(session.csrf, "the-csrf");
    assert_eq!(session.expires_at, 1000 + SESSION_TTL_SECS);
    assert_eq!(SESSION_TTL_SECS, 12 * 60 * 60);
    let broken = login_with(
        TOKEN,
        false,
        &headers(&[]),
        "secret",
        "line\nbreak",
        "c".to_string(),
        &mut sessions,
        1000,
    );
    assert_eq!(code(broken), (500, "COOKIE_ERROR"));
}

#[test]
fn sessions_end() {
    let request = headers(&[("cookie", "llm_wiki_session=abc")]);
    let mut live = sessions("abc", "c", 100);
    assert!(authenticate_at(TOKEN, &request, &mut live, 99).is_ok());
    assert_eq!(live.len(), 1);
    assert_eq!(code(authenticate_at(TOKEN, &request, &mut live, 100)), (401, "UNAUTHORIZED"));
    assert_eq!(live.len(), 0);
    let mut mixed = sessions("abc", "c", 100);
    mixed.insert("other".to_string(), Session { csrf: "d".to_string(), expires_at: 200 });
    retain_live(&mut mixed, 150);
    assert_eq!(mixed.len(), 1);
    assert!(mixed.get("other").is_some());
}

#[test]
fn logout_ends_one_session() {
    let request = headers(&[("cookie", "a=b; llm_wiki_session=abc")]);
    let mut live = sessions("abc", "c", 100);
    live.insert(hash_string("def"), Session { csrf: "d".to_string(), expires_at: 100 });
    let cookie = logout(&request, &mut live);
    assert_eq!(cookie, "llm_wiki_session=; HttpOnly; SameSite=Strict; Path=/; Max-Age=0");
    assert!(authenticate_at(TOKEN, &request, &mut live, 1).is_err());
    assert!(live.get(&hash_string("def")).is_some());
}

#[test]
fn refresh_needs_a_known_session() {
    let mut live = sessions("abc", "c", 100);
    let unknown = headers(&[("cookie", "llm_wiki_session=zzz")]);
    assert_eq!(code(refresh_csrf(&unknown, &mut live).unwrap()), (401, "UNAUTHORIZED"));
    assert_eq!(code(refresh_csrf(&headers(&[]), &mut live).unwrap()), (401, "UNAUTHORIZED"));
    let known = headers(&[("cookie", "llm_wiki_session=abc")]);
    let csrf = refresh_csrf_with(&known, "new".to_string(), &mut live, 500).ok().unwrap();
    assert_eq!(csrf, "new");
    assert_eq!(live.get(&hash_string("abc")).unwrap().expires_at, 500 + SESSION_TTL_SECS);
}

#[test]
fn guard_is_exact_at_a_given_time() {
    let mut live = sessions("abc", "c", 100);
    let request = headers(&[
        ("cookie", "llm_wiki_session=abc"),
        ("host", "h"),
        ("origin", "http://h"),
        ("x-csrf-token", "c"),
    ]);
    assert!(require_auth_at(TOKEN, &request, "DELETE", "/x", &mut live, 50).is_ok());
    assert_eq!(
        code(require_auth_at(TOKEN, &request, "DELETE", "/x", &mut live, 101)),
        (401, "UNAUTHORIZED")
    );
}

#[test]
fn origins_must_match_the_host() {
    assert!(validate_optional_origin(&headers(&[])).is_ok());
    let missing = validate_required_origin(&headers(&[("host", "h")])).err().unwrap();
    assert_eq!(missing.message, "Origin is required");
    let no_host = validate_required_origin(&headers(&[("origin", "http://h")])).err().unwrap();
    assert_eq!(no_host.message, "Host is required");
    let other = headers(&[("origin", "http://h"), ("host", "h:80")]);
    assert_eq!(
        validate_required_origin(&other).err().unwrap().message,
        "Origin does not match Host"
    );
    let scheme = headers(&[("origin", "ftp://h"), ("host", "h")]);
    assert!(validate_required_origin(&scheme).is_err());
    assert!(validate_optional_origin(&scheme).is_err());
    let good = headers(&[("origin", "https://h:8443"), ("host", "h:8443")]);
    assert!(validate_required_origin(&good).is_ok());
}

#[test]
fn secrets_are_compared_whole() {
    assert!(constant_time_eq(b"", b""));
    assert!(constant_time_eq(b"abc", b"abc"));
    assert!(!constant_time_eq(b"abc", b"abd"));
    assert!(!constant_time_eq(b"abc", b"abcd"));
    assert!(!constant_time_eq(b"abc\0", b"abc"));
}

#[test]
fn reading_methods_are_three() {
    for method in ["GET", "HEAD", "OPTIONS"] {
        assert!(!is_write_method(method));
    }
    for method in ["POST", "PUT", "PATCH", "DELETE", "get"] {
        assert!(is_write_method(method));
    }
}

#[test]
fn cookies_are_found_by_name() {
    let one = headers(&[("cookie", "a=1; b=2;c = 3; d")]);
    assert_eq!(cookie_value(&one, "a"), Some("1".to_string()));
    assert_eq!(cookie_value(&one, "b"), Some("2".to_string()));
    assert_eq!(cookie_value(&one, "c"), None);
    assert_eq!(cookie_value(&one, "c "), Some(" 3".to_string()));
    assert_eq!(cookie_value(&one, "d"), None);
    assert_eq!(cookie_value(&headers(&[("cookie", "a==x")]), "a"), Some("=x".to_string()));
    let mut binary = Headers::new();
    binary.push("cookie", vec![b'a', b'=', 0xff]);
    assert_eq!(cookie_value(&binary, "a"), None);
    assert!(binary.contains("cookie"));
    assert_eq!(headers(&[("x", "1"), ("x", "2")]).text("x"), Some("1".to_string()));
}

#[test]
fn identifiers_are_fresh_and_well_formed() {
    let a = new_id("job_");
    let b = new_id("job_");
    assert_ne!(a, b);
    assert_eq!(a.len(), 40);
    assert!(a.starts_with("job_"));
    let uuid = &a[4..];
    assert_eq!(uuid.as_bytes()[8], b'-');
    assert_eq!(uuid.as_bytes()[14], b'4');
    assert_eq!(uuid.chars().filter(|c| *c == '-').count(), 4);
}

#[test]
fn clock_counts_from_the_epoch() {
    assert!(now_secs() > 1_600_000_000);
    assert_eq!(seconds(Some(7)), 7);
    assert_eq!(seconds(None), 0);
}

#[test]
fn sessions_are_known_by_their_key() {
    let mut sessions: Table<Session> = Table::new();
    sessions.insert("k".to_string(), Session { csrf: "c".to_string(), expires_at: 10 });
    sessions.insert("old".to_string(), Session { csrf: "d".to_string(), expires_at: 5 });
    let info = authenticate_session("k", &mut sessions, 5).ok().unwrap();
    assert_eq!((info.kind.name(), info.csrf), ("session", Some("c".to_string())));
    assert_eq!(sessions.len(), 1);
    assert_eq!(code(authenticate_session("k", &mut sessions, 10)), (401, "UNAUTHORIZED"));
    assert_eq!(sessions.len(), 0);
    let carried = headers(&[("authorization", "Bearer secret")]);
    assert_eq!(authenticate(TOKEN, &carried, &mut sessions).ok().unwrap().kind.name(), "bearer");
}

#[test]
fn refusals_do_not_wait_for_the_clock() {
    let mut sessions: Table<Session> = Table::new();
    let refused = login(TOKEN, false, &headers(&[]), "wrong", &mut sessions).unwrap();
    assert_eq!(code(refused), (401, "INVALID_CREDENTIALS"));
    assert_eq!(code(refresh_csrf(&headers(&[]), &mut sessions).unwrap()), (401, "UNAUTHORIZED"));
    let late = login_with(
        TOKEN,
        false,
        &headers(&[]),
        "wrong",
        "id",
        "c".to_string(),
        &mut sessions,
        u64::MAX,
    );
    assert_eq!(code(late), (401, "INVALID_CREDENTIALS"));
    assert_eq!(sessions.len(), 0);
}

#[test]
fn login_has_an_answer_unless_the_clock_is_too_late() {
    let mut known = sessions("abc", "c", 100);
    let mut at = |supplied: &str, now: u64| {
        let r = login_at(
            TOKEN,
            false,
            &headers(&[]),
            supplied,
            "the-id",
            "the-csrf".to_string(),
            &mut known,
            now,
        );
        (r, known.len())
    };
    let last = u64::MAX - SESSION_TTL_SECS;
    let (refused, left) = at("wrong", u64::MAX);
    assert_eq!((code(refused.unwrap()), left), ((401, "INVALID_CREDENTIALS"), 1));
    let (none, left) = at("secret", last + 1);
    assert!(none.is_none());
    assert_eq!(left, 1);
    let (reply, left) = at("secret", last);
    assert_eq!((reply.unwrap().ok().unwrap().csrf.as_str(), left), ("the-csrf", 2));
    assert_eq!(known.get(&hash_string("the-id")).unwrap().expires_at, u64::MAX);
}

#[test]
fn refresh_has_an_answer_unless_the_clock_is_too_late() {
    let request = headers(&[("cookie", "llm_wiki_session=abc")]);
    let mut known = sessions("abc", "old", 100);
    let stranger = refresh_csrf_at(&headers(&[]), "new".to_string(), &mut known, u64::MAX);
    assert_eq!(code(stranger.unwrap()), (401, "UNAUTHORIZED"));
    assert!(refresh_csrf_at(&request, "new".to_string(), &mut known, u64::MAX).is_none());
    assert_eq!(known.get(&hash_string("abc")).unwrap().csrf, "old");
    let csrf = refresh_csrf_at(&request, "new".to_string(), &mut known, 50).unwrap();
    assert_eq!(csrf.ok().unwrap(), "new");
    let session = known.get(&hash_string("abc")).unwrap();
    assert_eq!((session.csrf.as_str(), session.expires_at), ("new", 50 + SESSION_TTL_SECS));
}
