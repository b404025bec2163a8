use llm_wiki_server::chat::{
    add_session, create_chat_session, get_chat_session_for_project,
};
use llm_wiki_server::config::{Assignments, CommandLine, IpAddress, ServerConfig};
use llm_wiki_server::error::ApiError;
use llm_wiki_server::json::{copy_json, Json, JsonObject, Number};
use llm_wiki_server::paths::{IoFailure, IoKind};
use llm_wiki_server::reviews::{invalid_review_state, patch_review, unread_reviews, update_review};
use llm_wiki_server::settings::{
    is_sensitive_key, merge_json, patch_settings, redact_settings, web_chat_setting,
};
use llm_wiki_server::state::{load_settings, readiness, AppState, Roots};
use llm_wiki_server::index::scan_failed;
use llm_wiki_server::store::{serialize_failed, settle};
use llm_wiki_server::table::Table;
use llm_wiki_server::web::{canonicalize_web_root, locate_web_root};

fn object(items: Vec<(&str, Json)>) -> Json {
    let mut object = JsonObject::new();
    for (key, value) in items {
        object.set(key.to_string(), value);
    }
    Json::Object(object)
}

fn text(value: &str) -> Json {
    Json::Text(value.to_string())
}

fn at<'a>(value: &'a Json, keys: &[&str]) -> Option<&'a Json> {
    let mut value = value;
    for key in keys {
        value = value.get(key)?;
    }
    Some(value)
}

fn size(value: &Json) -> usize {
    match value {
        Json::Object(object) => object.len(),
        _ => panic!("not an object"),
    }
}

fn show(value: &Json) -> String {
    match value {
        Json::Null => "null".to_string(),
        Json::Bool(b) => format!("{}", b),
        Json::Number(Number::Unsigned(n)) => format!("{}", n),
        Json::Number(Number::Negative(n)) => format!("{}", n),
        Json::Number(Number::FloatBits(n)) => format!("{}", f64::from_bits(*n)),
        Json::Text(text) => text.clone(),
        Json::List(items) => items.iter().map(show).collect::<Vec<_>>().join(","),
        Json::Object(object) => (0..object.len())
            .map(|i| format!("{}:{}", object.key_at(i), show(object.value_at(i))))
            .collect::<Vec<_>>()
            .join(";"),
    }
}

#[test]
fn settings_reviews_and_chat_sessions_follow_client_shapes() {
    let patch = object(vec![
        (
            "nested",
            object(vec![("api-key", text("private")), ("enabled", Json::Bool(true))]),
        ),
        (
            "webChat",
            object(vec![
                ("endpoint", text("http://127.0.0.1:8080/v1/chat/completions")),
                ("model", text("settings-model")),
                ("apiKey", text("chat-private")),
            ]),
        ),
    ]);
    let updated = patch_settings(&object(vec![]), &patch).ok().unwrap();
    let shown = redact_settings(&updated);
    assert!(!show(&shown).contains("private"));
    assert!(matches!(at(&shown, &["nested", "api-key", "configured"]), Some(Json::Bool(true))));
    assert!(matches!(at(&shown, &["webChat", "apiKey", "configured"]), Some(Json::Bool(true))));
    assert!(matches!(at(&shown, &["nested", "enabled"]), Some(Json::Bool(true))));

    let reviews = vec![object(vec![("id", text("r1")), ("title", text("Review"))])];
    let patch = object(vec![("status", text("resolved")), ("action", text("accept"))]);
    let (kept, review) = update_review(reviews, "r1", &patch).ok().unwrap();
    assert_eq!(at(&review, &["status"]).unwrap().as_text().unwrap(), "resolved");
    assert_eq!(at(&review, &["action"]).unwrap().as_text().unwrap(), "accept");
    assert!(matches!(at(&review, &["resolved"]), Some(Json::Bool(true))));
    assert_eq!(show(&kept[0]), show(&review));

    let created = create_chat_session("p1".to_string(), Some("Chat".to_string()));
    assert_eq!(created.title.as_deref(), Some("Chat"));
    let sessions = add_session(&Table::new(), &created);
    let detail = get_chat_session_for_project(&sessions, "p1", &created.id).ok().unwrap();
    assert_eq!(detail.id, created.id);
    assert_eq!(detail.project_id, "p1");
    assert_eq!(detail.title.as_deref(), Some("Chat"));
}

#[test]
fn settings_persistence_failure_does_not_mutate_memory() {
    let mut settings = object(vec![]);
    let patch = object(vec![("ui", object(vec![("language", text("zh"))]))]);
    let candidate = patch_settings(&settings, &patch).ok().unwrap();
    assert_eq!(at(&candidate, &["ui", "language"]).unwrap().as_text().unwrap(), "zh");
    let failed = Err(ApiError::new(500, "IO_ERROR", "disk full"));
    assert_eq!(settle(&mut settings, candidate, failed).err().unwrap().status, 500);
    assert_eq!(size(&settings), 0);
}

#[test]
fn patches_merge_and_remove() {
    let mut settings = object(vec![
        ("a", object(vec![("x", text("1")), ("y", text("2"))])),
        ("b", text("old")),
    ]);
    let patch = object(vec![
        ("a", object(vec![("y", Json::Null), ("z", text("3"))])),
        ("b", Json::List(vec![text("n")])),
        ("c", object(vec![("d", Json::Null)])),
        ("e", Json::Null),
    ]);
    merge_json(&mut settings, &patch);
    assert_eq!(at(&settings, &["a", "x"]).unwrap().as_text().unwrap(), "1");
    assert!(at(&settings, &["a", "y"]).is_none());
    assert_eq!(at(&settings, &["a", "z"]).unwrap().as_text().unwrap(), "3");
    assert!(matches!(at(&settings, &["b"]), Some(Json::List(_))));
    assert!(at(&settings, &["e"]).is_none());
    let error = patch_settings(&settings, &text("x")).err().unwrap();
    assert_eq!((error.status, error.code), (400, "INVALID_SETTINGS"));
    let same = patch_settings(&settings, &object(vec![])).ok().unwrap();
    assert_eq!(size(&same), size(&settings));
}

#[test]
fn new_members_keep_the_patch_without_its_nulls_or_whole() {
    let mut settings = object(vec![]);
    merge_json(&mut settings, &object(vec![("c", object(vec![("d", Json::Null), ("e", text("1"))]))]));
    let c = at(&settings, &["c"]).unwrap();
    assert!(matches!(c.get("d"), Some(Json::Null)));
    assert_eq!(c.get("e").unwrap().as_text().unwrap(), "1");
}

#[test]
fn sensitive_keys_are_known_in_every_spelling() {
    for key in ["apiKey", "API_KEY", "api-key", "accessToken", "clientSecret", "PassWord", "credentials"] {
        assert!(is_sensitive_key(key), "{}", key);
    }
    for key in ["model", "key", "api", "tok_en_x"] {
        assert_eq!(is_sensitive_key(key), key == "tok_en_x", "{}", key);
    }
}

#[test]
fn redaction_tells_only_whether_there_is_a_secret() {
    let settings = object(vec![
        ("token", text("")),
        ("secret", Json::Null),
        ("password", Json::Bool(false)),
        ("list", Json::List(vec![object(vec![("apiKey", text("k"))])])),
    ]);
    let shown = redact_settings(&settings);
    assert!(matches!(at(&shown, &["token", "configured"]), Some(Json::Bool(false))));
    assert!(matches!(at(&shown, &["secret", "configured"]), Some(Json::Bool(false))));
    assert!(matches!(at(&shown, &["password", "configured"]), Some(Json::Bool(true))));
    match at(&shown, &["list"]) {
        Some(Json::List(items)) => {
            assert!(matches!(at(&items[0], &["apiKey", "configured"]), Some(Json::Bool(true))))
        }
        _ => panic!("the list is kept"),
    }
}

#[test]
fn web_chat_settings_are_texts_that_are_not_blank() {
    let settings = object(vec![(
        "webChat",
        object(vec![("model", text("m")), ("endpoint", text("  ")), ("apiKey", Json::Bool(true))]),
    )]);
    assert_eq!(web_chat_setting(&settings, "model"), Some("m".to_string()));
    assert_eq!(web_chat_setting(&settings, "endpoint"), None);
    assert_eq!(web_chat_setting(&settings, "apiKey"), None);
    assert_eq!(web_chat_setting(&object(vec![("webChat", text("x"))]), "model"), None);
    assert_eq!(web_chat_setting(&object(vec![]), "model"), None);
}

#[test]
fn settings_at_the_start_are_an_object() {
    assert_eq!(size(&load_settings(None).ok().unwrap()), 0);
    assert_eq!(size(&load_settings(Some(object(vec![("a", Json::Null)]))).ok().unwrap()), 1);
    assert_eq!(
        load_settings(Some(Json::List(vec![]))).err().unwrap(),
        "invalid settings.json: top level must be an object"
    );
}

#[test]
fn reviews_change_in_five_members_only() {
    let review = object(vec![("id", text("r1")), ("title", text("T")), ("resolved", Json::Bool(true))]);
    let patch = object(vec![
        ("id", text("r9")),
        ("title", text("X")),
        ("notes", text("n")),
        ("resolution", Json::Null),
        ("resolved", Json::Bool(false)),
    ]);
    let changed = patch_review(&review, &patch);
    assert_eq!(changed.get("id").unwrap().as_text().unwrap(), "r1");
    assert_eq!(changed.get("title").unwrap().as_text().unwrap(), "T");
    assert_eq!(changed.get("notes").unwrap().as_text().unwrap(), "n");
    assert!(matches!(changed.get("resolution"), Some(Json::Null)));
    assert!(matches!(changed.get("resolved"), Some(Json::Bool(false))));
    let open = patch_review(&review, &object(vec![("status", text("open"))]));
    assert!(matches!(open.get("resolved"), Some(Json::Bool(false))));
    let kept = patch_review(&review, &text("x"));
    assert_eq!(show(&kept), show(&review));
}

#[test]
fn missing_reviews_are_told() {
    let reviews = vec![object(vec![("id", text("a"))]), object(vec![("id", text("b"))])];
    let copy: Vec<Json> = reviews.iter().map(copy_json).collect();
    let error = update_review(copy, "c", &object(vec![])).err().unwrap();
    assert_eq!((error.status, error.code), (404, "REVIEW_NOT_FOUND"));
    let patch = object(vec![("notes", text("n"))]);
    let (after, _) = update_review(reviews, "b", &patch).ok().unwrap();
    assert!(after[0].get("notes").is_none());
    assert!(after[1].get("notes").is_some());
    let failure = |kind: IoKind| IoFailure { kind, message: "m".to_string() };
    assert_eq!(unread_reviews(&failure(IoKind::NotFound)).ok().unwrap().len(), 0);
    assert_eq!(unread_reviews(&failure(IoKind::Other)).err().unwrap().code, "IO_ERROR");
    assert_eq!(invalid_review_state("bad").code, "INVALID_REVIEW_STATE");
}

#[test]
fn state_starts_with_what_was_loaded() {
    let line = ["x", "--workspace-root", "w", "--data-dir", "d", "--token", "0123456789abcdef0123456789abcdef"];
    let args: Vec<String> = line.iter().map(|arg| arg.to_string()).collect();
    let line = CommandLine::parse(&args).ok().unwrap();
    let config = ServerConfig::resolve(&line, &Assignments::empty(), Ok(IpAddress::V4([127, 0, 0, 1])))
        .ok()
        .unwrap();
    let roots = Roots {
        workspace_root: "/w".to_string(),
        data_dir: "/d".to_string(),
        web_root: "/web".to_string(),
    };
    let state = AppState::new(config, roots, Table::new(), object(vec![]), Table::new(), Table::new());
    assert_eq!(state.config.workspace_root, "/w");
    assert_eq!(state.config.data_dir, "/d");
    assert_eq!(state.config.web_root, "/web");
    assert_eq!(state.config.port, 19828);
    assert_eq!(state.sessions.len(), 0);
    assert_eq!(state.chat_turns.len(), 0);
    assert!(readiness(true, true).is_ok());
    assert_eq!(readiness(true, false).err().unwrap().code, "NOT_READY");
    assert_eq!(readiness(false, true).err().unwrap().status, 503);
    assert_eq!(serialize_failed("m").code, "SERIALIZE_ERROR");
    assert_eq!(scan_failed("m").message, "m");
}

#[test]
fn startup_canonicalizes_symlinked_web_root() {
    let config = ServerConfig {
        host: IpAddress::V4([127, 0, 0, 1]),
        port: 0,
        workspace_root: "/base/workspace".to_string(),
        data_dir: "/base/data".to_string(),
        web_root: "/base/web-link".to_string(),
        bootstrap_token: "secret".to_string(),
        allow_insecure_remote: false,
        secure_cookie: false,
        app_state: None,
    };
    let location = locate_web_root(&config.web_root, Ok("/".to_string())).unwrap();
    assert_eq!(location, "/base/web-link");
    let roots = Roots {
        workspace_root: config.workspace_root.clone(),
        data_dir: config.data_dir.clone(),
        web_root: canonicalize_web_root(Ok("/base/web".to_string()), true).unwrap(),
    };
    let state =
        AppState::new(config, roots, Table::new(), object(vec![]), Table::new(), Table::new());
    assert_eq!(state.config.web_root, "/base/web");
}

#[test]
fn secrets_at_any_depth_leave_no_trace() {
    let with = |key: &str, model: &str| {
        object(vec![
            ("webChat", object(vec![("apiKey", text(key)), ("model", text(model))])),
            ("list", Json::List(vec![object(vec![("access_token", text(key))])])),
        ])
    };
    let shown = show(&redact_settings(&with("first", "m")));
    assert_eq!(shown, show(&redact_settings(&with("second", "m"))));
    assert!(shown != show(&redact_settings(&with("", "m"))));
    assert!(shown != show(&redact_settings(&with("first", "n"))));
}

#[test]
fn patches_settle_unless_they_leave_nulls() {
    let twice = |settings: Json, patch: Json| -> (String, String) {
        let once = patch_settings(&settings, &patch).ok().unwrap();
        let again = patch_settings(&once, &patch).ok().unwrap();
        (show(&once), show(&again))
    };
    let (once, again) = twice(
        object(vec![("a", object(vec![("b", text("1")), ("c", text("2"))]))]),
        object(vec![("a", object(vec![("b", Json::Null), ("d", text("3"))]))]),
    );
    assert_eq!(once, "a:c:2;d:3");
    assert_eq!(once, again);
    let (once, again) =
        twice(object(vec![]), object(vec![("a", object(vec![("b", Json::Null)]))]));
    assert_eq!(once, "a:b:null");
    assert_eq!(again, "a:");
}
