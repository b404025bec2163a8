use llm_wiki_server::chat::{
    add_session, answer_to_store, append_answer, append_answer_at, append_question,
    append_question_at, begin_turn, chat_message, create_chat_session, end_turn,
    get_chat_session_for_project, list_chat_sessions, load_chat_sessions, message_with, new_message,
    session_with, settle_answer, settle_question, start_turn, start_turn_at, turn_events,
    turn_message, turn_step, ChatMessage, ChatSession, Kept, TurnStep,
};
use llm_wiki_server::config::Assignments;
use llm_wiki_server::error::ApiError;
use llm_wiki_server::json::{Json, JsonObject, Number};
use llm_wiki_server::provider::{
    chat_provider_config_from, check_endpoint, provider_answer, provider_failed, provider_settings,
    request_body, validate_provider_endpoint, UrlHost, UrlParts,
};
use llm_wiki_server::table::Table;

fn code<T>(r: Result<T, ApiError>) -> (u16, &'static str) {
    let error = r.err().unwrap();
    (error.status, error.code)
}

fn object(items: Vec<(&str, Json)>) -> Json {
    let mut object = JsonObject::new();
    for (key, value) in items {
        object.set(key.to_string(), value);
    }
    Json::Object(object)
}

fn text(value: &str) -> Json {
    Json::Text(value.to_string())
}

fn session(id: &str, project: &str, title: Option<&str>, now: u64) -> ChatSession {
    session_with(id.to_string(), project.to_string(), title.map(|t| t.to_string()), now)
}

fn message(content: &str) -> ChatMessage {
    message_with("m1".to_string(), "user", content.to_string(), 5)
}

fn table(sessions: Vec<ChatSession>) -> Table<ChatSession> {
    load_chat_sessions(&sessions)
}

#[test]
fn chat_provider_uses_web_chat_settings_with_environment_precedence() {
    let settings = object(vec![(
        "webChat",
        object(vec![
            ("endpoint", text("http://127.0.0.1:8080/v1/chat/completions")),
            ("model", text("settings-model")),
            ("apiKey", text("settings-key")),
        ]),
    )]);
    let none = Assignments::empty();
    let provider = chat_provider_config_from(&settings, &none).ok().unwrap();
    assert_eq!(
        provider.endpoint,
        "http://127.0.0.1:8080/v1/chat/completions"
    );
    assert_eq!(provider.model, "settings-model");
    assert_eq!(provider.api_key.as_deref(), Some("settings-key"));

    let mut env = Assignments::empty();
    for (name, value) in [
        (
            "LLM_WIKI_LLM_ENDPOINT",
            "http://127.0.0.1:8081/v1/chat/completions",
        ),
        ("LLM_WIKI_LLM_MODEL", "environment-model"),
        ("LLM_WIKI_LLM_API_KEY", "environment-key"),
    ] {
        env.assign(name.to_string(), value.to_string());
    }
    let environment = chat_provider_config_from(&settings, &env).ok().unwrap();
    assert_eq!(
        environment.endpoint,
        "http://127.0.0.1:8081/v1/chat/completions"
    );
    assert_eq!(environment.model, "environment-model");
    assert_eq!(environment.api_key.as_deref(), Some("environment-key"));

    let settings = object(vec![(
        "webChat",
        object(vec![
            ("endpoint", text("http://example.test/v1/chat/completions")),
            ("model", text("settings-model")),
        ]),
    )]);
    assert_eq!(
        chat_provider_config_from(&settings, &none)
            .err()
            .unwrap()
            .code,
        "INVALID_LLM_ENDPOINT"
    );
}

#[test]
fn provider_must_be_configured() {
    let none = Assignments::empty();
    let empty = object(vec![]);
    let error = provider_settings(&empty, &none).err().unwrap();
    assert_eq!((error.status, error.code), (503, "CHAT_NOT_CONFIGURED"));
    assert_eq!(error.message, "LLM endpoint is not configured");
    let mut env = Assignments::empty();
    env.assign("LLM_WIKI_LLM_ENDPOINT".to_string(), "https://a".to_string());
    env.assign("LLM_WIKI_LLM_MODEL".to_string(), "  ".to_string());
    assert_eq!(
        chat_provider_config_from(&empty, &env).err().unwrap().message,
        "LLM model is not configured"
    );
    env.assign("LLM_WIKI_LLM_MODEL".to_string(), "m".to_string());
    env.assign("LLM_WIKI_LLM_API_KEY".to_string(), "".to_string());
    assert_eq!(chat_provider_config_from(&empty, &env).ok().unwrap().api_key, None);
}

#[test]
fn endpoints_are_encrypted_or_local() {
    for good in [
        "https://api.example.com/v1",
        "http://localhost:1234/",
        "http://LOCALHOST/",
        "http://127.8.9.10/",
    ] {
        assert!(validate_provider_endpoint(good).is_ok(), "{}", good);
    }
    for bad in [
        "http://example.com/",
        "http://[::1]/",
        "https://user@example.com/",
        "https://:secret@example.com/",
        "ftp://localhost/",
        "not a url",
        "/relative",
    ] {
        assert_eq!(code(validate_provider_endpoint(bad)), (400, "INVALID_LLM_ENDPOINT"), "{}", bad);
    }
}

#[test]
fn endpoint_parts_decide() {
    let parts = |scheme: &str, host: UrlHost| {
        Some(UrlParts {
            scheme: scheme.to_string(),
            username: String::new(),
            has_password: false,
            host,
        })
    };
    assert!(check_endpoint(&parts("https", UrlHost::Missing)).is_ok());
    assert!(check_endpoint(&parts("http", UrlHost::V4([127, 1, 1, 1]))).is_ok());
    assert!(check_endpoint(&parts("http", UrlHost::V4([10, 1, 1, 1]))).is_err());
    assert!(check_endpoint(&parts("http", UrlHost::V6)).is_err());
    assert!(check_endpoint(&parts("http", UrlHost::Name("LocalHost".to_string()))).is_ok());
    let error = check_endpoint(&None).err().unwrap();
    assert_eq!(error.message, "LLM_WIKI_LLM_ENDPOINT must be an absolute HTTP(S) URL");
}

#[test]
fn openai_compatible_provider_response_is_consumed() {
    let body = object(vec![(
        "choices",
        Json::List(vec![object(vec![(
            "message",
            object(vec![("content", text("hello"))]),
        )])]),
    )]);
    assert_eq!(provider_answer(200, "200 OK", &body).ok().unwrap(), "hello");
}

#[test]
fn provider_failures_are_told() {
    let empty = object(vec![("choices", Json::List(vec![]))]);
    assert_eq!(code(provider_answer(200, "200 OK", &empty)), (502, "LLM_INVALID_RESPONSE"));
    let error = provider_answer(500, "500 Internal Server Error", &empty).err().unwrap();
    assert_eq!(error.message, "provider returned 500 Internal Server Error");
    assert_eq!(provider_failed("no route").code, "LLM_ERROR");
    let keyed = object(vec![(
        "choices",
        object(vec![("0", object(vec![("message", object(vec![("content", text("x"))]))]))]),
    )]);
    assert_eq!(provider_answer(299, "299", &keyed).ok().unwrap(), "x");
    let wrong = object(vec![(
        "choices",
        Json::List(vec![object(vec![(
            "message",
            object(vec![("content", Json::Number(Number::Unsigned(1)))]),
        )])]),
    )]);
    assert!(provider_answer(200, "200 OK", &wrong).is_err());
}

#[test]
fn requests_carry_model_and_messages() {
    let body = request_body("test-model", &vec![message("hi")]);
    assert_eq!(body.get("model").unwrap().as_text().unwrap(), "test-model");
    assert!(matches!(body.get("stream"), Some(Json::Bool(false))));
    match body.get("messages") {
        Some(Json::List(items)) => {
            assert_eq!(items.len(), 1);
            assert_eq!(items[0].get("role").unwrap().as_text().unwrap(), "user");
            assert_eq!(items[0].get("content").unwrap().as_text().unwrap(), "hi");
            assert!(items[0].get("id").is_none());
        }
        _ => panic!("messages are a list"),
    }
}

#[test]
fn chat_sessions_are_private_and_restore_after_restart() {
    let created = create_chat_session("p1".to_string(), Some("Persisted chat".to_string()));
    assert!(created.id.starts_with("chat_"));
    let sessions = add_session(&Table::new(), &created);
    let kept = vec![get_chat_session_for_project(&sessions, "p1", &created.id).ok().unwrap()];
    let restored = load_chat_sessions(&kept);
    let session = restored.get(&created.id).unwrap();
    assert_eq!(session.project_id, "p1");
    assert_eq!(session.title.as_deref(), Some("Persisted chat"));
    assert_eq!(
        code(get_chat_session_for_project(&restored, "p2", &created.id)),
        (404, "CHAT_SESSION_NOT_FOUND")
    );
    assert!(get_chat_session_for_project(&restored, "p1", "other").is_err());
}

#[test]
fn blank_titles_are_none() {
    assert_eq!(session("a", "p", Some("  "), 1).title, None);
    assert_eq!(session("a", "p", Some(" x "), 1).title, Some(" x ".to_string()));
    assert_eq!(session("a", "p", None, 1).messages.len(), 0);
}

#[test]
fn sessions_are_listed_by_their_latest_change() {
    let sessions = table(vec![
        session("a", "p", None, 1),
        session("b", "p", Some("B"), 3),
        session("c", "p", None, 3),
        session("d", "q", None, 9),
    ]);
    let listed = list_chat_sessions(&sessions, "p");
    let ids: Vec<&str> = listed.iter().map(|summary| summary.id.as_str()).collect();
    assert_eq!(ids, vec!["b", "c", "a"]);
    assert_eq!(listed[0].title, Some("B".to_string()));
    assert_eq!((listed[0].created_at, listed[0].updated_at), (3, 3));
}

#[test]
fn messages_are_required() {
    assert_eq!(code(chat_message(" \n".to_string())), (400, "MESSAGE_REQUIRED"));
    assert_eq!(code(turn_message("")), (400, "MESSAGE_REQUIRED"));
    assert_eq!(chat_message(" hi ".to_string()).ok().unwrap().content, " hi ");
    let sent = turn_message(" hi ").ok().unwrap();
    assert_eq!((sent.role.as_str(), sent.content.as_str()), ("user", "hi"));
    assert_eq!(new_message("assistant", "x".to_string()).role, "assistant");
}

#[test]
fn first_question_titles_the_session() {
    let sessions = table(vec![session("a", "p", None, 1), session("b", "p", None, 1)]);
    let long = "x".repeat(100);
    let (after, messages) = append_question_at(&sessions, "a", &message(&long), 8).ok().unwrap();
    let a = after.get("a").unwrap();
    assert_eq!(a.title.as_ref().unwrap().len(), 80);
    assert_eq!((a.updated_at, a.created_at), (8, 1));
    assert_eq!(messages.len(), 1);
    assert_eq!(after.get("b").unwrap().messages.len(), 0);
    let (later, messages) = append_question_at(&after, "a", &message("second"), 9).ok().unwrap();
    assert_eq!(later.get("a").unwrap().title, a.title);
    assert_eq!(messages.len(), 2);
    assert_eq!(messages[1].content, "second");
    assert_eq!(
        code(append_question(&sessions, "z", &message("x"))),
        (404, "CHAT_SESSION_NOT_FOUND")
    );
}

#[test]
fn answers_are_appended() {
    let sessions = table(vec![session("a", "p", None, 1)]);
    let answer = message_with("m2".to_string(), "assistant", "yes".to_string(), 6);
    let after = append_answer_at(&sessions, "a", &answer, 7).unwrap();
    let a = after.get("a").unwrap();
    assert_eq!((a.messages.len(), a.updated_at), (1, 7));
    assert_eq!(a.title, None);
    assert!(append_answer_at(&sessions, "z", &answer, 7).is_none());
    let fresh = append_answer(&sessions, "a", "hello").unwrap();
    assert_eq!(fresh.get("a").unwrap().messages[0].role, "assistant");
    assert!(append_answer(&sessions, "z", "hello").is_none());
}

#[test]
fn one_turn_at_a_time() {
    let mut active: Table<String> = Table::new();
    assert!(begin_turn(&mut active, "a").is_ok());
    assert_eq!(code(begin_turn(&mut active, "a")), (409, "CHAT_TURN_ACTIVE"));
    assert!(begin_turn(&mut active, "b").is_ok());
    end_turn(&mut active, "a");
    assert!(begin_turn(&mut active, "a").is_ok());
}

#[test]
fn turns_end_with_events() {
    let names = |step: &TurnStep, kept: &Kept| -> Vec<String> {
        turn_events(step, kept).into_iter().map(|event| event.event).collect()
    };
    let store = turn_step(Ok("hi".to_string()), false);
    assert_eq!(names(&store, &Kept::Stored), vec!["delta", "done"]);
    assert_eq!(names(&store, &Kept::Missing), vec!["done"]);
    let failed = Kept::Failed(ApiError::new(500, "IO_ERROR", "disk full"));
    assert_eq!(names(&store, &failed), vec!["error", "done"]);
    let events = turn_events(&store, &failed);
    assert_eq!(events[0].data.get("error").unwrap().as_text().unwrap(), "disk full");
    assert_eq!(events[1].data.as_text().unwrap(), "[DONE]");
    let told = turn_events(&store, &Kept::Stored);
    assert_eq!(told[0].data.get("delta").unwrap().as_text().unwrap(), "hi");
    let late = turn_step(Ok("hi".to_string()), true);
    assert_eq!(names(&late, &Kept::Missing), vec!["done"]);
    let cancelled = turn_step(Err("cancelled".to_string()), true);
    assert!(matches!(cancelled, TurnStep::Nothing));
    let broken = turn_step(Err("no route".to_string()), false);
    assert_eq!(names(&broken, &Kept::Missing), vec!["error", "done"]);
}

#[test]
fn questions_start_turns() {
    let mut sessions = table(vec![session("a", "p", None, 1)]);
    let mut active: Table<String> = Table::new();
    let question = message("why?");
    assert_eq!(
        code(start_turn(&sessions, &mut active, "q", "a", &question)),
        (404, "CHAT_SESSION_NOT_FOUND")
    );
    assert_eq!(active.len(), 0);
    let (candidate, messages) =
        start_turn_at(&sessions, &mut active, "p", "a", &question, 9).ok().unwrap();
    assert_eq!(messages.len(), 1);
    assert_eq!(active.len(), 1);
    assert_eq!(
        code(start_turn(&sessions, &mut active, "p", "a", &question)),
        (409, "CHAT_TURN_ACTIVE")
    );
    assert!(settle_question(&mut sessions, &mut active, "a", candidate, Ok(())).is_ok());
    assert_eq!(active.len(), 1);
    assert_eq!(sessions.get("a").unwrap().updated_at, 9);
}

#[test]
fn questions_that_cannot_be_stored_free_the_session() {
    let mut sessions = table(vec![session("a", "p", None, 1)]);
    let mut active: Table<String> = Table::new();
    let (candidate, _) =
        start_turn(&sessions, &mut active, "p", "a", &message("why?")).ok().unwrap();
    let failed = Err(ApiError::new(500, "IO_ERROR", "disk full"));
    let settled = settle_question(&mut sessions, &mut active, "a", candidate, failed);
    assert_eq!(code(settled), (500, "IO_ERROR"));
    assert_eq!(active.len(), 0);
    assert_eq!(sessions.get("a").unwrap().messages.len(), 0);
    assert!(start_turn(&sessions, &mut active, "p", "a", &message("again?")).is_ok());
}

#[test]
fn answers_are_stored_or_told_about() {
    let mut sessions = table(vec![session("a", "p", None, 1)]);
    let step = turn_step(Ok("because".to_string()), false);
    assert!(answer_to_store(&sessions, "z", &step).is_none());
    assert!(answer_to_store(&sessions, "a", &TurnStep::Nothing).is_none());
    let candidate = answer_to_store(&sessions, "a", &step).unwrap();
    let failed = Err(ApiError::new(500, "IO_ERROR", "disk full"));
    assert!(matches!(settle_answer(&mut sessions, candidate, failed), Kept::Failed(_)));
    assert_eq!(sessions.get("a").unwrap().messages.len(), 0);
    let candidate = answer_to_store(&sessions, "a", &step).unwrap();
    assert!(matches!(settle_answer(&mut sessions, candidate, Ok(())), Kept::Stored));
    assert_eq!(sessions.get("a").unwrap().messages[0].content, "because");
}
