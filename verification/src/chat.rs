//! Chat sessions, and the turns that are taken in them.

use vstd::prelude::*;

use crate::clock::now_secs;
use crate::error::{ApiError, ErrorView, copy_optional, optional, outcome, plain_error, verdict};
use crate::ids::{is_identifier, new_id};
use crate::json::{Json, JsonObject, JsonView, lemma_view};
use crate::order::{
    KeyView, SortKey, is_stable_order, key_less, key_views, law_sorting_keeps_items,
    lemma_order_exists, order_of, sort_by_keys, sorted,
};
use crate::store::{settle, settled};
use crate::table::{
    Record, Table, keys_of, lemma_keys_exist, lemma_values_of, lists_keys, values_of,
};
use crate::text::{
    chars_of, head, is_blank, law_blank_text_is_white_space, same, take_chars, text_of, trim_text,
    trimmed, white_space,
};

verus! {

/// A message in a chat session.
pub struct ChatMessage {
    pub id: String,
    pub role: String,
    pub content: String,
    pub created_at: u64,
}

/// The view of a [`ChatMessage`].
pub struct MessageView {
    pub id: Seq<char>,
    pub role: Seq<char>,
    pub content: Seq<char>,
    pub created_at: u64,
}

impl View for ChatMessage {
    type V = MessageView;

    open spec fn view(&self) -> MessageView {
        MessageView {
            id: self.id@,
            role: self.role@,
            content: self.content@,
            created_at: self.created_at,
        }
    }
}

/// The views of messages.
pub open spec fn message_views(messages: Seq<ChatMessage>) -> Seq<MessageView> {
    Seq::new(messages.len(), |i: int| messages[i]@)
}

/// A copy of a message.
pub fn copy_message(message: &ChatMessage) -> (r: ChatMessage)
    ensures
        r@ == message@,
{
    ChatMessage {
        id: message.id.clone(),
        role: message.role.clone(),
        content: message.content.clone(),
        created_at: message.created_at,
    }
}

/// A copy of messages.
pub fn copy_messages(messages: &Vec<ChatMessage>) -> (r: Vec<ChatMessage>)
    ensures
        message_views(r@) == message_views(messages@),
{
    let ghost all = message_views(messages@);
    let mut r: Vec<ChatMessage> = Vec::new();
    let mut i: usize = 0;
    while i < messages.len()
        invariant
            i <= messages@.len(),
            all == message_views(messages@),
            message_views(r@) == all.take(i as int),
        decreases messages@.len() - i,
    {
        let ghost before = message_views(r@);
        let copy = copy_message(&messages[i]);
        r.push(copy);
        assert(message_views(r@) =~= before.push(all[i as int]));
        assert(all.take(i + 1) =~= all.take(i as int).push(all[i as int]));
        i += 1;
    }
    assert(all.take(i as int) =~= all);
    r
}

/// A chat session of a project.
pub struct ChatSession {
    pub id: String,
    pub project_id: String,
    pub title: Option<String>,
    pub created_at: u64,
    pub updated_at: u64,
    pub messages: Vec<ChatMessage>,
}

/// The view of a [`ChatSession`].
pub struct ChatView {
    pub id: Seq<char>,
    pub project_id: Seq<char>,
    pub title: Option<Seq<char>>,
    pub created_at: u64,
    pub updated_at: u64,
    pub messages: Seq<MessageView>,
}

impl View for ChatSession {
    type V = ChatView;

    open spec fn view(&self) -> ChatView {
        ChatView {
            id: self.id@,
            project_id: self.project_id@,
            title: optional(self.title),
            created_at: self.created_at,
            updated_at: self.updated_at,
            messages: message_views(self.messages@),
        }
    }
}

impl Record for ChatSession {
    fn copied(&self) -> (r: ChatSession) {
        ChatSession {
            id: self.id.clone(),
            project_id: self.project_id.clone(),
            title: copy_optional(&self.title),
            created_at: self.created_at,
            updated_at: self.updated_at,
            messages: copy_messages(&self.messages),
        }
    }
}

/// A message made at the time `now`.
pub fn message_with(id: String, role: &str, content: String, now: u64) -> (r: ChatMessage)
    ensures
        r@ == (MessageView { id: id@, role: role@, content: content@, created_at: now }),
{
    ChatMessage { id, role: role.to_owned(), content, created_at: now }
}

/// Whether a message is one under a fresh identifier.
pub open spec fn fresh_message(message: MessageView, role: Seq<char>, content: Seq<char>) -> bool {
    is_identifier(""@, message.id) && message.role == role && message.content == content
}

/// A message under a fresh identifier, made at the time that the clock shows.
pub fn new_message(role: &str, content: String) -> (r: ChatMessage)
    ensures
        fresh_message(r@, role@, content@),
{
    message_with(new_id(""), role, content, now_secs())
}

/// Whether a message may be sent: it is not blank.
pub open spec fn message_check(message: Seq<char>) -> Result<(), ErrorView> {
    if trimmed(message).len() == 0 {
        Err(plain_error(400, "MESSAGE_REQUIRED"@, "message is required"@))
    } else {
        Ok(())
    }
}

/// Refuses a message that is blank.
pub fn check_message(message: &str) -> (r: Result<(), ApiError>)
    ensures
        verdict(r) == message_check(message@),
{
    if is_blank(message) {
        Err(ApiError::new(400, "MESSAGE_REQUIRED", "message is required"))
    } else {
        Ok(())
    }
}

/// The message that a request to chat sends, as it is.
pub fn chat_message(message: String) -> (r: Result<ChatMessage, ApiError>)
    ensures
        match r {
            Ok(sent) => message_check(message@) is Ok && fresh_message(sent@, "user"@, message@),
            Err(error) => message_check(message@) == Err::<(), ErrorView>(error@),
        },
{
    match check_message(message.as_str()) {
        Ok(()) => Ok(new_message("user", message)),
        Err(error) => Err(error),
    }
}

/// The message that a turn begins with, without white space at its ends.
pub fn turn_message(message: &str) -> (r: Result<ChatMessage, ApiError>)
    ensures
        match r {
            Ok(sent) => message_check(message@) is Ok && fresh_message(
                sent@,
                "user"@,
                trimmed(message@),
            ),
            Err(error) => message_check(message@) == Err::<(), ErrorView>(error@),
        },
{
    match check_message(message) {
        Ok(()) => Ok(new_message("user", trim_text(message))),
        Err(error) => Err(error),
    }
}

/// A title, unless it is blank.
pub open spec fn chosen_title(title: Option<Seq<char>>) -> Option<Seq<char>> {
    if title matches Some(text) && trimmed(text).len() > 0 {
        title
    } else {
        None
    }
}

/// A session without messages.
pub open spec fn empty_session(
    id: Seq<char>,
    project_id: Seq<char>,
    title: Option<Seq<char>>,
    now: u64,
) -> ChatView {
    ChatView {
        id,
        project_id,
        title: chosen_title(title),
        created_at: now,
        updated_at: now,
        messages: seq![],
    }
}

/// A session without messages, made at the time `now`.
pub fn session_with(id: String, project_id: String, title: Option<String>, now: u64) -> (r:
    ChatSession)
    ensures
        r@ == empty_session(id@, project_id@, optional(title), now),
{
    let title = match title {
        Some(text) => if is_blank(text.as_str()) {
            None
        } else {
            Some(text)
        },
        None => None,
    };
    let r = ChatSession {
        id,
        project_id,
        title,
        created_at: now,
        updated_at: now,
        messages: Vec::new(),
    };
    assert(r@.messages =~= Seq::<MessageView>::empty());
    r
}

/// A session without messages, under a fresh identifier, made at the time that the clock
/// shows.
pub fn create_chat_session(project_id: String, title: Option<String>) -> (r: ChatSession)
    ensures
        is_identifier("chat_"@, r@.id),
        r@ == empty_session(r@.id, project_id@, optional(title), r@.created_at),
{
    let now: u64 = now_secs();
    session_with(new_id("chat_"), project_id, title, now)
}

/// The sessions and one more.
pub fn add_session(sessions: &Table<ChatSession>, session: &ChatSession) -> (r: Table<ChatSession>)
    ensures
        r@ == sessions@.insert(session.id@, session@),
{
    let mut candidate = sessions.copied();
    candidate.insert(session.id.clone(), session.copied());
    candidate
}

/// The answer when there is no such session.
pub open spec fn session_not_found_spec() -> ErrorView {
    plain_error(404, "CHAT_SESSION_NOT_FOUND"@, "chat session not found"@)
}

/// The answer when there is no such session.
pub fn session_not_found() -> (e: ApiError)
    ensures
        e@ == session_not_found_spec(),
{
    ApiError::new(404, "CHAT_SESSION_NOT_FOUND", "chat session not found")
}

/// The session of a project under an identifier.
pub open spec fn session_spec(
    sessions: Map<Seq<char>, ChatView>,
    project_id: Seq<char>,
    session_id: Seq<char>,
) -> Result<ChatView, ErrorView> {
    if sessions.contains_key(session_id) && sessions[session_id].project_id == project_id {
        Ok(sessions[session_id])
    } else {
        Err(session_not_found_spec())
    }
}

/// The session of a project under an identifier.
pub fn get_chat_session_for_project(
    sessions: &Table<ChatSession>,
    project_id: &str,
    session_id: &str,
) -> (r: Result<ChatSession, ApiError>)
    ensures
        outcome(r) == session_spec(sessions@, project_id@, session_id@),
{
    match sessions.get(session_id) {
        Some(session) => if same(session.project_id.as_str(), project_id) {
            Ok(session.copied())
        } else {
            Err(session_not_found())
        },
        None => Err(session_not_found()),
    }
}

/// What a listing says of a session.
pub struct SessionSummary {
    pub id: String,
    pub title: Option<String>,
    pub created_at: u64,
    pub updated_at: u64,
}

/// The view of a [`SessionSummary`].
pub struct SummaryView {
    pub id: Seq<char>,
    pub title: Option<Seq<char>>,
    pub created_at: u64,
    pub updated_at: u64,
}

impl View for SessionSummary {
    type V = SummaryView;

    open spec fn view(&self) -> SummaryView {
        SummaryView {
            id: self.id@,
            title: optional(self.title),
            created_at: self.created_at,
            updated_at: self.updated_at,
        }
    }
}

/// The views of summaries.
pub open spec fn summary_views(summaries: Seq<SessionSummary>) -> Seq<SummaryView> {
    Seq::new(summaries.len(), |i: int| summaries[i]@)
}

/// What a listing says of a session.
pub open spec fn summary_of(session: ChatView) -> SummaryView {
    SummaryView {
        id: session.id,
        title: session.title,
        created_at: session.created_at,
        updated_at: session.updated_at,
    }
}

/// What a listing says of the sessions of a project, in the given order.
pub open spec fn project_summaries(sessions: Seq<ChatView>, project_id: Seq<char>) -> Seq<
    SummaryView,
>
    decreases sessions.len(),
{
    if sessions.len() == 0 {
        seq![]
    } else {
        let before = project_summaries(sessions.drop_last(), project_id);
        if sessions.last().project_id == project_id {
            before.push(summary_of(sessions.last()))
        } else {
            before
        }
    }
}

/// What summaries are sorted by: the latest change comes first.
pub open spec fn summary_keys(summaries: Seq<SummaryView>) -> Seq<KeyView> {
    Seq::new(
        summaries.len(),
        |i: int| KeyView { rank: u64::MAX - summaries[i].updated_at, text: seq![] },
    )
}

/// The listing of the sessions of a project: the latest changed first, equal ones in the order
/// of their identifiers.
pub open spec fn listing_spec(sessions: Map<Seq<char>, ChatView>, project_id: Seq<char>) -> Seq<
    SummaryView,
> {
    let found = project_summaries(values_of(sessions), project_id);
    sorted(found, summary_keys(found))
}

/// The listing of the sessions of a project.
pub fn list_chat_sessions(sessions: &Table<ChatSession>, project_id: &str) -> (r: Vec<
    SessionSummary,
>)
    ensures
        summary_views(r@) == listing_spec(sessions@, project_id@),
{
    let ghost all = values_of(sessions@);
    let n: usize = sessions.len();
    let mut summaries: Vec<SessionSummary> = Vec::new();
    let mut keys: Vec<SortKey> = Vec::new();
    let mut i: usize = 0;
    assert(all.take(0) =~= Seq::<ChatView>::empty());
    assert(summary_views(summaries@) =~= Seq::<SummaryView>::empty());
    while i < n
        invariant
            i <= n,
            n == sessions.keys().len(),
            sessions.keys() == keys_of(sessions@),
            all == values_of(sessions@),
            summary_views(summaries@) == project_summaries(all.take(i as int), project_id@),
            key_views(keys@) == summary_keys(summary_views(summaries@)),
        decreases n - i,
    {
        let session = sessions.value_at(i);
        let ghost before = summary_views(summaries@);
        let ghost before_keys = key_views(keys@);
        proof {
            assert(all.take(i + 1).drop_last() =~= all.take(i as int));
            assert(all.take(i + 1).last() == session@);
        }
        if same(session.project_id.as_str(), project_id) {
            let summary = SessionSummary {
                id: session.id.clone(),
                title: copy_optional(&session.title),
                created_at: session.created_at,
                updated_at: session.updated_at,
            };
            let key = SortKey {
                rank: (u64::MAX - session.updated_at) as u128,
                text: Vec::new(),
            };
            assert(key@.text =~= Seq::<char>::empty());
            keys.push(key);
            summaries.push(summary);
            assert(summary@ == summary_of(session@));
            assert(summary_views(summaries@) =~= before.push(summary@));
            assert(key_views(keys@) =~= before_keys.push(key@));
            assert(summary_keys(summary_views(summaries@)) =~= summary_keys(before).push(key@));
        }
        i += 1;
    }
    assert(all.take(i as int) =~= all);
    let ghost found = summary_views(summaries@);
    let ghost items = summaries@;
    assert(summaries@.len() == found.len() && keys@.len() == key_views(keys@).len());
    let ranked = sort_by_keys(summaries, &keys);
    let ghost order = order_of(summary_keys(found));
    assert(is_stable_order(summary_keys(found), order));
    assert(summary_views(ranked@) =~= sorted(found, summary_keys(found))) by {
        assert forall|j: int| 0 <= j < order.len() implies summary_views(ranked@)[j]
            == found[#[trigger] order[j] as int] by {
            assert(ranked@[j] == items[order[j] as int]);
        }
    }
    ranked
}

/// The answer when a turn is being taken already.
pub open spec fn turn_active() -> ErrorView {
    plain_error(409, "CHAT_TURN_ACTIVE"@, "a turn is already running for this session"@)
}

/// Begins a turn in a session, if none is being taken there. `active` names the sessions in
/// which a turn is being taken.
pub fn begin_turn(active: &mut Table<String>, session_id: &str) -> (r: Result<(), ApiError>)
    ensures
        if old(active)@.contains_key(session_id@) {
            verdict(r) == Err::<(), ErrorView>(turn_active()) && final(active)@ == old(active)@
        } else {
            verdict(r) == Ok::<(), ErrorView>(()) && final(active)@.dom()
                == old(active)@.dom().insert(session_id@)
        },
{
    if active.get(session_id).is_some() {
        return Err(
            ApiError::new(409, "CHAT_TURN_ACTIVE", "a turn is already running for this session"),
        );
    }
    active.insert(session_id.to_owned(), session_id.to_owned());
    assert(active@.dom() =~= old(active)@.dom().insert(session_id@));
    Ok(())
}

/// Ends the turn in a session.
pub fn end_turn(active: &mut Table<String>, session_id: &str)
    ensures
        final(active)@.dom() == old(active)@.dom().remove(session_id@),
{
    let _ = active.remove(session_id);
    assert(active@.dom() =~= old(active)@.dom().remove(session_id@));
}

/// How many characters a title that is made from a message has at most.
pub const TITLE_CHARS: usize = 80;

/// A session after a message of the user: it is titled by its first message.
pub open spec fn asked(session: ChatView, message: MessageView, now: u64) -> ChatView {
    ChatView {
        messages: session.messages.push(message),
        title: match session.title {
            Some(title) => Some(title),
            None => Some(head(message.content, TITLE_CHARS as int)),
        },
        updated_at: now,
        ..session
    }
}

/// The sessions after a message of the user, and the messages of the session.
pub open spec fn ask_spec(
    sessions: Map<Seq<char>, ChatView>,
    session_id: Seq<char>,
    message: MessageView,
    now: u64,
) -> Result<(Map<Seq<char>, ChatView>, Seq<MessageView>), ErrorView> {
    if sessions.contains_key(session_id) {
        let session = asked(sessions[session_id], message, now);
        Ok((sessions.insert(session_id, session), session.messages))
    } else {
        Err(session_not_found_spec())
    }
}

/// The view of sessions and messages.
pub open spec fn ask_outcome(
    r: Result<(Table<ChatSession>, Vec<ChatMessage>), ApiError>,
) -> Result<(Map<Seq<char>, ChatView>, Seq<MessageView>), ErrorView> {
    match r {
        Ok(change) => Ok((change.0@, message_views(change.1@))),
        Err(error) => Err(error@),
    }
}

/// The sessions after a message of the user at the time `now`, and the messages of the
/// session.
pub fn append_question_at(
    sessions: &Table<ChatSession>,
    session_id: &str,
    message: &ChatMessage,
    now: u64,
) -> (r: Result<(Table<ChatSession>, Vec<ChatMessage>), ApiError>)
    ensures
        ask_outcome(r) == ask_spec(sessions@, session_id@, message@, now),
{
    let mut session = match sessions.get(session_id) {
        Some(session) => session.copied(),
        None => {
            return Err(session_not_found());
        },
    };
    let ghost before = session@;
    session.messages.push(copy_message(message));
    assert(message_views(session.messages@) =~= before.messages.push(message@));
    if session.title.is_none() {
        let chars = chars_of(message.content.as_str());
        session.title = Some(text_of(take_chars(chars.as_slice(), TITLE_CHARS)));
    }
    session.updated_at = now;
    assert(session@ == asked(before, message@, now));
    let messages = copy_messages(&session.messages);
    let mut candidate = sessions.copied();
    candidate.insert(session_id.to_owned(), session);
    Ok((candidate, messages))
}

/// The sessions after a message of the user at the time that the clock shows, and the
/// messages of the session.
pub fn append_question(sessions: &Table<ChatSession>, session_id: &str, message: &ChatMessage) -> (r:
    Result<(Table<ChatSession>, Vec<ChatMessage>), ApiError>)
    ensures
        exists|now: u64|
            ask_outcome(r) == #[trigger] ask_spec(sessions@, session_id@, message@, now),
{
    let now: u64 = now_secs();
    append_question_at(sessions, session_id, message, now)
}

/// What a question at the start of a turn changes: it may be asked in a session of the project
/// in which no turn is being taken. `active` names the sessions in which one is.
pub open spec fn turn_start(
    sessions: Map<Seq<char>, ChatView>,
    active: Set<Seq<char>>,
    project_id: Seq<char>,
    session_id: Seq<char>,
    message: MessageView,
    now: u64,
) -> Result<(Map<Seq<char>, ChatView>, Seq<MessageView>), ErrorView> {
    match session_spec(sessions, project_id, session_id) {
        Err(error) => Err(error),
        Ok(_) => if active.contains(session_id) {
            Err(turn_active())
        } else {
            ask_spec(sessions, session_id, message, now)
        },
    }
}

/// The sessions in which a turn is being taken, after one was to be started.
pub open spec fn active_after_start(
    active: Set<Seq<char>>,
    session_id: Seq<char>,
    started: bool,
) -> Set<Seq<char>> {
    if started {
        active.insert(session_id)
    } else {
        active
    }
}

/// Starts a turn with a question at the time `now`: the sessions to store, and the messages to
/// send.
pub fn start_turn_at(
    sessions: &Table<ChatSession>,
    active: &mut Table<String>,
    project_id: &str,
    session_id: &str,
    message: &ChatMessage,
    now: u64,
) -> (r: Result<(Table<ChatSession>, Vec<ChatMessage>), ApiError>)
    ensures
        ask_outcome(r) == turn_start(
            sessions@,
            old(active)@.dom(),
            project_id@,
            session_id@,
            message@,
            now,
        ),
        final(active)@.dom() == active_after_start(old(active)@.dom(), session_id@, r is Ok),
{
    match get_chat_session_for_project(sessions, project_id, session_id) {
        Ok(_) => {},
        Err(error) => {
            return Err(error);
        },
    }
    match begin_turn(active, session_id) {
        Ok(()) => {},
        Err(error) => {
            return Err(error);
        },
    }
    append_question_at(sessions, session_id, message, now)
}

/// Starts a turn with a question at the time that the clock shows: the sessions to store, and
/// the messages to send.
pub fn start_turn(
    sessions: &Table<ChatSession>,
    active: &mut Table<String>,
    project_id: &str,
    session_id: &str,
    message: &ChatMessage,
) -> (r: Result<(Table<ChatSession>, Vec<ChatMessage>), ApiError>)
    ensures
        exists|now: u64|
            ask_outcome(r) == #[trigger] turn_start(
                sessions@,
                old(active)@.dom(),
                project_id@,
                session_id@,
                message@,
                now,
            ),
        final(active)@.dom() == active_after_start(old(active)@.dom(), session_id@, r is Ok),
{
    let now: u64 = now_secs();
    start_turn_at(sessions, active, project_id, session_id, message, now)
}

/// The sessions in which a turn is being taken, after its question was to be stored.
pub open spec fn active_after_storing(
    active: Set<Seq<char>>,
    session_id: Seq<char>,
    stored: bool,
) -> Set<Seq<char>> {
    if stored {
        active
    } else {
        active.remove(session_id)
    }
}

/// Takes over the sessions with a question that were stored; if they could not be, the turn is
/// over.
pub fn settle_question(
    sessions: &mut Table<ChatSession>,
    active: &mut Table<String>,
    session_id: &str,
    candidate: Table<ChatSession>,
    persisted: Result<(), ApiError>,
) -> (r: Result<(), ApiError>)
    ensures
        r == persisted,
        *final(sessions) == settled(*old(sessions), candidate, persisted),
        final(active)@.dom() == active_after_storing(
            old(active)@.dom(),
            session_id@,
            persisted is Ok,
        ),
{
    if persisted.is_err() {
        end_turn(active, session_id);
    }
    settle(sessions, candidate, persisted)
}

/// A session after a message of the assistant.
pub open spec fn answered(session: ChatView, message: MessageView, now: u64) -> ChatView {
    ChatView { messages: session.messages.push(message), updated_at: now, ..session }
}

/// The sessions after a message of the assistant at the time `now`, if the session is still
/// there.
pub fn append_answer_at(
    sessions: &Table<ChatSession>,
    session_id: &str,
    message: &ChatMessage,
    now: u64,
) -> (r: Option<Table<ChatSession>>)
    ensures
        match r {
            Some(candidate) => sessions@.contains_key(session_id@) && candidate@
                == sessions@.insert(
                session_id@,
                answered(sessions@[session_id@], message@, now),
            ),
            None => !sessions@.contains_key(session_id@),
        },
{
    let mut session = match sessions.get(session_id) {
        Some(session) => session.copied(),
        None => {
            return None;
        },
    };
    let ghost before = session@;
    session.messages.push(copy_message(message));
    assert(message_views(session.messages@) =~= before.messages.push(message@));
    session.updated_at = now;
    assert(session@ == answered(before, message@, now));
    let mut candidate = sessions.copied();
    candidate.insert(session_id.to_owned(), session);
    Some(candidate)
}

/// Whether the sessions are those before and a fresh answer in one of them.
pub open spec fn answer_added(
    before: Map<Seq<char>, ChatView>,
    after: Map<Seq<char>, ChatView>,
    session_id: Seq<char>,
    message: MessageView,
    content: Seq<char>,
    now: u64,
) -> bool {
    &&& fresh_message(message, "assistant"@, content)
    &&& after == before.insert(session_id, answered(before[session_id], message, now))
}

/// Whether the sessions are those before and some fresh answer in one of them.
pub open spec fn fresh_answer(
    before: Map<Seq<char>, ChatView>,
    after: Map<Seq<char>, ChatView>,
    session_id: Seq<char>,
    content: Seq<char>,
) -> bool {
    exists|message: MessageView, now: u64| #[trigger]
        answer_added(before, after, session_id, message, content, now)
}

/// The sessions after an answer of the assistant, under a fresh identifier and at the time
/// that the clock shows, if the session is still there.
pub fn append_answer(sessions: &Table<ChatSession>, session_id: &str, content: &str) -> (r: Option<
    Table<ChatSession>,
>)
    ensures
        match r {
            Some(candidate) => sessions@.contains_key(session_id@) && fresh_answer(
                sessions@,
                candidate@,
                session_id@,
                content@,
            ),
            None => !sessions@.contains_key(session_id@),
        },
{
    let message = new_message("assistant", content.to_owned());
    let now: u64 = now_secs();
    let r = append_answer_at(sessions, session_id, &message, now);
    proof {
        if r is Some {
            assert(answer_added(sessions@, r->0@, session_id@, message@, content@, now));
        }
    }
    r
}

/// What to do when the provider has answered.
pub enum TurnStep {
    /// Keep the answer.
    Store(String),
    /// Tell the client what went wrong.
    Report(String),
    /// Nothing: the turn was cancelled.
    Nothing,
}

/// The view of a [`TurnStep`].
pub enum StepView {
    Store(Seq<char>),
    Report(Seq<char>),
    Nothing,
}

impl View for TurnStep {
    type V = StepView;

    open spec fn view(&self) -> StepView {
        match self {
            TurnStep::Store(text) => StepView::Store(text@),
            TurnStep::Report(text) => StepView::Report(text@),
            TurnStep::Nothing => StepView::Nothing,
        }
    }
}

/// What to do when the provider has answered, or the turn was cancelled. A turn that was
/// cancelled while it waited ends with the message "cancelled".
pub open spec fn turn_step_spec(
    result: Result<Seq<char>, Seq<char>>,
    cancel_requested: bool,
) -> StepView {
    match result {
        Ok(reply) => if cancel_requested {
            StepView::Nothing
        } else {
            StepView::Store(reply)
        },
        Err(message) => if message == "cancelled"@ {
            StepView::Nothing
        } else {
            StepView::Report(message)
        },
    }
}

/// The view of an answer or a message.
pub open spec fn reply_view(result: Result<String, String>) -> Result<Seq<char>, Seq<char>> {
    match result {
        Ok(reply) => Ok(reply@),
        Err(message) => Err(message@),
    }
}

/// What to do when the provider has answered, or the turn was cancelled.
pub fn turn_step(result: Result<String, String>, cancel_requested: bool) -> (r: TurnStep)
    ensures
        r@ == turn_step_spec(reply_view(result), cancel_requested),
{
    match result {
        Ok(reply) => if cancel_requested {
            TurnStep::Nothing
        } else {
            TurnStep::Store(reply)
        },
        Err(message) => if same(message.as_str(), "cancelled") {
            TurnStep::Nothing
        } else {
            TurnStep::Report(message)
        },
    }
}

/// An event of the stream that a client follows.
pub struct ChatStreamEvent {
    pub event: String,
    pub data: Json,
}

/// The view of a [`ChatStreamEvent`].
pub struct EventView {
    pub event: Seq<char>,
    pub data: JsonView,
}

impl View for ChatStreamEvent {
    type V = EventView;

    open spec fn view(&self) -> EventView {
        EventView { event: self.event@, data: self.data@ }
    }
}

/// The views of events.
pub open spec fn event_views(events: Seq<ChatStreamEvent>) -> Seq<EventView> {
    Seq::new(events.len(), |i: int| events[i]@)
}

/// An object with one member, a text.
pub open spec fn one_text(key: Seq<char>, text: Seq<char>) -> JsonView {
    JsonView::Object(Map::<Seq<char>, JsonView>::empty().insert(key, JsonView::Text(text)))
}

/// An object with one member, a text.
fn object_with(key: &str, text: &str) -> (r: Json)
    ensures
        r@ == one_text(key@, text@),
{
    let value = Json::Text(text.to_owned());
    proof {
        lemma_view(value);
    }
    let mut object = JsonObject::new();
    object.set(key.to_owned(), value);
    let r = Json::Object(object);
    proof {
        lemma_view(r);
    }
    r
}

/// What became of an answer that was to be kept.
pub enum Kept {
    /// It is kept.
    Stored,
    /// The session is not there any more.
    Missing,
    /// It could not be written.
    Failed(ApiError),
}

/// The sessions to store at the end of a turn: those with the answer, if there is one to keep
/// and the session is still there.
pub fn answer_to_store(sessions: &Table<ChatSession>, session_id: &str, step: &TurnStep) -> (r:
    Option<Table<ChatSession>>)
    ensures
        match step@ {
            StepView::Store(content) => match r {
                Some(candidate) => sessions@.contains_key(session_id@) && fresh_answer(
                    sessions@,
                    candidate@,
                    session_id@,
                    content,
                ),
                None => !sessions@.contains_key(session_id@),
            },
            _ => r is None,
        },
{
    match step {
        TurnStep::Store(content) => append_answer(sessions, session_id, content.as_str()),
        _ => None,
    }
}

/// Takes over the sessions with an answer that were stored, and tells what became of it.
pub fn settle_answer(
    sessions: &mut Table<ChatSession>,
    candidate: Table<ChatSession>,
    persisted: Result<(), ApiError>,
) -> (r: Kept)
    ensures
        *final(sessions) == settled(*old(sessions), candidate, persisted),
        r == match persisted {
            Ok(()) => Kept::Stored,
            Err(error) => Kept::Failed(error),
        },
{
    match settle(sessions, candidate, persisted) {
        Ok(()) => Kept::Stored,
        Err(error) => Kept::Failed(error),
    }
}

/// What a client is told at the end of a turn: the answer if it was kept, or what went wrong,
/// and that the turn is done.
pub open spec fn turn_events_spec(step: StepView, kept: Kept) -> Seq<EventView> {
    let done = EventView { event: "done"@, data: JsonView::Text("[DONE]"@) };
    match step {
        StepView::Store(reply) => match kept {
            Kept::Stored => seq![EventView { event: "delta"@, data: one_text("delta"@, reply) }, done],
            Kept::Missing => seq![done],
            Kept::Failed(error) => seq![
                EventView { event: "error"@, data: one_text("error"@, error.message@) },
                done,
            ],
        },
        StepView::Report(message) => seq![
            EventView { event: "error"@, data: one_text("error"@, message) },
            done,
        ],
        StepView::Nothing => seq![done],
    }
}

/// What a client is told at the end of a turn. `kept` is what became of the answer, if it was
/// to be kept.
pub fn turn_events(step: &TurnStep, kept: &Kept) -> (r: Vec<ChatStreamEvent>)
    ensures
        event_views(r@) == turn_events_spec(step@, *kept),
{
    let mut r: Vec<ChatStreamEvent> = Vec::new();
    match step {
        TurnStep::Store(reply) => match kept {
            Kept::Stored => r.push(
                ChatStreamEvent {
                    event: "delta".to_owned(),
                    data: object_with("delta", reply.as_str()),
                },
            ),
            Kept::Missing => {},
            Kept::Failed(error) => r.push(
                ChatStreamEvent {
                    event: "error".to_owned(),
                    data: object_with("error", error.message.as_str()),
                },
            ),
        },
        TurnStep::Report(message) => r.push(
            ChatStreamEvent {
                event: "error".to_owned(),
                data: object_with("error", message.as_str()),
            },
        ),
        TurnStep::Nothing => {},
    }
    let data = Json::Text("[DONE]".to_owned());
    proof {
        lemma_view(data);
    }
    r.push(ChatStreamEvent { event: "done".to_owned(), data });
    assert(event_views(r@) =~= turn_events_spec(step@, *kept));
    r
}

/// Sessions by identifier; of two with one identifier the later counts.
pub open spec fn sessions_of(sessions: Seq<ChatView>) -> Map<Seq<char>, ChatView>
    decreases sessions.len(),
{
    if sessions.len() == 0 {
        Map::empty()
    } else {
        sessions_of(sessions.drop_last()).insert(sessions.last().id, sessions.last())
    }
}

/// The views of sessions.
pub open spec fn chat_views(sessions: Seq<ChatSession>) -> Seq<ChatView> {
    Seq::new(sessions.len(), |i: int| sessions[i]@)
}

/// The sessions at the start.
pub fn load_chat_sessions(sessions: &Vec<ChatSession>) -> (r: Table<ChatSession>)
    ensures
        r@ == sessions_of(chat_views(sessions@)),
{
    let ghost all = chat_views(sessions@);
    let mut table: Table<ChatSession> = Table::new();
    let mut i: usize = 0;
    assert(all.take(0) =~= Seq::<ChatView>::empty());
    while i < sessions.len()
        invariant
            i <= sessions@.len(),
            all == chat_views(sessions@),
            table@ == sessions_of(all.take(i as int)),
        decreases sessions@.len() - i,
    {
        proof {
            assert(all.take(i + 1).drop_last() =~= all.take(i as int));
            assert(all.take(i + 1).last() == sessions@[i as int]@);
        }
        let session = sessions[i].copied();
        let key = session.id.clone();
        table.insert(key, session);
        i += 1;
    }
    assert(all.take(i as int) =~= all);
    table
}

/// The sessions under the first `n` keys.
spec fn taken(sessions: Map<Seq<char>, ChatView>, keys: Seq<Seq<char>>, n: int) -> Seq<ChatView> {
    Seq::new(n as nat, |i: int| sessions[keys[i]])
}

/// Sessions under their identifiers, taken in some order, give a map of exactly those.
proof fn lemma_sessions_of(sessions: Map<Seq<char>, ChatView>, keys: Seq<Seq<char>>, n: int)
    requires
        0 <= n <= keys.len(),
        forall|id: Seq<char>| #[trigger] sessions.contains_key(id) ==> sessions[id].id == id,
        forall|i: int| 0 <= i < keys.len() ==> sessions.contains_key(#[trigger] keys[i]),
    ensures
        ({
            let part = sessions_of(taken(sessions, keys, n));
            forall|id: Seq<char>| #[trigger]
                part.contains_key(id) <==> keys.take(n).contains(id)
        }),
        ({
            let part = sessions_of(taken(sessions, keys, n));
            forall|id: Seq<char>| #[trigger] part.contains_key(id) ==> part[id] == sessions[id]
        }),
    decreases n,
{
    let values = taken(sessions, keys, n);
    let part = sessions_of(values);
    if n > 0 {
        lemma_sessions_of(sessions, keys, n - 1);
        let fewer = taken(sessions, keys, n - 1);
        let before = sessions_of(fewer);
        assert(values.drop_last() =~= fewer);
        let last = keys[n - 1];
        assert(sessions.contains_key(last));
        assert(values.last().id == last);
        assert forall|id: Seq<char>| #[trigger] part.contains_key(id) <==> keys.take(n).contains(
            id,
        ) by {
            let short = keys.take(n - 1);
            let long = keys.take(n);
            assert(before.contains_key(id) <==> short.contains(id));
            if short.contains(id) {
                let i = choose|i: int| 0 <= i < short.len() && short[i] == id;
                assert(long[i] == id);
            }
            if id == last {
                assert(long[n - 1] == id);
            }
            if long.contains(id) {
                let i = choose|i: int| 0 <= i < long.len() && long[i] == id;
                if i < n - 1 {
                    assert(short[i] == id);
                }
            }
        }
        assert forall|id: Seq<char>| #[trigger] part.contains_key(id) implies part[id]
            == sessions[id] by {
            if id != last {
                assert(before.contains_key(id));
            }
        }
    } else {
        assert(values =~= Seq::<ChatView>::empty());
    }
}

/// Sessions that are written in the order of their identifiers and read again are the same.
pub proof fn law_sessions_survive_a_restart(sessions: Map<Seq<char>, ChatView>)
    requires
        sessions.dom().finite(),
        forall|id: Seq<char>| #[trigger] sessions.contains_key(id) ==> sessions[id].id == id,
    ensures
        sessions_of(values_of(sessions)) == sessions,
{
    lemma_keys_exist(sessions);
    let keys = keys_of(sessions);
    assert(lists_keys(keys, sessions));
    assert forall|i: int| 0 <= i < keys.len() implies sessions.contains_key(
        #[trigger] keys[i],
    ) by {
        assert(keys.contains(keys[i]));
    }
    lemma_sessions_of(sessions, keys, keys.len() as int);
    assert(keys.take(keys.len() as int) =~= keys);
    assert(values_of(sessions) =~= taken(sessions, keys, keys.len() as int));
    let read = sessions_of(values_of(sessions));
    assert forall|id: Seq<char>| #[trigger] read.contains_key(id) <==> sessions.contains_key(id) by {
        assert(sessions.contains_key(id) <==> keys.contains(id));
    }
    assert(read =~= sessions);
}

/// A session is not shown to another project.
pub proof fn law_session_belongs_to_its_project(
    sessions: Map<Seq<char>, ChatView>,
    project_id: Seq<char>,
    session_id: Seq<char>,
)
    requires
        sessions.contains_key(session_id),
        sessions[session_id].project_id != project_id,
    ensures
        session_spec(sessions, project_id, session_id) == Err::<ChatView, ErrorView>(
            session_not_found_spec(),
        ),
{
}

/// A message of the user is added at the end of one session; its identifier and its project
/// stay, a title that it has stays, and every other session is as it was.
pub proof fn law_question_touches_one_session(
    sessions: Map<Seq<char>, ChatView>,
    session_id: Seq<char>,
    message: MessageView,
    now: u64,
)
    ensures
        ask_spec(sessions, session_id, message, now) matches Ok((after, messages)) ==> {
            &&& messages == sessions[session_id].messages.push(message)
            &&& after[session_id].messages == messages
            &&& after[session_id].id == sessions[session_id].id
            &&& after[session_id].project_id == sessions[session_id].project_id
            &&& after[session_id].title is Some
            &&& sessions[session_id].title is Some ==> after[session_id].title
                == sessions[session_id].title
            &&& forall|other: Seq<char>| #[trigger]
                sessions.contains_key(other) && other != session_id ==> after.contains_key(other)
                    && after[other] == sessions[other]
        },
{
}

/// While a turn is being taken in a session, no other is started there.
pub proof fn law_one_turn_at_a_time(
    sessions: Map<Seq<char>, ChatView>,
    active: Set<Seq<char>>,
    project_id: Seq<char>,
    session_id: Seq<char>,
    first: MessageView,
    begin: u64,
    second: MessageView,
    now: u64,
)
    ensures
        turn_start(sessions, active, project_id, session_id, first, begin) matches Ok((after, _))
            ==> turn_start(
            after,
            active_after_start(active, session_id, true),
            project_id,
            session_id,
            second,
            now,
        ) == Err::<(Map<Seq<char>, ChatView>, Seq<MessageView>), ErrorView>(turn_active()),
{
}

/// A question that could not be stored leaves the turns as they were before it.
pub proof fn law_failed_question_frees_the_session(
    sessions: Map<Seq<char>, ChatView>,
    active: Set<Seq<char>>,
    project_id: Seq<char>,
    session_id: Seq<char>,
    message: MessageView,
    now: u64,
)
    requires
        turn_start(sessions, active, project_id, session_id, message, now) is Ok,
    ensures
        active_after_storing(active_after_start(active, session_id, true), session_id, false)
            == active,
{
    assert(active.insert(session_id).remove(session_id) =~= active);
}

/// The last thing that a client is told is that the turn is done, and it is told so once.
pub proof fn law_turn_ends_once(step: StepView, kept: Kept)
    ensures
        ({
            let events = turn_events_spec(step, kept);
            &&& events.len() > 0
            &&& forall|i: int|
                0 <= i < events.len() ==> ((#[trigger] events[i]).event == "done"@ <==> i
                    == events.len() - 1)
        }),
{
    reveal_strlit("done");
    reveal_strlit("delta");
    reveal_strlit("error");
    assert("done"@.len() != "delta"@.len());
    assert("done"@.len() != "error"@.len());
}

/// Whether a listing says what it says of one of the sessions of a project.
pub open spec fn listed_session(
    sessions: Seq<ChatView>,
    project_id: Seq<char>,
    summary: SummaryView,
) -> bool {
    exists|j: int|
        0 <= j < sessions.len() && (#[trigger] sessions[j]).project_id == project_id && summary
            == summary_of(sessions[j])
}

/// Each summary is that of a session of the project.
proof fn lemma_summary_has_session(sessions: Seq<ChatView>, project_id: Seq<char>, i: int)
    requires
        0 <= i < project_summaries(sessions, project_id).len(),
    ensures
        listed_session(sessions, project_id, project_summaries(sessions, project_id)[i]),
    decreases sessions.len(),
{
    let fewer = sessions.drop_last();
    let summary = project_summaries(sessions, project_id)[i];
    if i < project_summaries(fewer, project_id).len() {
        lemma_summary_has_session(fewer, project_id, i);
        let j = choose|j: int|
            0 <= j < fewer.len() && (#[trigger] fewer[j]).project_id == project_id && summary
                == summary_of(fewer[j]);
        assert(sessions[j] == fewer[j]);
    } else {
        assert(sessions[sessions.len() - 1].project_id == project_id);
    }
}

/// Each session of the project has a summary.
proof fn lemma_session_has_summary(sessions: Seq<ChatView>, project_id: Seq<char>, j: int)
    requires
        0 <= j < sessions.len(),
        sessions[j].project_id == project_id,
    ensures
        project_summaries(sessions, project_id).contains(summary_of(sessions[j])),
    decreases sessions.len(),
{
    let fewer = sessions.drop_last();
    let before = project_summaries(fewer, project_id);
    let all = project_summaries(sessions, project_id);
    if j < fewer.len() {
        lemma_session_has_summary(fewer, project_id, j);
        let i = choose|i: int| 0 <= i < before.len() && before[i] == summary_of(sessions[j]);
        assert(all[i] == before[i]);
    } else {
        assert(all[all.len() - 1] == summary_of(sessions[j]));
    }
}

/// There are no more summaries than sessions.
proof fn lemma_summaries_len(sessions: Seq<ChatView>, project_id: Seq<char>)
    ensures
        project_summaries(sessions, project_id).len() <= sessions.len(),
    decreases sessions.len(),
{
    if sessions.len() > 0 {
        lemma_summaries_len(sessions.drop_last(), project_id);
    }
}

/// A listing shows the sessions of its project, all of them and no others, the latest changed
/// first.
pub proof fn law_sessions_are_listed_latest_first(
    sessions: Map<Seq<char>, ChatView>,
    project_id: Seq<char>,
)
    requires
        sessions.dom().finite(),
        keys_of(sessions).len() <= usize::MAX,
    ensures
        ({
            let shown = listing_spec(sessions, project_id);
            &&& forall|i: int|
                0 <= i < shown.len() ==> listed_session(
                    values_of(sessions),
                    project_id,
                    #[trigger] shown[i],
                )
            &&& forall|id: Seq<char>| #[trigger]
                sessions.contains_key(id) && sessions[id].project_id == project_id
                    ==> shown.contains(summary_of(sessions[id]))
            &&& forall|i: int, j: int|
                0 <= i < j < shown.len() ==> (#[trigger] shown[i]).updated_at >= (
                #[trigger] shown[j]).updated_at
        }),
{
    let all = values_of(sessions);
    let found = project_summaries(all, project_id);
    let keys = summary_keys(found);
    let shown = listing_spec(sessions, project_id);
    lemma_values_of(sessions);
    lemma_summaries_len(all, project_id);
    lemma_order_exists(keys);
    law_sorting_keeps_items(found, keys);
    let order = order_of(keys);
    assert forall|i: int| 0 <= i < shown.len() implies listed_session(
        all,
        project_id,
        #[trigger] shown[i],
    ) by {
        lemma_summary_has_session(all, project_id, order[i] as int);
    }
    assert forall|id: Seq<char>| #[trigger]
        sessions.contains_key(id) && sessions[id].project_id == project_id implies shown.contains(
        summary_of(sessions[id]),
    ) by {
        let j = choose|j: int| 0 <= j < all.len() && all[j] == sessions[id];
        let summary = summary_of(all[j]);
        lemma_session_has_summary(all, project_id, j);
        vstd::seq_lib::to_multiset_contains(found, summary);
        vstd::seq_lib::to_multiset_contains(shown, summary);
    }
    assert forall|i: int, j: int| 0 <= i < j < shown.len() implies (#[trigger] shown[i]).updated_at
        >= (#[trigger] shown[j]).updated_at by {
        assert(!key_less(keys[order[j] as int], keys[order[i] as int]));
    }
}

/// A message is refused exactly if it holds nothing but white space.
pub proof fn law_message_must_say_something(message: Seq<char>)
    ensures
        message_check(message) is Ok <==> exists|i: int|
            0 <= i < message.len() && !white_space(#[trigger] message[i]),
        message_check(message) matches Err(error) ==> error.status == 400 && error.code
            == "MESSAGE_REQUIRED"@,
{
    law_blank_text_is_white_space(message);
}

/// A new session is of its project, without messages, with its title unless that is blank.
pub proof fn law_new_session_is_empty(
    id: Seq<char>,
    project_id: Seq<char>,
    title: Option<Seq<char>>,
    now: u64,
)
    ensures
        ({
            let session = empty_session(id, project_id, title, now);
            &&& session.id == id && session.project_id == project_id
            &&& session.messages.len() == 0
            &&& session.created_at == now && session.updated_at == now
            &&& title is None ==> session.title is None
            &&& title matches Some(text) ==> if exists|i: int|
                0 <= i < text.len() && !white_space(#[trigger] text[i]) {
                session.title == title
            } else {
                session.title is None
            }
        }),
{
    if let Some(text) = title {
        law_blank_text_is_white_space(text);
    }
}

/// A session is found exactly if it is there and of the project.
pub proof fn law_session_is_found_in_its_project(
    sessions: Map<Seq<char>, ChatView>,
    project_id: Seq<char>,
    session_id: Seq<char>,
)
    ensures
        match session_spec(sessions, project_id, session_id) {
            Ok(session) => sessions.contains_key(session_id) && session == sessions[session_id]
                && session.project_id == project_id,
            Err(error) => error.status == 404 && error.code == "CHAT_SESSION_NOT_FOUND"@ && (
            !sessions.contains_key(session_id) || sessions[session_id].project_id != project_id),
        },
{
}

/// A question is added after the messages that are there, and all of them are handed on. The
/// first gives the session its title, of at most eighty characters, unless it has one.
pub proof fn law_question_is_added(
    sessions: Map<Seq<char>, ChatView>,
    session_id: Seq<char>,
    message: MessageView,
    now: u64,
)
    ensures
        match ask_spec(sessions, session_id, message, now) {
            Ok((after, messages)) => {
                let before = sessions[session_id];
                let session = after[session_id];
                &&& sessions.contains_key(session_id)
                &&& after.dom() == sessions.dom()
                &&& messages.len() == before.messages.len() + 1
                &&& forall|i: int|
                    0 <= i < before.messages.len() ==> #[trigger] messages[i] == before.messages[i]
                &&& messages[before.messages.len() as int] == message
                &&& session.messages == messages
                &&& session.updated_at == now && session.created_at == before.created_at
                &&& before.title is Some ==> session.title == before.title
                &&& before.title is None && message.content.len() <= 80 ==> session.title == Some(
                    message.content,
                )
                &&& before.title is None && message.content.len() > 80 ==> session.title == Some(
                    message.content.take(80),
                )
            },
            Err(error) => !sessions.contains_key(session_id) && error.status == 404 && error.code
                == "CHAT_SESSION_NOT_FOUND"@,
        },
{
    if let Ok((after, messages)) = ask_spec(sessions, session_id, message, now) {
        assert(after.dom() =~= sessions.dom());
    }
}

/// A turn begins exactly if the session is there, of the project, and has no turn; then the
/// question is added.
pub proof fn law_turn_begins_if_it_may(
    sessions: Map<Seq<char>, ChatView>,
    active: Set<Seq<char>>,
    project_id: Seq<char>,
    session_id: Seq<char>,
    message: MessageView,
    now: u64,
)
    ensures
        match turn_start(sessions, active, project_id, session_id, message, now) {
            Ok(change) => {
                &&& sessions.contains_key(session_id)
                &&& sessions[session_id].project_id == project_id
                &&& !active.contains(session_id)
                &&& ask_spec(sessions, session_id, message, now) == Ok::<
                    (Map<Seq<char>, ChatView>, Seq<MessageView>),
                    ErrorView,
                >(change)
            },
            Err(error) => {
                ||| error.status == 404 && (!sessions.contains_key(session_id)
                    || sessions[session_id].project_id != project_id)
                ||| error.status == 409 && error.code == "CHAT_TURN_ACTIVE"@ && active.contains(
                    session_id,
                )
            },
        },
        active_after_start(active, session_id, true) == active.insert(session_id),
        active_after_start(active, session_id, false) == active,
        active_after_storing(active, session_id, true) == active,
        active_after_storing(active, session_id, false) == active.remove(session_id),
{
}

/// An answer is added after the messages that are there, and changes nothing else but the time.
pub proof fn law_answer_is_added(session: ChatView, message: MessageView, now: u64)
    ensures
        ({
            let after = answered(session, message, now);
            &&& after.messages.len() == session.messages.len() + 1
            &&& forall|i: int|
                0 <= i < session.messages.len() ==> #[trigger] after.messages[i]
                    == session.messages[i]
            &&& after.messages[session.messages.len() as int] == message
            &&& after.id == session.id && after.project_id == session.project_id && after.title
                == session.title && after.created_at == session.created_at && after.updated_at
                == now
        }),
{
}

/// An answer is kept unless the turn was cancelled; what went wrong is told, unless it is that.
pub proof fn law_answer_is_kept_unless_cancelled(
    result: Result<Seq<char>, Seq<char>>,
    cancel_requested: bool,
)
    ensures
        match result {
            Ok(reply) => turn_step_spec(result, cancel_requested) == if cancel_requested {
                StepView::Nothing
            } else {
                StepView::Store(reply)
            },
            Err(message) => turn_step_spec(result, cancel_requested) == if message
                == "cancelled"@ {
                StepView::Nothing
            } else {
                StepView::Report(message)
            },
        },
{
}

/// A client is told the answer once it is kept, or what went wrong, and then that the turn is
/// over. Of an answer that has no place any more, and of a turn that was cancelled, it is told
/// the end alone.
pub proof fn law_client_is_told_the_outcome(step: StepView, kept: Kept)
    ensures
        ({
            let events = turn_events_spec(step, kept);
            let told = match step {
                StepView::Store(reply) => match kept {
                    Kept::Stored => Some(("delta"@, reply)),
                    Kept::Missing => None,
                    Kept::Failed(error) => Some(("error"@, error.message@)),
                },
                StepView::Report(message) => Some(("error"@, message)),
                StepView::Nothing => None,
            };
            &&& events.len() == if told is Some {
                2int
            } else {
                1
            }
            &&& events.last().event == "done"@ && events.last().data == JsonView::Text("[DONE]"@)
            &&& told matches Some((name, text)) ==> events[0].event == name && (
            events[0].data matches JsonView::Object(data) && data.dom() == set![name] && data[name]
                == JsonView::Text(text))
        }),
{
    reveal_strlit("delta");
    reveal_strlit("error");
    let events = turn_events_spec(step, kept);
    if events.len() == 2 {
        let data = events[0].data->Object_0;
        assert(data.dom() =~= set![events[0].event]);
    }
}

/// Sessions that are read are there under their identifiers; of two with one the later counts.
pub proof fn law_sessions_are_read_by_identifier(sessions: Seq<ChatView>, session: ChatView)
    ensures
        sessions_of(sessions.push(session)) == sessions_of(sessions).insert(session.id, session),
        sessions_of(seq![]) == Map::<Seq<char>, ChatView>::empty(),
{
    assert(sessions.push(session).drop_last() =~= sessions);
}

/// A listing shows as many sessions as the project has, and of each what it is called and when it
/// was made and changed.
pub proof fn law_listing_shows_each_session_once(
    sessions: Map<Seq<char>, ChatView>,
    project_id: Seq<char>,
    session: ChatView,
)
    requires
        sessions.dom().finite(),
        keys_of(sessions).len() <= usize::MAX,
    ensures
        listing_spec(sessions, project_id).len() == values_of(sessions).filter(
            |s: ChatView| s.project_id == project_id,
        ).len(),
        summary_of(session).id == session.id,
        summary_of(session).title == session.title,
        summary_of(session).created_at == session.created_at,
        summary_of(session).updated_at == session.updated_at,
{
    let all = values_of(sessions);
    let found = project_summaries(all, project_id);
    lemma_summaries_len(all, project_id);
    lemma_summaries_count(all, project_id);
    law_sorting_keeps_items(found, summary_keys(found));
}

/// There are as many summaries as sessions of the project.
proof fn lemma_summaries_count(sessions: Seq<ChatView>, project_id: Seq<char>)
    ensures
        project_summaries(sessions, project_id).len() == sessions.filter(
            |s: ChatView| s.project_id == project_id,
        ).len(),
    decreases sessions.len(),
{
    reveal(Seq::filter);
    if sessions.len() > 0 {
        lemma_summaries_count(sessions.drop_last(), project_id);
    }
}

/// Contracts speak of whole values: every part of a value is in its view, in its place, and nothing
/// else is.
pub proof fn law_views_of_chat_are_whole(
    message: ChatMessage,
    session: ChatSession,
    summary: SessionSummary,
    event: ChatStreamEvent,
    messages: Seq<ChatMessage>,
    summaries: Seq<SessionSummary>,
    events: Seq<ChatStreamEvent>,
    sessions: Seq<ChatSession>,
    step: TurnStep,
    asked_for: Result<(Table<ChatSession>, Vec<ChatMessage>), ApiError>,
    reply: Result<String, String>,
)
    ensures
        message@.id == message.id@,
        message@.role == message.role@,
        message@.content == message.content@,
        message@.created_at == message.created_at,
        session@.id == session.id@,
        session@.project_id == session.project_id@,
        session@.title == optional(session.title),
        session@.created_at == session.created_at,
        session@.updated_at == session.updated_at,
        session@.messages == message_views(session.messages@),
        summary@.id == summary.id@,
        summary@.title == optional(summary.title),
        summary@.created_at == summary.created_at,
        summary@.updated_at == summary.updated_at,
        event@.event == event.event@,
        event@.data == event.data@,
        message_views(messages).len() == messages.len(),
        forall|i: int|
            0 <= i < messages.len() ==> #[trigger] message_views(messages)[i] == messages[i]@,
        summary_views(summaries).len() == summaries.len(),
        forall|i: int|
            0 <= i < summaries.len() ==> #[trigger] summary_views(summaries)[i] == summaries[i]@,
        event_views(events).len() == events.len(),
        forall|i: int|
            0 <= i < events.len() ==> #[trigger] event_views(events)[i] == events[i]@,
        chat_views(sessions).len() == sessions.len(),
        forall|i: int|
            0 <= i < sessions.len() ==> #[trigger] chat_views(sessions)[i] == sessions[i]@,
        match step {
            TurnStep::Store(text) => step@ matches StepView::Store(shown) && shown == text@,
            TurnStep::Report(text) => step@ matches StepView::Report(shown) && shown == text@,
            TurnStep::Nothing => step@ is Nothing,
        },
        match asked_for {
            Ok((table, all)) => ask_outcome(asked_for) matches Ok((shown, told)) && shown == table@
                && told == message_views(all@),
            Err(error) => ask_outcome(asked_for) matches Err(shown) && shown == error@,
        },
        match reply {
            Ok(text) => reply_view(reply) matches Ok(shown) && shown == text@,
            Err(text) => reply_view(reply) matches Err(shown) && shown == text@,
        },
{
}

/// An answer that is added is the last message of its session, from the assistant and under an
/// identifier of its own; the messages before it, and every other session, stay as they were.
pub proof fn law_answer_comes_from_the_assistant(
    before: Map<Seq<char>, ChatView>,
    after: Map<Seq<char>, ChatView>,
    session_id: Seq<char>,
    content: Seq<char>,
)
    requires
        before.contains_key(session_id),
        fresh_answer(before, after, session_id, content),
    ensures
        after.dom() == before.dom(),
        forall|other: Seq<char>| #[trigger]
            before.contains_key(other) && other != session_id ==> after[other] == before[other],
        after[session_id].messages.len() == before[session_id].messages.len() + 1,
        after[session_id].messages.drop_last() == before[session_id].messages,
        after[session_id].messages.last().role == "assistant"@,
        after[session_id].messages.last().content == content,
        is_identifier(""@, after[session_id].messages.last().id),
        after[session_id].title == before[session_id].title,
        after[session_id].project_id == before[session_id].project_id,
{
    let (message, now) = choose|message: MessageView, now: u64| #[trigger]
        answer_added(before, after, session_id, message, content, now);
    assert(after.dom() =~= before.dom());
    assert(after[session_id].messages.drop_last() =~= before[session_id].messages);
}

/// A fresh message has the role and the content that it was made with, and an identifier.
pub proof fn law_message_says_what_it_was_made_with(
    message: MessageView,
    role: Seq<char>,
    content: Seq<char>,
)
    requires
        fresh_message(message, role, content),
    ensures
        message.role == role,
        message.content == content,
        is_identifier(""@, message.id),
{
}

} // verus!
