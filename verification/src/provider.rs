//! The provider of chat answers: where it is, what is sent to it, and what it answers.

use vstd::prelude::*;

use crate::chat::{ChatMessage, MessageView, message_views};
use crate::config::{Assignments, latest};
use crate::error::{ApiError, ErrorView, optional, outcome, plain_error, verdict};
use crate::json::{
    Json, JsonObject, JsonView, lemma_list_view, lemma_view, list_view, member, text_value,
};
use crate::settings::{web_chat_setting, web_chat_spec};
use crate::text::{
    chars_of, eq_ignore_ascii_case, is_blank, lower_ascii_spec, same, same_ignoring_case, trimmed,
};

verus! {

/// The host of a URL.
pub enum UrlHost {
    /// None.
    Missing,
    /// A name.
    Name(String),
    /// An IPv4 address.
    V4([u8; 4]),
    /// An IPv6 address.
    V6,
}

/// The view of a [`UrlHost`].
pub enum HostView {
    Missing,
    Name(Seq<char>),
    V4(Seq<u8>),
    V6,
}

impl View for UrlHost {
    type V = HostView;

    open spec fn view(&self) -> HostView {
        match self {
            UrlHost::Missing => HostView::Missing,
            UrlHost::Name(name) => HostView::Name(name@),
            UrlHost::V4(octets) => HostView::V4(octets@),
            UrlHost::V6 => HostView::V6,
        }
    }
}

/// The parts of a URL that decide whether a provider may be there.
pub struct UrlParts {
    pub scheme: String,
    pub username: String,
    pub has_password: bool,
    pub host: UrlHost,
}

/// The view of [`UrlParts`].
pub struct UrlView {
    pub scheme: Seq<char>,
    pub username: Seq<char>,
    pub has_password: bool,
    pub host: HostView,
}

impl View for UrlParts {
    type V = UrlView;

    open spec fn view(&self) -> UrlView {
        UrlView {
            scheme: self.scheme@,
            username: self.username@,
            has_password: self.has_password,
            host: self.host@,
        }
    }
}

/// The parts of the absolute URL that a text is, as `url::Url::parse` reads it, if it is one.
pub uninterp spec fn parsed_url(text: Seq<char>) -> Option<UrlView>;

/// The view of parts that may be missing.
pub open spec fn parts_view(parts: Option<UrlParts>) -> Option<UrlView> {
    match parts {
        Some(parts) => Some(parts@),
        None => None,
    }
}

/// `url::Url::parse`, which `reqwest::Url` is: whether the text is an absolute URL, and its
/// scheme, user name, password and host, depend on the text alone.
#[verifier::external_body]
fn parse_url(text: &str) -> (r: Option<UrlParts>)
    ensures
        parts_view(r) == parsed_url(text@),
{
    let url = reqwest::Url::parse(text).ok()?;
    let host = match url.host() {
        None => UrlHost::Missing,
        Some(url::Host::Domain(name)) => UrlHost::Name(name.to_string()),
        Some(url::Host::Ipv4(address)) => UrlHost::V4(address.octets()),
        Some(url::Host::Ipv6(_)) => UrlHost::V6,
    };
    let (scheme, username) = (url.scheme().to_string(), url.username().to_string());
    Some(UrlParts { scheme, username, has_password: url.password().is_some(), host })
}

/// Whether a host is this machine: by name, or by an IPv4 address that loops back.
pub open spec fn local_host(host: HostView) -> bool {
    match host {
        HostView::Name(name) => same_ignoring_case(name, "localhost"@),
        HostView::V4(octets) => octets[0] == 127,
        _ => false,
    }
}

/// Whether a host is this machine.
fn is_local_host(host: &UrlHost) -> (r: bool)
    ensures
        r == local_host(host@),
{
    match host {
        UrlHost::Name(name) => eq_ignore_ascii_case(
            chars_of(name.as_str()).as_slice(),
            chars_of("localhost").as_slice(),
        ),
        UrlHost::V4(octets) => octets[0] == 127,
        _ => false,
    }
}

/// The refusal of an endpoint.
pub open spec fn endpoint_error(message: Seq<char>) -> ErrorView {
    plain_error(400, "INVALID_LLM_ENDPOINT"@, message)
}

/// Whether a provider may be at a URL: it carries no credentials, and is encrypted unless it
/// is on this machine.
pub open spec fn endpoint_check(url: Option<UrlView>) -> Result<(), ErrorView> {
    match url {
        None => Err(endpoint_error("LLM_WIKI_LLM_ENDPOINT must be an absolute HTTP(S) URL"@)),
        Some(parts) => if parts.username.len() == 0 && !parts.has_password && (parts.scheme
            == "https"@ || (parts.scheme == "http"@ && local_host(parts.host))) {
            Ok(())
        } else {
            Err(
                endpoint_error(
                    "LLM endpoint must use HTTPS, except for an explicit loopback HTTP endpoint"@,
                ),
            )
        },
    }
}

/// Refuses a URL at which a provider may not be. `url` is what the endpoint was read as.
pub fn check_endpoint(url: &Option<UrlParts>) -> (r: Result<(), ApiError>)
    ensures
        verdict(r) == endpoint_check(parts_view(*url)),
{
    let parts = match url {
        Some(parts) => parts,
        None => {
            return Err(
                ApiError::new(
                    400,
                    "INVALID_LLM_ENDPOINT",
                    "LLM_WIKI_LLM_ENDPOINT must be an absolute HTTP(S) URL",
                ),
            );
        },
    };
    let scheme = parts.scheme.as_str();
    if chars_of(parts.username.as_str()).len() > 0 || parts.has_password || !(same(scheme, "https")
        || (same(scheme, "http") && is_local_host(&parts.host))) {
        return Err(
            ApiError::new(
                400,
                "INVALID_LLM_ENDPOINT",
                "LLM endpoint must use HTTPS, except for an explicit loopback HTTP endpoint",
            ),
        );
    }
    Ok(())
}

/// Refuses an endpoint at which a provider may not be.
pub fn validate_provider_endpoint(endpoint: &str) -> (r: Result<(), ApiError>)
    ensures
        verdict(r) == endpoint_check(parsed_url(endpoint@)),
{
    let url = parse_url(endpoint);
    check_endpoint(&url)
}

/// How the provider is reached.
pub struct ChatProviderConfig {
    pub endpoint: String,
    pub model: String,
    pub api_key: Option<String>,
}

/// The view of a [`ChatProviderConfig`].
pub struct ProviderView {
    pub endpoint: Seq<char>,
    pub model: Seq<char>,
    pub api_key: Option<Seq<char>>,
}

impl View for ChatProviderConfig {
    type V = ProviderView;

    open spec fn view(&self) -> ProviderView {
        ProviderView {
            endpoint: self.endpoint@,
            model: self.model@,
            api_key: optional(self.api_key),
        }
    }
}

/// A setting of the provider: as the environment says unless that is blank, or as the
/// settings say.
pub open spec fn chosen(
    settings: JsonView,
    env: Seq<(Seq<char>, Seq<char>)>,
    var: Seq<char>,
    key: Seq<char>,
) -> Option<Seq<char>> {
    if latest(env, var) matches Some(value) && trimmed(value).len() > 0 {
        latest(env, var)
    } else {
        web_chat_spec(settings, key)
    }
}

/// The key of the provider: as the environment says unless that is empty, or as the settings
/// say.
pub open spec fn chosen_key(settings: JsonView, env: Seq<(Seq<char>, Seq<char>)>) -> Option<
    Seq<char>,
> {
    if latest(env, "LLM_WIKI_LLM_API_KEY"@) matches Some(value) && value.len() > 0 {
        latest(env, "LLM_WIKI_LLM_API_KEY"@)
    } else {
        web_chat_spec(settings, "apiKey"@)
    }
}

/// The answer when the provider is not configured.
pub open spec fn not_configured(message: Seq<char>) -> ErrorView {
    plain_error(503, "CHAT_NOT_CONFIGURED"@, message)
}

/// How the provider is reached, as it is configured.
pub open spec fn configured_provider(
    settings: JsonView,
    env: Seq<(Seq<char>, Seq<char>)>,
) -> Result<ProviderView, ErrorView> {
    match chosen(settings, env, "LLM_WIKI_LLM_ENDPOINT"@, "endpoint"@) {
        None => Err(not_configured("LLM endpoint is not configured"@)),
        Some(endpoint) => match chosen(settings, env, "LLM_WIKI_LLM_MODEL"@, "model"@) {
            None => Err(not_configured("LLM model is not configured"@)),
            Some(model) => Ok(
                ProviderView { endpoint, model, api_key: chosen_key(settings, env) },
            ),
        },
    }
}

/// A setting of the provider.
fn choose_setting(settings: &Json, env: &Assignments, var: &str, key: &str) -> (r: Option<String>)
    ensures
        optional(r) == chosen(settings@, env@, var@, key@),
{
    match env.get(var) {
        Some(value) => if is_blank(value.as_str()) {
            web_chat_setting(settings, key)
        } else {
            Some(value)
        },
        None => web_chat_setting(settings, key),
    }
}

/// How the provider is reached, as it is configured; whether it may be there is not looked at.
pub fn provider_settings(settings: &Json, env: &Assignments) -> (r: Result<
    ChatProviderConfig,
    ApiError,
>)
    ensures
        outcome(r) == configured_provider(settings@, env@),
{
    let endpoint = match choose_setting(settings, env, "LLM_WIKI_LLM_ENDPOINT", "endpoint") {
        Some(endpoint) => endpoint,
        None => {
            return Err(
                ApiError::new(503, "CHAT_NOT_CONFIGURED", "LLM endpoint is not configured"),
            );
        },
    };
    let model = match choose_setting(settings, env, "LLM_WIKI_LLM_MODEL", "model") {
        Some(model) => model,
        None => {
            return Err(ApiError::new(503, "CHAT_NOT_CONFIGURED", "LLM model is not configured"));
        },
    };
    let api_key = match env.get("LLM_WIKI_LLM_API_KEY") {
        Some(value) => if chars_of(value.as_str()).len() > 0 {
            Some(value)
        } else {
            web_chat_setting(settings, "apiKey")
        },
        None => web_chat_setting(settings, "apiKey"),
    };
    Ok(ChatProviderConfig { endpoint, model, api_key })
}

/// How the provider is reached, if it is configured and may be there.
pub open spec fn provider_spec(settings: JsonView, env: Seq<(Seq<char>, Seq<char>)>) -> Result<
    ProviderView,
    ErrorView,
> {
    match configured_provider(settings, env) {
        Err(error) => Err(error),
        Ok(provider) => match endpoint_check(parsed_url(provider.endpoint)) {
            Err(error) => Err(error),
            Ok(()) => Ok(provider),
        },
    }
}

/// How the provider is reached, if it is configured and may be there.
pub fn chat_provider_config_from(settings: &Json, env: &Assignments) -> (r: Result<
    ChatProviderConfig,
    ApiError,
>)
    ensures
        outcome(r) == provider_spec(settings@, env@),
{
    let provider = match provider_settings(settings, env) {
        Ok(provider) => provider,
        Err(error) => {
            return Err(error);
        },
    };
    match validate_provider_endpoint(provider.endpoint.as_str()) {
        Ok(()) => Ok(provider),
        Err(error) => Err(error),
    }
}

/// What is sent of a message.
pub open spec fn sent_message(message: MessageView) -> JsonView {
    JsonView::Object(
        Map::<Seq<char>, JsonView>::empty().insert("role"@, JsonView::Text(message.role)).insert(
            "content"@,
            JsonView::Text(message.content),
        ),
    )
}

/// What is sent of messages.
pub open spec fn sent_messages(messages: Seq<MessageView>) -> JsonView {
    JsonView::List(Seq::new(messages.len(), |i: int| sent_message(messages[i])))
}

/// What is sent to the provider: the model, the messages, and that the answer comes in one
/// piece.
pub open spec fn request_spec(model: Seq<char>, messages: Seq<MessageView>) -> JsonView {
    JsonView::Object(
        Map::<Seq<char>, JsonView>::empty().insert("model"@, JsonView::Text(model)).insert(
            "messages"@,
            sent_messages(messages),
        ).insert("stream"@, JsonView::Bool(false)),
    )
}

/// What is sent of a message.
fn message_value(message: &ChatMessage) -> (r: Json)
    ensures
        r@ == sent_message(message@),
{
    let mut object = JsonObject::new();
    object.set("role".to_owned(), text_value(message.role.as_str()));
    object.set("content".to_owned(), text_value(message.content.as_str()));
    let r = Json::Object(object);
    proof {
        lemma_view(r);
    }
    r
}

/// What is sent to the provider.
pub fn request_body(model: &str, messages: &Vec<ChatMessage>) -> (r: Json)
    ensures
        r@ == request_spec(model@, message_views(messages@)),
{
    let ghost all = message_views(messages@);
    let mut items: Vec<Json> = Vec::new();
    let mut i: usize = 0;
    while i < messages.len()
        invariant
            i <= messages@.len(),
            all == message_views(messages@),
            items@.len() == i,
            forall|j: int| 0 <= j < i ==> (#[trigger] items@[j])@ == sent_message(all[j]),
        decreases messages@.len() - i,
    {
        items.push(message_value(&messages[i]));
        i += 1;
    }
    proof {
        lemma_list_view(items@);
        assert(list_view(items@) =~= Seq::new(all.len(), |i: int| sent_message(all[i])));
    }
    let list = Json::List(items);
    let stream = Json::Bool(false);
    proof {
        lemma_view(list);
        lemma_view(stream);
    }
    let mut object = JsonObject::new();
    object.set("model".to_owned(), text_value(model));
    object.set("messages".to_owned(), list);
    object.set("stream".to_owned(), stream);
    let r = Json::Object(object);
    proof {
        lemma_view(r);
    }
    r
}

/// The answer when the provider cannot be reached, or what it sends cannot be read.
pub fn provider_failed(message: &str) -> (e: ApiError)
    ensures
        e@ == plain_error(502, "LLM_ERROR"@, message@),
{
    ApiError::new(502, "LLM_ERROR", message)
}

/// The first of the choices: the first item of a list, or the member "0" of an object.
pub open spec fn first_choice(choices: JsonView) -> Option<JsonView> {
    match choices {
        JsonView::List(items) => if items.len() > 0 {
            Some(items[0])
        } else {
            None
        },
        _ => member(choices, "0"@),
    }
}

/// The text of the first choice of an answer.
pub open spec fn answer_text(body: JsonView) -> Option<Seq<char>> {
    match member(body, "choices"@) {
        None => None,
        Some(choices) => match first_choice(choices) {
            None => None,
            Some(choice) => match member(choice, "message"@) {
                None => None,
                Some(message) => match member(message, "content"@) {
                    Some(JsonView::Text(text)) => Some(text),
                    _ => None,
                },
            },
        },
    }
}

/// Whether a status is one of success.
pub open spec fn success(status: u16) -> bool {
    200 <= status < 300
}

/// What an answer of the provider says. `status_text` is how the status is written.
pub open spec fn answer_spec(status: u16, status_text: Seq<char>, body: JsonView) -> Result<
    Seq<char>,
    ErrorView,
> {
    if !success(status) {
        Err(plain_error(502, "LLM_ERROR"@, "provider returned "@ + status_text))
    } else {
        match answer_text(body) {
            Some(text) => Ok(text),
            None => Err(
                plain_error(
                    502,
                    "LLM_INVALID_RESPONSE"@,
                    "provider response did not include choices[0].message.content"@,
                ),
            ),
        }
    }
}

/// The first of the choices.
fn get_first_choice(choices: &Json) -> (r: Option<&Json>)
    ensures
        match r {
            Some(choice) => first_choice(choices@) == Some(choice@),
            None => first_choice(choices@) is None,
        },
{
    proof {
        lemma_view(*choices);
    }
    match choices {
        Json::List(items) => {
            proof {
                lemma_list_view(items@);
            }
            if items.len() > 0 {
                Some(&items[0])
            } else {
                None
            }
        },
        _ => choices.get("0"),
    }
}

/// The text of the first choice of an answer.
fn get_answer_text(body: &Json) -> (r: Option<String>)
    ensures
        optional(r) == answer_text(body@),
{
    match body.get("choices") {
        None => None,
        Some(choices) => match get_first_choice(choices) {
            None => None,
            Some(choice) => match choice.get("message") {
                None => None,
                Some(message) => match message.get("content") {
                    None => None,
                    Some(content) => match content.as_text() {
                        Some(text) => Some(text.clone()),
                        None => None,
                    },
                },
            },
        },
    }
}

/// What an answer of the provider says. `status_text` is how the status is written.
pub fn provider_answer(status: u16, status_text: &str, body: &Json) -> (r: Result<
    String,
    ApiError,
>)
    ensures
        outcome(r) == answer_spec(status, status_text@, body@),
{
    if status < 200 || status >= 300 {
        return Err(provider_failed("provider returned ".to_owned().concat(status_text).as_str()));
    }
    match get_answer_text(body) {
        Some(text) => Ok(text),
        None => Err(
            ApiError::new(
                502,
                "LLM_INVALID_RESPONSE",
                "provider response did not include choices[0].message.content",
            ),
        ),
    }
}

/// A provider that is used carries no credentials in its URL, and is encrypted or on this
/// machine.
pub proof fn law_provider_is_trustworthy(settings: JsonView, env: Seq<(Seq<char>, Seq<char>)>)
    ensures
        provider_spec(settings, env) matches Ok(provider) ==> (parsed_url(provider.endpoint)
            matches Some(url) && url.username.len() == 0 && !url.has_password && (url.scheme
            == "https"@ || (url.scheme == "http"@ && local_host(url.host)))),
{
}

/// What the environment says counts before what the settings say.
pub proof fn law_environment_counts_first(
    settings: JsonView,
    env: Seq<(Seq<char>, Seq<char>)>,
    endpoint: Seq<char>,
    model: Seq<char>,
    key: Seq<char>,
)
    requires
        latest(env, "LLM_WIKI_LLM_ENDPOINT"@) == Some(endpoint),
        latest(env, "LLM_WIKI_LLM_MODEL"@) == Some(model),
        latest(env, "LLM_WIKI_LLM_API_KEY"@) == Some(key),
        trimmed(endpoint).len() > 0,
        trimmed(model).len() > 0,
        key.len() > 0,
    ensures
        configured_provider(settings, env) == Ok::<ProviderView, ErrorView>(
            ProviderView { endpoint, model, api_key: Some(key) },
        ),
{
}

/// Every message of a conversation is sent, in order, with its role and its content and nothing
/// else, beside the model and that the answer comes in one piece.
pub proof fn law_whole_conversation_is_sent(model: Seq<char>, messages: Seq<MessageView>)
    ensures
        request_spec(model, messages) matches JsonView::Object(body) && {
            &&& body.dom() == set!["model"@, "messages"@, "stream"@]
            &&& body["model"@] == JsonView::Text(model)
            &&& body["stream"@] == JsonView::Bool(false)
            &&& body["messages"@] matches JsonView::List(items) && {
                &&& items.len() == messages.len()
                &&& forall|i: int|
                    0 <= i < messages.len() ==> (#[trigger] items[i] matches JsonView::Object(item)
                        && {
                        &&& item.dom() == set!["role"@, "content"@]
                        &&& item["role"@] == JsonView::Text(messages[i].role)
                        &&& item["content"@] == JsonView::Text(messages[i].content)
                    })
            }
        },
{
    reveal_strlit("model");
    reveal_strlit("messages");
    reveal_strlit("stream");
    reveal_strlit("role");
    reveal_strlit("content");
    assert("model"@.len() == 5 && "messages"@.len() == 8 && "stream"@.len() == 6);
    assert("role"@.len() == 4 && "content"@.len() == 7);
    let body = request_spec(model, messages)->Object_0;
    assert(body.dom() =~= set!["model"@, "messages"@, "stream"@]);
    assert(body["messages"@] == sent_messages(messages));
    let items = body["messages"@]->List_0;
    assert forall|i: int| 0 <= i < messages.len() implies (
    #[trigger] items[i] matches JsonView::Object(item) && {
        &&& item.dom() == set!["role"@, "content"@]
        &&& item["role"@] == JsonView::Text(messages[i].role)
        &&& item["content"@] == JsonView::Text(messages[i].content)
    }) by {
        let item = items[i]->Object_0;
        assert(item.dom() =~= set!["role"@, "content"@]);
    }
}

/// The answer of a provider is the text of its first choice, if the status is one of success and
/// there is one; else it is an error.
pub proof fn law_answer_is_first_choice(
    status: u16,
    status_text: Seq<char>,
    choices: Seq<JsonView>,
    body: Map<Seq<char>, JsonView>,
    choice: Map<Seq<char>, JsonView>,
    message: Map<Seq<char>, JsonView>,
    text: Seq<char>,
)
    requires
        body.contains_key("choices"@),
        body["choices"@] == JsonView::List(choices),
        choices.len() > 0,
        choices[0] == JsonView::Object(choice),
        choice.contains_key("message"@),
        choice["message"@] == JsonView::Object(message),
        message.contains_key("content"@),
        message["content"@] == JsonView::Text(text),
    ensures
        match answer_spec(status, status_text, JsonView::Object(body)) {
            Ok(answer) => 200 <= status <= 299 && answer == text,
            Err(error) => !(200 <= status <= 299) && error.status == 502 && error.code
                == "LLM_ERROR"@ && error.message == "provider returned "@ + status_text,
        },
{
}

/// The first choice may be the member of an object under the key of a single zero, too.
pub proof fn law_first_choice_may_be_a_member(
    status: u16,
    status_text: Seq<char>,
    choices: Map<Seq<char>, JsonView>,
    body: Map<Seq<char>, JsonView>,
    choice: JsonView,
)
    requires
        choices.contains_key("0"@),
        choices["0"@] == choice,
        body.contains_key("choices"@),
        body["choices"@] == JsonView::Object(choices),
    ensures
        answer_spec(status, status_text, JsonView::Object(body)) == answer_spec(
            status,
            status_text,
            JsonView::Object(body.insert("choices"@, JsonView::List(seq![choice]))),
        ),
{
}

/// An answer without a first choice is refused, and so is one whose first choice has no message
/// or no text in it.
pub proof fn law_answer_without_text_is_refused(
    status: u16,
    status_text: Seq<char>,
    body: JsonView,
    members: Map<Seq<char>, JsonView>,
    choices: Seq<JsonView>,
    choice: Map<Seq<char>, JsonView>,
    message: Map<Seq<char>, JsonView>,
)
    requires
        200 <= status <= 299,
        ({
            ||| !(body is Object)
            ||| body == JsonView::Object(members) && !members.contains_key("choices"@)
            ||| body == JsonView::Object(members) && members.contains_key("choices"@) && {
                ||| !(members["choices"@] is List) && !(members["choices"@] is Object)
                ||| members["choices"@] == JsonView::List(seq![])
                ||| members["choices"@] == JsonView::List(choices) && choices.len() > 0 && {
                    ||| !(choices[0] is Object)
                    ||| choices[0] == JsonView::Object(choice) && !choice.contains_key("message"@)
                    ||| choices[0] == JsonView::Object(choice) && choice.contains_key("message"@) && {
                        ||| !(choice["message"@] is Object)
                        ||| choice["message"@] == JsonView::Object(message) && (
                        !message.contains_key("content"@) || !(message["content"@] is Text))
                    }
                }
            }
        }),
    ensures
        answer_spec(status, status_text, body) matches Err(error) && error.status == 502
            && error.code == "LLM_INVALID_RESPONSE"@,
{
}

/// An endpoint is accepted if it is an encrypted URL without credentials, or one on this machine;
/// every other URL, and what is none, is refused.
pub proof fn law_endpoint_is_judged(url: UrlView)
    ensures
        endpoint_check(None) matches Err(error) && error.status == 400 && error.code
            == "INVALID_LLM_ENDPOINT"@,
        url.username.len() > 0 || url.has_password ==> endpoint_check(Some(url)) is Err,
        url.scheme != "https"@ && url.scheme != "http"@ ==> endpoint_check(Some(url)) is Err,
        url.username.len() == 0 && !url.has_password && url.scheme == "https"@ ==> endpoint_check(
            Some(url),
        ) is Ok,
        url.username.len() == 0 && !url.has_password && url.scheme == "http"@ ==> (endpoint_check(
            Some(url),
        ) is Ok <==> match url.host {
            HostView::V4(octets) => octets[0] == 127,
            HostView::Name(name) => name.len() == 9 && forall|i: int|
                0 <= i < 9 ==> (#[trigger] name[i] == "localhost"@[i] || (name[i] as u32) + 32
                    == "localhost"@[i] as u32),
            _ => false,
        }),
        endpoint_check(Some(url)) matches Err(error) ==> error.status == 400 && error.code
            == "INVALID_LLM_ENDPOINT"@,
{
    reveal_strlit("localhost");
    reveal_strlit("http");
    reveal_strlit("https");
    assert("http"@.len() == 4 && "https"@.len() == 5);
    if let HostView::Name(name) = url.host {
        let wanted = "localhost"@;
        let low = lower_ascii_spec(name);
        assert(lower_ascii_spec(wanted) =~= wanted);
        if name.len() == 9 && forall|i: int|
            0 <= i < 9 ==> (#[trigger] name[i] == wanted[i] || (name[i] as u32) + 32
                == wanted[i] as u32) {
            assert forall|i: int| 0 <= i < 9 implies low[i] == wanted[i] by {
                assert(name[i] == wanted[i] || (name[i] as u32) + 32 == wanted[i] as u32);
            }
            assert(low =~= wanted);
        }
        if same_ignoring_case(name, wanted) {
            assert(name.len() == low.len());
            assert forall|i: int| 0 <= i < 9 implies (#[trigger] name[i] == wanted[i] || (
            name[i] as u32) + 32 == wanted[i] as u32) by {
                assert(low[i] == wanted[i]);
            }
        }
    }
}

/// Contracts speak of whole values: every part of a value is in its view, in its place, and nothing
/// else is.
pub proof fn law_views_of_provider_are_whole(
    parts: UrlParts,
    config: ChatProviderConfig,
    host: UrlHost,
    url: Option<UrlParts>,
)
    ensures
        parts@.scheme == parts.scheme@,
        parts@.username == parts.username@,
        parts@.has_password == parts.has_password,
        parts@.host == parts.host@,
        config@.endpoint == config.endpoint@,
        config@.model == config.model@,
        config@.api_key == optional(config.api_key),
        match host {
            UrlHost::Missing => host@ is Missing,
            UrlHost::Name(name) => host@ matches HostView::Name(shown) && shown == name@,
            UrlHost::V4(octets) => host@ matches HostView::V4(shown) && shown == octets@,
            UrlHost::V6 => host@ is V6,
        },
        match url {
            Some(found) => parts_view(url) == Some(found@),
            None => parts_view(url) is None,
        },
{
}

/// A setting that the environment does not give, or gives blank, is that of the settings; without
/// an endpoint or a model there is no provider, and without a key there is one.
pub proof fn law_settings_count_second(
    settings: JsonView,
    env: Seq<(Seq<char>, Seq<char>)>,
)
    requires
        latest(env, "LLM_WIKI_LLM_ENDPOINT"@) is None || latest(env, "LLM_WIKI_LLM_ENDPOINT"@)
            == Some(Seq::<char>::empty()),
        latest(env, "LLM_WIKI_LLM_MODEL"@) is None || latest(env, "LLM_WIKI_LLM_MODEL"@) == Some(
            Seq::<char>::empty(),
        ),
        latest(env, "LLM_WIKI_LLM_API_KEY"@) is None || latest(env, "LLM_WIKI_LLM_API_KEY"@)
            == Some(Seq::<char>::empty()),
    ensures
        match configured_provider(settings, env) {
            Ok(provider) => {
                &&& web_chat_spec(settings, "endpoint"@) == Some(provider.endpoint)
                &&& web_chat_spec(settings, "model"@) == Some(provider.model)
                &&& web_chat_spec(settings, "apiKey"@) == provider.api_key
            },
            Err(error) => {
                &&& error.status == 503 && error.code == "CHAT_NOT_CONFIGURED"@
                &&& web_chat_spec(settings, "endpoint"@) is None || web_chat_spec(
                    settings,
                    "model"@,
                ) is None
            },
        },
{
    assert(trimmed(seq![]) =~= seq![]);
}

/// A provider that is configured is used exactly if it may be where its endpoint says.
pub proof fn law_configured_provider_is_used(
    settings: JsonView,
    env: Seq<(Seq<char>, Seq<char>)>,
)
    ensures
        match configured_provider(settings, env) {
            Ok(provider) => match endpoint_check(parsed_url(provider.endpoint)) {
                Ok(()) => provider_spec(settings, env) == Ok::<ProviderView, ErrorView>(provider),
                Err(error) => provider_spec(settings, env) == Err::<ProviderView, ErrorView>(error),
            },
            Err(error) => provider_spec(settings, env) == Err::<ProviderView, ErrorView>(error),
        },
{
}

} // verus!
