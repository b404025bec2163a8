//! The errors that the server answers with.

use vstd::prelude::*;

use crate::json::{Json, JsonObject, JsonView, lemma_view, text_value};

verus! {

/// What an error says besides its message.
pub enum Details {
    /// Nothing.
    Empty,
    /// The revision that was expected and the one that was found.
    Revisions { expected: Option<String>, actual: String },
}

/// The view of [`Details`].
pub enum DetailsView {
    Empty,
    Revisions { expected: Option<Seq<char>>, actual: Seq<char> },
}

/// The text inside an optional text.
pub open spec fn optional(text: Option<String>) -> Option<Seq<char>> {
    match text {
        Some(text) => Some(text@),
        None => None,
    }
}

impl View for Details {
    type V = DetailsView;

    open spec fn view(&self) -> DetailsView {
        match self {
            Details::Empty => DetailsView::Empty,
            Details::Revisions { expected, actual } => DetailsView::Revisions {
                expected: optional(*expected),
                actual: actual@,
            },
        }
    }
}

/// An error answer: its HTTP status, a code for programs, a message for people.
pub struct ApiError {
    pub status: u16,
    pub code: &'static str,
    pub message: String,
    pub details: Details,
}

/// The view of an [`ApiError`].
pub struct ErrorView {
    pub status: int,
    pub code: Seq<char>,
    pub message: Seq<char>,
    pub details: DetailsView,
}

impl View for ApiError {
    type V = ErrorView;

    open spec fn view(&self) -> ErrorView {
        ErrorView {
            status: self.status as int,
            code: self.code@,
            message: self.message@,
            details: self.details@,
        }
    }
}

/// An error without details.
pub open spec fn plain_error(status: int, code: Seq<char>, message: Seq<char>) -> ErrorView {
    ErrorView { status, code, message, details: DetailsView::Empty }
}

/// The answer to a write that expected another revision.
pub open spec fn conflict_error(expected: Option<Seq<char>>, actual: Seq<char>) -> ErrorView {
    ErrorView {
        status: 409,
        code: "FILE_REVISION_CONFLICT"@,
        message: "File was modified by another client"@,
        details: DetailsView::Revisions { expected, actual },
    }
}

/// The view of an outcome.
pub open spec fn outcome<T: View>(r: Result<T, ApiError>) -> Result<T::V, ErrorView> {
    match r {
        Ok(value) => Ok(value@),
        Err(error) => Err(error@),
    }
}

/// The view of an outcome that carries nothing.
pub open spec fn verdict(r: Result<(), ApiError>) -> Result<(), ErrorView> {
    match r {
        Ok(()) => Ok(()),
        Err(error) => Err(error@),
    }
}

impl ApiError {
    /// An error without details.
    pub fn new(status: u16, code: &'static str, message: &str) -> (e: ApiError)
        ensures
            e@ == plain_error(status as int, code@, message@),
    {
        ApiError { status, code, message: message.to_owned(), details: Details::Empty }
    }

    /// The answer to a write that expected another revision.
    pub fn conflict(expected: Option<String>, actual: String) -> (e: ApiError)
        ensures
            e@ == conflict_error(optional(expected), actual@),
    {
        ApiError {
            status: 409,
            code: "FILE_REVISION_CONFLICT",
            message: "File was modified by another client".to_owned(),
            details: Details::Revisions { expected, actual },
        }
    }
}

/// The details of an error as a value.
pub open spec fn details_value(details: DetailsView) -> JsonView {
    let none = Map::<Seq<char>, JsonView>::empty();
    JsonView::Object(
        match details {
            DetailsView::Empty => none,
            DetailsView::Revisions { expected, actual } => none.insert(
                "expected"@,
                match expected {
                    Some(text) => JsonView::Text(text),
                    None => JsonView::Null,
                },
            ).insert("actual"@, JsonView::Text(actual)),
        },
    )
}

/// What an error is answered with: its code, its message, the identifier of the request and
/// its details.
pub open spec fn error_body_spec(error: ErrorView, request_id: Seq<char>) -> JsonView {
    JsonView::Object(
        Map::<Seq<char>, JsonView>::empty().insert(
            "error"@,
            JsonView::Object(
                Map::<Seq<char>, JsonView>::empty().insert(
                    "code"@,
                    JsonView::Text(error.code),
                ).insert("message"@, JsonView::Text(error.message)).insert(
                    "requestId"@,
                    JsonView::Text(request_id),
                ).insert("details"@, details_value(error.details)),
            ),
        ),
    )
}

/// The details of an error as a value.
fn value_of_details(details: &Details) -> (r: Json)
    ensures
        r@ == details_value(details@),
{
    let mut object = JsonObject::new();
    match details {
        Details::Empty => {},
        Details::Revisions { expected, actual } => {
            let expected = match expected {
                Some(text) => text_value(text.as_str()),
                None => Json::Null,
            };
            proof {
                lemma_view(expected);
            }
            object.set("expected".to_owned(), expected);
            object.set("actual".to_owned(), text_value(actual.as_str()));
        },
    }
    let r = Json::Object(object);
    proof {
        lemma_view(r);
    }
    r
}

/// What an error is answered with.
pub fn error_body(error: &ApiError, request_id: &str) -> (r: Json)
    ensures
        r@ == error_body_spec(error@, request_id@),
{
    let mut inner = JsonObject::new();
    inner.set("code".to_owned(), text_value(error.code));
    inner.set("message".to_owned(), text_value(error.message.as_str()));
    inner.set("requestId".to_owned(), text_value(request_id));
    inner.set("details".to_owned(), value_of_details(&error.details));
    let inner = Json::Object(inner);
    proof {
        lemma_view(inner);
    }
    let mut outer = JsonObject::new();
    outer.set("error".to_owned(), inner);
    let r = Json::Object(outer);
    proof {
        lemma_view(r);
    }
    r
}

/// Copies an optional text.
pub fn copy_optional(text: &Option<String>) -> (r: Option<String>)
    ensures
        r == *text,
{
    match text {
        Some(text) => Some(text.clone()),
        None => None,
    }
}

/// An error is answered with four members and no others; its details are empty, or the two
/// revisions.
pub proof fn law_error_says_four_things(error: ErrorView, request_id: Seq<char>)
    ensures
        error_body_spec(error, request_id) matches JsonView::Object(body) && body.dom()
            == set!["error"@] && (body["error"@] matches JsonView::Object(members) && {
            &&& members.dom() == set!["code"@, "message"@, "requestId"@, "details"@]
            &&& members["code"@] == JsonView::Text(error.code)
            &&& members["message"@] == JsonView::Text(error.message)
            &&& members["requestId"@] == JsonView::Text(request_id)
            &&& members["details"@] matches JsonView::Object(details)
            &&& match error.details {
                DetailsView::Empty => details.dom() == Set::<Seq<char>>::empty(),
                DetailsView::Revisions { expected, actual } => {
                    &&& details.dom() == set!["expected"@, "actual"@]
                    &&& details["actual"@] == JsonView::Text(actual)
                    &&& expected matches Some(text) ==> details["expected"@] == JsonView::Text(text)
                    &&& expected is None ==> details["expected"@] is Null
                },
            }
        }),
{
    reveal_strlit("code");
    reveal_strlit("message");
    reveal_strlit("requestId");
    reveal_strlit("details");
    reveal_strlit("expected");
    reveal_strlit("actual");
    assert("code"@.len() == 4 && "message"@.len() == 7 && "requestId"@.len() == 9);
    assert("message"@[0] == 'm' && "details"@[0] == 'd');
    assert("expected"@.len() == 8 && "actual"@.len() == 6);
    let body = error_body_spec(error, request_id)->Object_0;
    assert(body.dom() =~= set!["error"@]);
    let members = body["error"@]->Object_0;
    assert(members.dom() =~= set!["code"@, "message"@, "requestId"@, "details"@]);
    let details = members["details"@]->Object_0;
    match error.details {
        DetailsView::Empty => {
            assert(details.dom() =~= Set::<Seq<char>>::empty());
        },
        DetailsView::Revisions { expected, actual } => {
            assert(details.dom() =~= set!["expected"@, "actual"@]);
        },
    }
}

/// What a conflict says: which revision was expected, which was found, and that another client
/// wrote the file.
pub proof fn law_conflict_is_told(expected: Option<Seq<char>>, actual: Seq<char>)
    ensures
        conflict_error(expected, actual).status == 409,
        conflict_error(expected, actual).code == "FILE_REVISION_CONFLICT"@,
        conflict_error(expected, actual).message == "File was modified by another client"@,
        conflict_error(expected, actual).details == (DetailsView::Revisions { expected, actual }),
{
}

/// Contracts speak of whole values: every part of a value is in its view, in its place, and nothing
/// else is.
pub proof fn law_views_of_error_are_whole(
    error: ApiError,
    details: Details,
    text: Option<String>,
    done: Result<String, ApiError>,
    checked: Result<(), ApiError>,
)
    ensures
        error@.status == error.status as int,
        error@.code == error.code@,
        error@.message == error.message@,
        error@.details == error.details@,
        match details {
            Details::Empty => details@ is Empty,
            Details::Revisions { expected, actual } => details@ == (DetailsView::Revisions {
                expected: optional(expected),
                actual: actual@,
            }),
        },
        match text {
            Some(inner) => optional(text) == Some(inner@),
            None => optional(text) is None,
        },
        match done {
            Ok(value) => outcome(done) matches Ok(shown) && shown == value@,
            Err(error) => outcome(done) matches Err(shown) && shown == error@,
        },
        match checked {
            Ok(()) => verdict(checked) is Ok,
            Err(error) => verdict(checked) matches Err(shown) && shown == error@,
        },
{
}

/// An error says what it was made with, and nothing more.
pub proof fn law_error_says_what_it_was_made_with(
    status: int,
    code: Seq<char>,
    message: Seq<char>,
)
    ensures
        plain_error(status, code, message).status == status,
        plain_error(status, code, message).code == code,
        plain_error(status, code, message).message == message,
        plain_error(status, code, message).details is Empty,
{
}

} // verus!
