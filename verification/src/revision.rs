//! Revisions of files: the digest of what they hold, and the ways in which a request may
//! name one.

use vstd::prelude::*;
use vstd::utf8::encode_utf8;

use crate::error::{
    ApiError, DetailsView, ErrorView, conflict_error, optional, outcome, plain_error, verdict,
};
use crate::headers::{
    Headers, header_text, header_value, header_value_spec, lemma_printable_value, printable,
    value_text,
};
use crate::numbers::{hex, hex_spec};
use crate::text::{
    CharSet, chars_of, head, lemma_trim_end, lemma_trim_start, same, take_chars, text_of, trim,
    trim_end_spec, trim_prefixes, trim_prefixes_spec, trim_spec, white_space,
};

verus! {

/// The SHA-256 digest of bytes, as `sha2::Sha256::digest` computes it.
pub uninterp spec fn sha256_digest(bytes: Seq<u8>) -> Seq<u8>;

/// `sha2::Sha256::digest`: the digest depends on the bytes alone and has 32 bytes.
#[verifier::external_body]
fn sha256(bytes: &[u8]) -> (digest: Vec<u8>)
    ensures
        digest@ == sha256_digest(bytes@),
        digest@.len() == 32,
{
    <sha2::Sha256 as sha2::Digest>::digest(bytes).to_vec()
}

/// The revision of a file: the digest of what it holds, in hexadecimal.
pub open spec fn revision_spec(bytes: Seq<u8>) -> Seq<char> {
    hex_spec(sha256_digest(bytes))
}

/// The revision of a file.
pub fn revision(bytes: &[u8]) -> (r: String)
    ensures
        r@ == revision_spec(bytes@),
        r@.len() == 64,
{
    let digest = sha256(bytes);
    hex(digest.as_slice())
}

/// The digest of a text, in hexadecimal.
pub open spec fn hash_spec(value: Seq<char>) -> Seq<char> {
    revision_spec(encode_utf8(value))
}

/// The digest of a text, in hexadecimal.
pub fn hash_string(value: &str) -> (r: String)
    ensures
        r@ == hash_spec(value@),
{
    revision(value.as_bytes())
}

/// The identifier of a project that a digest gives: its first sixteen digits.
pub open spec fn digest_id(digest: Seq<char>) -> Seq<char> {
    "project-"@ + head(digest, 16)
}

/// The identifier of a project that a digest gives.
pub fn project_id_of(digest: &str) -> (r: String)
    ensures
        r@ == digest_id(digest@),
{
    let chars = chars_of(digest);
    let first = text_of(take_chars(chars.as_slice(), 16));
    "project-".to_owned().concat(first.as_str())
}

/// The identifier of a project that is known by its path alone.
pub open spec fn project_id_spec(path: Seq<char>) -> Seq<char> {
    digest_id(hash_spec(path))
}

/// The identifier of a project that is known by its path alone.
pub fn stable_project_id(path: &str) -> (r: String)
    ensures
        r@ == project_id_spec(path@),
{
    project_id_of(hash_string(path).as_str())
}

/// A text between quotes.
pub open spec fn quoted(value: Seq<char>) -> Seq<char> {
    "\""@ + value + "\""@
}

/// The answer to a header value that cannot be made.
pub open spec fn header_error(message: Seq<char>) -> ErrorView {
    plain_error(500, "HEADER_ERROR"@, message)
}

/// The outcome of making a header value.
pub open spec fn header_outcome(r: Result<Seq<u8>, Seq<char>>) -> Result<Seq<u8>, ErrorView> {
    match r {
        Ok(bytes) => Ok(bytes),
        Err(message) => Err(header_error(message)),
    }
}

/// The entity tag of a revision: the revision between quotes.
pub fn quoted_etag(value: &str) -> (r: Result<Vec<u8>, ApiError>)
    ensures
        outcome(r) == header_outcome(header_value_spec(quoted(value@))),
{
    match header_value("\"".to_owned().concat(value).concat("\"").as_str()) {
        Ok(bytes) => Ok(bytes),
        Err(message) => Err(ApiError::new(500, "HEADER_ERROR", message.as_str())),
    }
}

/// The revision that an entity tag names: without the mark of a weak tag, and without
/// quotes.
pub open spec fn unquote_spec(value: Seq<char>) -> Seq<char> {
    trim_spec(trim_prefixes_spec(trim_spec(value, CharSet::WhiteSpace), "W/"@), CharSet::One('"'))
}

/// The revision that an entity tag names.
pub fn unquote_etag(value: &str) -> (r: String)
    ensures
        r@ == unquote_spec(value@),
{
    let chars = chars_of(value);
    let weak = chars_of("W/");
    let inner = trim_prefixes(trim(chars.as_slice(), CharSet::WhiteSpace), weak.as_slice());
    text_of(trim(inner, CharSet::One('"')))
}

/// Two places in which a request may name a revision: either may be silent, and if both
/// speak they must agree.
pub open spec fn agreed_revision(
    left: Option<Seq<char>>,
    right: Option<Seq<char>>,
    message: Seq<char>,
) -> Result<Option<Seq<char>>, ErrorView> {
    if left is Some && right is Some && left != right {
        Err(plain_error(400, "REVISION_MISMATCH"@, message))
    } else if left is Some {
        Ok(left)
    } else {
        Ok(right)
    }
}

/// The view of a revision that may be missing, or an error.
pub open spec fn revision_outcome(r: Result<Option<String>, ApiError>) -> Result<
    Option<Seq<char>>,
    ErrorView,
> {
    match r {
        Ok(revision) => Ok(optional(revision)),
        Err(error) => Err(error@),
    }
}

/// The revision that two places of a request name.
fn agree(left: Option<String>, right: Option<String>, message: &str) -> (r: Result<
    Option<String>,
    ApiError,
>)
    ensures
        revision_outcome(r) == agreed_revision(optional(left), optional(right), message@),
{
    match (left, right) {
        (Some(left), Some(right)) => {
            if !same(left.as_str(), right.as_str()) {
                return Err(ApiError::new(400, "REVISION_MISMATCH", message));
            }
            Ok(Some(left))
        },
        (Some(left), None) => Ok(Some(left)),
        (None, right) => Ok(right),
    }
}

/// The revision that the `If-Match` header of a request names.
pub open spec fn if_match(fields: Seq<(Seq<char>, Seq<u8>)>) -> Option<Seq<char>> {
    match header_text(fields, "if-match"@) {
        Some(value) => Some(unquote_spec(value)),
        None => None,
    }
}

/// The revision that a request expects, by its header or by its body.
pub open spec fn supplied_spec(
    fields: Seq<(Seq<char>, Seq<u8>)>,
    body_revision: Option<Seq<char>>,
) -> Result<Option<Seq<char>>, ErrorView> {
    agreed_revision(
        if_match(fields),
        body_revision,
        "If-Match and body revision must match when both are supplied"@,
    )
}

/// The revision that a request expects, by its header or by its body.
pub fn supplied_revision(headers: &Headers, body_revision: Option<String>) -> (r: Result<
    Option<String>,
    ApiError,
>)
    ensures
        revision_outcome(r) == supplied_spec(headers@, optional(body_revision)),
{
    let header_revision = match headers.text("if-match") {
        Some(value) => Some(unquote_etag(value.as_str())),
        None => None,
    };
    agree(
        header_revision,
        body_revision,
        "If-Match and body revision must match when both are supplied",
    )
}

/// The revision that a request expects, by its query or by its body.
pub fn merge_revision(left: Option<String>, right: Option<String>) -> (r: Result<
    Option<String>,
    ApiError,
>)
    ensures
        revision_outcome(r) == agreed_revision(
            optional(left),
            optional(right),
            "query and body revisions must match when both are supplied"@,
        ),
{
    agree(left, right, "query and body revisions must match when both are supplied")
}

/// Whether a file in a revision may be written: one that exists, only with that revision; one
/// that does not, with no revision or with an asterisk.
pub open spec fn write_verdict(supplied: Option<Seq<char>>, actual: Option<Seq<char>>) -> Result<
    (),
    ErrorView,
> {
    match actual {
        Some(revision) => if supplied == actual {
            Ok(())
        } else {
            Err(conflict_error(supplied, revision))
        },
        None => match supplied {
            Some(value) => if value == "*"@ {
                Ok(())
            } else {
                Err(conflict_error(supplied, "missing"@))
            },
            None => Ok(()),
        },
    }
}

/// Refuses to write a file that is not in the revision that the request expects. `actual` is
/// its revision, if it exists.
pub fn compare_for_write(supplied: Option<String>, actual: Option<String>) -> (r: Result<
    (),
    ApiError,
>)
    ensures
        verdict(r) == write_verdict(optional(supplied), optional(actual)),
{
    match actual {
        Some(actual) => {
            let expected = match &supplied {
                Some(value) => same(value.as_str(), actual.as_str()),
                None => false,
            };
            if expected {
                Ok(())
            } else {
                Err(ApiError::conflict(supplied, actual))
            }
        },
        None => {
            let refused = match &supplied {
                Some(value) => !same(value.as_str(), "*"),
                None => false,
            };
            if refused {
                Err(ApiError::conflict(supplied, "missing".to_owned()))
            } else {
                Ok(())
            }
        },
    }
}

/// Whether a file may be written. `current` is what it holds, if it exists.
pub open spec fn write_check(supplied: Option<Seq<char>>, current: Option<Seq<u8>>) -> Result<
    (),
    ErrorView,
> {
    write_verdict(
        supplied,
        match current {
            Some(bytes) => Some(revision_spec(bytes)),
            None => None,
        },
    )
}

/// What a file holds, if it exists.
pub open spec fn contents(current: Option<Vec<u8>>) -> Option<Seq<u8>> {
    match current {
        Some(bytes) => Some(bytes@),
        None => None,
    }
}

/// Refuses to write a file that is not in the revision that the request expects. `current`
/// is what the file holds, if it exists.
pub fn check_write(supplied: Option<String>, current: &Option<Vec<u8>>) -> (r: Result<
    (),
    ApiError,
>)
    ensures
        verdict(r) == write_check(optional(supplied), contents(*current)),
{
    let actual = match current {
        Some(bytes) => Some(revision(bytes.as_slice())),
        None => None,
    };
    compare_for_write(supplied, actual)
}

/// Whether a file in a revision may be deleted: with no revision, or with that one.
pub open spec fn delete_verdict(supplied: Option<Seq<char>>, actual: Seq<char>) -> Result<
    (),
    ErrorView,
> {
    if supplied is Some && supplied != Some(actual) {
        Err(conflict_error(supplied, actual))
    } else {
        Ok(())
    }
}

/// Refuses to delete a file that is not in the revision that the request expects. `actual` is
/// its revision.
pub fn compare_for_delete(supplied: Option<String>, actual: String) -> (r: Result<(), ApiError>)
    ensures
        verdict(r) == delete_verdict(optional(supplied), actual@),
{
    let refused = match &supplied {
        Some(value) => !same(value.as_str(), actual.as_str()),
        None => false,
    };
    if refused {
        Err(ApiError::conflict(supplied, actual))
    } else {
        Ok(())
    }
}

/// Whether a file that holds `bytes` may be deleted.
pub open spec fn delete_check(supplied: Option<Seq<char>>, bytes: Seq<u8>) -> Result<
    (),
    ErrorView,
> {
    delete_verdict(supplied, revision_spec(bytes))
}

/// Refuses to delete a file that is not in the revision that the request expects. `bytes` is
/// what the file holds.
pub fn check_delete(supplied: Option<String>, bytes: &[u8]) -> (r: Result<(), ApiError>)
    ensures
        verdict(r) == delete_check(optional(supplied), bytes@),
{
    compare_for_delete(supplied, revision(bytes))
}

/// An entity tag for a revision, strong or weak.
pub open spec fn entity_tag(value: Seq<char>, weak: bool) -> Seq<char> {
    if weak {
        "W/"@ + quoted(value)
    } else {
        quoted(value)
    }
}

/// Unquoting undoes quoting, for a revision that has no quotes at its ends: whether the tag is
/// strong or weak, and whatever white space stands around it.
pub proof fn law_unquote_undoes_quote(
    before: Seq<char>,
    value: Seq<char>,
    weak: bool,
    after: Seq<char>,
)
    requires
        forall|i: int| 0 <= i < before.len() ==> white_space(#[trigger] before[i]),
        forall|i: int| 0 <= i < after.len() ==> white_space(#[trigger] after[i]),
        value.len() > 0 ==> value[0] != '"' && value.last() != '"',
    ensures
        unquote_spec(before + entity_tag(value, weak) + after) == value,
{
    reveal_strlit("\"");
    reveal_strlit("W/");
    let space = CharSet::WhiteSpace;
    let quote = CharSet::One('"');
    let whole = quoted(value);
    let tag = entity_tag(value, weak);
    assert(whole[0] == '"' && whole.last() == '"');
    assert(tag.len() > 0 && !space.has(tag[0]) && !space.has(tag.last()));
    assert(before + tag + after =~= before + (tag + after));
    lemma_trim_start(before, tag + after, space);
    lemma_trim_end(tag, after, space);
    assert(!"W/"@.is_prefix_of(whole)) by {
        assert("W/"@[0] == 'W');
    }
    if weak {
        assert("W/"@.is_prefix_of(tag));
        assert(tag.skip(2) =~= whole);
        assert(trim_prefixes_spec(tag, "W/"@) == trim_prefixes_spec(whole, "W/"@));
    }
    let mark = seq!['"'];
    if value.len() == 0 {
        assert(whole =~= mark + mark + value);
        lemma_trim_start(mark + mark, value, quote);
        assert(trim_end_spec(value, quote) == value);
    } else {
        assert(whole =~= mark + (value + mark));
        lemma_trim_start(mark, value + mark, quote);
        lemma_trim_end(value, mark, quote);
    }
}

/// Every character of a hexadecimal text is a visible one other than a quote.
proof fn lemma_hex_is_plain(bytes: Seq<u8>)
    ensures
        forall|i: int|
            0 <= i < hex_spec(bytes).len() ==> 48 <= (#[trigger] hex_spec(bytes)[i]) as int <= 102,
{
}

/// The entity tag of a revision can be made, can be read back, and names the revision.
pub proof fn law_etag_round_trip(bytes: Seq<u8>)
    ensures
        header_value_spec(quoted(revision_spec(bytes))) matches Ok(tag) && value_text(tag)
            == Some(quoted(revision_spec(bytes))),
        unquote_spec(quoted(revision_spec(bytes))) == revision_spec(bytes),
{
    let value = revision_spec(bytes);
    let whole = quoted(value);
    lemma_hex_is_plain(sha256_digest(bytes));
    reveal_strlit("\"");
    if value.len() > 0 {
        assert(48 <= hex_spec(sha256_digest(bytes))[0] as int);
        assert(48 <= hex_spec(sha256_digest(bytes))[value.len() - 1] as int);
    }
    law_unquote_undoes_quote(seq![], value, false, seq![]);
    assert(Seq::<char>::empty() + whole + Seq::<char>::empty() =~= whole);
    assert forall|i: int| 0 <= i < whole.len() implies printable(#[trigger] whole[i]) by {
        if 0 < i < whole.len() - 1 {
            assert(whole[i] == value[i - 1]);
            assert(48 <= hex_spec(sha256_digest(bytes))[i - 1] as int <= 102);
        }
    }
    lemma_printable_value(whole);
}

/// Who read a file may write it, as long as nobody wrote it since.
pub proof fn law_read_revision_may_write(bytes: Seq<u8>)
    ensures
        write_check(Some(revision_spec(bytes)), Some(bytes)) is Ok,
        delete_check(Some(revision_spec(bytes)), bytes) is Ok,
{
}

/// A write of an existing file that expects another revision, or none, is refused as a
/// conflict that names both.
pub proof fn law_stale_write_is_refused(supplied: Option<Seq<char>>, bytes: Seq<u8>)
    requires
        supplied != Some(revision_spec(bytes)),
    ensures
        write_check(supplied, Some(bytes)) == Err::<(), ErrorView>(
            conflict_error(supplied, revision_spec(bytes)),
        ),
{
}

/// A new file may be written with no revision or with an asterisk, and with no other.
pub proof fn law_new_file(supplied: Option<Seq<char>>)
    ensures
        write_check(supplied, None) is Ok <==> (supplied is None || supplied == Some("*"@)),
{
}

/// A delete without a revision is granted; one with another revision than that of the file is
/// refused as a conflict that names both.
pub proof fn law_stale_delete_is_refused(supplied: Option<Seq<char>>, bytes: Seq<u8>)
    ensures
        delete_check(None, bytes) is Ok,
        match delete_check(supplied, bytes) {
            Ok(()) => supplied is None || supplied->0 == revision_spec(bytes),
            Err(error) => {
                &&& supplied is Some && supplied->0 != revision_spec(bytes)
                &&& error.status == 409 && error.code == "FILE_REVISION_CONFLICT"@
                &&& error.details == (DetailsView::Revisions {
                    expected: supplied,
                    actual: revision_spec(bytes),
                })
            },
        },
{
}

/// A refused write says what was expected and what was found; nothing is found of a file that is
/// not there.
pub proof fn law_conflict_names_both_revisions(
    supplied: Option<Seq<char>>,
    current: Option<Seq<u8>>,
)
    ensures
        write_check(supplied, current) matches Err(error) ==> {
            &&& error.status == 409 && error.code == "FILE_REVISION_CONFLICT"@
            &&& error.details matches DetailsView::Revisions { expected, actual }
            &&& expected == supplied
            &&& actual == match current {
                Some(bytes) => revision_spec(bytes),
                None => "missing"@,
            }
        },
{
}

/// Of two places that may name a revision, the one that does counts; two that name different
/// ones are refused.
pub proof fn law_two_places_must_agree(left: Seq<char>, right: Seq<char>, message: Seq<char>)
    ensures
        agreed_revision(None, None, message) == Ok::<Option<Seq<char>>, ErrorView>(None),
        agreed_revision(Some(left), None, message) == Ok::<Option<Seq<char>>, ErrorView>(
            Some(left),
        ),
        agreed_revision(None, Some(right), message) == Ok::<Option<Seq<char>>, ErrorView>(
            Some(right),
        ),
        match agreed_revision(Some(left), Some(right), message) {
            Ok(agreed) => left == right && agreed == Some(left),
            Err(error) => left != right && error.status == 400 && error.code
                == "REVISION_MISMATCH"@,
        },
{
}

/// A request names a revision by the header that says what it must match, quotes taken away, or
/// by its body.
pub proof fn law_revision_is_named_by_header_or_body(
    fields: Seq<(Seq<char>, Seq<u8>)>,
    value: Seq<char>,
    body_revision: Option<Seq<char>>,
)
    requires
        value.len() > 0 ==> value[0] != '"' && value.last() != '"',
    ensures
        header_text(fields, "if-match"@) is None ==> supplied_spec(fields, body_revision) == Ok::<
            Option<Seq<char>>,
            ErrorView,
        >(body_revision),
        header_text(fields, "if-match"@) == Some("\""@ + value + "\""@) ==> match supplied_spec(
            fields,
            body_revision,
        ) {
            Ok(revision) => revision == Some(value) && (body_revision is None || body_revision
                == Some(value)),
            Err(error) => error.status == 400 && body_revision is Some && body_revision != Some(
                value,
            ),
        },
{
    law_unquote_undoes_quote(seq![], value, false, seq![]);
    assert(Seq::<char>::empty() + quoted(value) + Seq::<char>::empty() =~= quoted(value));
}

/// The identifier that a path gives has eight characters for its kind and sixteen of the digest.
pub proof fn law_project_is_known_by_its_digest(path: Seq<char>)
    requires
        hash_spec(path).len() == 64,
    ensures
        project_id_spec(path) == "project-"@ + hash_spec(path).take(16),
        project_id_spec(path).len() == 24,
{
    reveal_strlit("project-");
}

/// A revision is the digest of the bytes, and that of a text the digest of its encoding: both in
/// hexadecimal.
pub proof fn law_revision_is_the_digest(bytes: Seq<u8>, text: Seq<char>)
    ensures
        revision_spec(bytes) == hex_spec(sha256_digest(bytes)),
        hash_spec(text) == hex_spec(sha256_digest(encode_utf8(text))),
{
}

/// Contracts speak of whole values: every part of a value is in its view, in its place, and nothing
/// else is.
pub proof fn law_views_of_revision_are_whole(
    named: Result<Option<String>, ApiError>,
    current: Option<Vec<u8>>,
    value: Result<Seq<u8>, Seq<char>>,
)
    ensures
        match named {
            Ok(revision) => revision_outcome(named) matches Ok(shown) && shown == optional(
                revision,
            ),
            Err(error) => revision_outcome(named) matches Err(shown) && shown == error@,
        },
        match current {
            Some(bytes) => contents(current) == Some(bytes@),
            None => contents(current) is None,
        },
        match value {
            Ok(bytes) => header_outcome(value) matches Ok(shown) && shown == bytes,
            Err(message) => header_outcome(value) matches Err(shown) && shown.status == 500
                && shown.code == "HEADER_ERROR"@ && shown.message == message,
        },
{
}

/// The identifier that a digest gives begins with the kind, and goes on with the first sixteen
/// digits, or all of them if there are fewer.
pub proof fn law_digest_gives_an_identifier(digest: Seq<char>)
    ensures
        digest.len() >= 16 ==> digest_id(digest) == "project-"@ + digest.take(16),
        digest.len() < 16 ==> digest_id(digest) == "project-"@ + digest,
{
}

} // verus!
