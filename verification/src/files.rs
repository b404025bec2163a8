//! Reading, writing, moving and deleting the files of a project.

use vstd::prelude::*;
use vstd::utf8::{decode_utf8, encode_utf8, valid_utf8};

use crate::assets::{essence_spec, guessed_mime, mime_of_text, mime_or};
use crate::error::{ApiError, ErrorView, optional, outcome, plain_error, verdict};
use crate::headers::{Headers, header_text, header_value_spec, value_text};
use crate::paths::{
    FailureView, IoFailure, IoKind, below, io_error, io_error_spec, not_found_io, not_found_io_spec,
    path_starts_with,
};
use crate::revision::{
    agreed_revision, check_delete, check_write, contents, delete_check, header_outcome,
    merge_revision, quoted, quoted_etag, revision, revision_spec, supplied_revision, supplied_spec,
    unquote_spec, write_check,
};
use crate::text::law_text_is_parted_once;

verus! {

/// How many bytes a text file has at most.
pub const MAX_TEXT_BYTES: u64 = 4194304;

/// The answer to a text file that is too large.
pub open spec fn file_too_large_spec() -> ErrorView {
    plain_error(413, "FILE_TOO_LARGE"@, "text file is too large"@)
}

/// Whether a text file of a size may be read or written.
pub open spec fn size_check(size: int) -> Result<(), ErrorView> {
    if size > MAX_TEXT_BYTES {
        Err(file_too_large_spec())
    } else {
        Ok(())
    }
}

/// Refuses to read a text file that is too large.
pub fn check_size(size: u64) -> (r: Result<(), ApiError>)
    ensures
        verdict(r) == size_check(size as int),
{
    if size > MAX_TEXT_BYTES {
        Err(ApiError::new(413, "FILE_TOO_LARGE", "text file is too large"))
    } else {
        Ok(())
    }
}

/// Refuses to write a text that is too large.
pub fn check_content(content: &str) -> (r: Result<(), ApiError>)
    ensures
        verdict(r) == size_check(encode_utf8(content@).len() as int),
{
    check_size(content.as_bytes().len() as u64)
}

/// `String::from_utf8` of the standard library: bytes that are valid UTF-8 give the text that
/// they encode, and others give nothing.
#[verifier::external_body]
fn decode_text(bytes: Vec<u8>) -> (r: Option<String>)
    ensures
        match r {
            Some(text) => valid_utf8(bytes@) && text@ == decode_utf8(bytes@),
            None => !valid_utf8(bytes@),
        },
{
    String::from_utf8(bytes).ok()
}

/// A text file that was read: its path, what it holds, its revision and its entity tag.
pub struct TextFile {
    pub path: String,
    pub content: String,
    pub revision: String,
    pub etag: Vec<u8>,
}

/// The view of a [`TextFile`].
pub struct TextFileView {
    pub path: Seq<char>,
    pub content: Seq<char>,
    pub revision: Seq<char>,
    pub etag: Seq<u8>,
}

impl View for TextFile {
    type V = TextFileView;

    open spec fn view(&self) -> TextFileView {
        TextFileView {
            path: self.path@,
            content: self.content@,
            revision: self.revision@,
            etag: self.etag@,
        }
    }
}

/// A text file of a revision that was read, if what it holds is text.
pub open spec fn read_as(relative: Seq<char>, bytes: Seq<u8>, revision: Seq<char>) -> Result<
    TextFileView,
    ErrorView,
> {
    if !valid_utf8(bytes) {
        Err(plain_error(415, "NOT_TEXT"@, "file is not valid UTF-8"@))
    } else {
        match header_outcome(header_value_spec(quoted(revision))) {
            Err(error) => Err(error),
            Ok(etag) => Ok(
                TextFileView { path: relative, content: decode_utf8(bytes), revision, etag },
            ),
        }
    }
}

/// A text file of a revision that was read. `bytes` is what the file holds.
pub fn read_text_as(relative: &str, bytes: Vec<u8>, revision: String) -> (r: Result<
    TextFile,
    ApiError,
>)
    ensures
        outcome(r) == read_as(relative@, bytes@, revision@),
{
    let content = match decode_text(bytes) {
        Some(content) => content,
        None => {
            return Err(ApiError::new(415, "NOT_TEXT", "file is not valid UTF-8"));
        },
    };
    match quoted_etag(revision.as_str()) {
        Ok(etag) => Ok(TextFile { path: relative.to_owned(), content, revision, etag }),
        Err(error) => Err(error),
    }
}

/// A text file that was read, if what it holds is text.
pub open spec fn read_spec(relative: Seq<char>, bytes: Seq<u8>) -> Result<TextFileView, ErrorView> {
    read_as(relative, bytes, revision_spec(bytes))
}

/// A text file that was read. `bytes` is what the file holds.
pub fn read_text(relative: &str, bytes: Vec<u8>) -> (r: Result<TextFile, ApiError>)
    ensures
        outcome(r) == read_spec(relative@, bytes@),
{
    let digest = revision(bytes.as_slice());
    read_text_as(relative, bytes, digest)
}

/// Whether a request may write a file. `current` is what the file holds, if it exists.
pub open spec fn write_request(
    fields: Seq<(Seq<char>, Seq<u8>)>,
    body_revision: Option<Seq<char>>,
    current: Option<Seq<u8>>,
) -> Result<(), ErrorView> {
    match supplied_spec(fields, body_revision) {
        Err(error) => Err(error),
        Ok(supplied) => write_check(supplied, current),
    }
}

/// Refuses a request that may not write a file. `current` is what the file holds, if it
/// exists.
pub fn check_write_request(
    headers: &Headers,
    body_revision: Option<String>,
    current: &Option<Vec<u8>>,
) -> (r: Result<(), ApiError>)
    ensures
        verdict(r) == write_request(headers@, optional(body_revision), contents(*current)),
{
    match supplied_revision(headers, body_revision) {
        Ok(supplied) => check_write(supplied, current),
        Err(error) => Err(error),
    }
}

/// A text file that was written.
pub struct WrittenFile {
    pub path: String,
    pub content: String,
    pub revision: String,
    pub mime_type: String,
}

/// The view of a [`WrittenFile`].
pub struct WrittenView {
    pub path: Seq<char>,
    pub content: Seq<char>,
    pub revision: Seq<char>,
    pub mime_type: Seq<char>,
}

impl View for WrittenFile {
    type V = WrittenView;

    open spec fn view(&self) -> WrittenView {
        WrittenView {
            path: self.path@,
            content: self.content@,
            revision: self.revision@,
            mime_type: self.mime_type@,
        }
    }
}

/// What a write is answered with.
pub open spec fn written_spec(relative: Seq<char>, path: Seq<char>, content: Seq<char>) -> WrittenView {
    WrittenView {
        path: relative,
        content,
        revision: revision_spec(encode_utf8(content)),
        mime_type: essence_spec(mime_or(guessed_mime(path), "text/plain"@)),
    }
}

/// What a write is answered with.
pub fn write_text(relative: &str, path: &str, content: String) -> (r: WrittenFile)
    ensures
        r@ == written_spec(relative@, path@, content@),
{
    let digest = revision(content.as_str().as_bytes());
    WrittenFile {
        path: relative.to_owned(),
        content,
        revision: digest,
        mime_type: mime_of_text(path),
    }
}

/// What the file system says of a file.
pub struct FileKind {
    pub is_file: bool,
    pub is_dir: bool,
}

/// The view of what the file system says of a file, or why it says nothing.
pub open spec fn kind_view(r: Result<FileKind, IoFailure>) -> Result<FileKind, FailureView> {
    match r {
        Ok(kind) => Ok(kind),
        Err(failure) => Err(failure@),
    }
}

/// The view of whether a file is there.
pub open spec fn presence(r: Result<(), IoFailure>) -> Result<(), FailureView> {
    match r {
        Ok(()) => Ok(()),
        Err(failure) => Err(failure@),
    }
}

/// The answer to a file that is neither a file nor a directory.
pub open spec fn unsupported_type() -> ErrorView {
    plain_error(400, "INVALID_FILE_TYPE"@, "unsupported file type"@)
}

/// Whether a file may be moved: it is one, nothing is in its new place, and it does not go
/// into itself.
pub open spec fn move_spec(
    source: Seq<char>,
    target: Seq<char>,
    source_kind: Result<FileKind, FailureView>,
    target_there: Result<(), FailureView>,
) -> Result<(), ErrorView> {
    match source_kind {
        Err(failure) => Err(not_found_io_spec(failure)),
        Ok(kind) => if !kind.is_file && !kind.is_dir {
            Err(unsupported_type())
        } else {
            match target_there {
                Ok(()) => Err(plain_error(409, "FILE_EXISTS"@, "move target already exists"@)),
                Err(failure) => if !(failure.kind is NotFound) {
                    Err(io_error_spec(failure))
                } else if kind.is_dir && below(target, source) {
                    Err(
                        plain_error(
                            400,
                            "INVALID_PATH"@,
                            "cannot move a directory into itself"@,
                        ),
                    )
                } else {
                    Ok(())
                },
            }
        },
    }
}

/// Refuses to move a file that may not be moved. `source_kind` and `target_there` are what the
/// file system says of the two paths.
pub fn move_file(
    source: &str,
    target: &str,
    source_kind: Result<FileKind, IoFailure>,
    target_there: Result<(), IoFailure>,
) -> (r: Result<(), ApiError>)
    ensures
        verdict(r) == move_spec(source@, target@, kind_view(source_kind), presence(target_there)),
{
    let kind = match source_kind {
        Ok(kind) => kind,
        Err(failure) => {
            return Err(not_found_io(&failure));
        },
    };
    if !kind.is_file && !kind.is_dir {
        return Err(ApiError::new(400, "INVALID_FILE_TYPE", "unsupported file type"));
    }
    match target_there {
        Ok(()) => {
            return Err(ApiError::new(409, "FILE_EXISTS", "move target already exists"));
        },
        Err(failure) => match failure.kind {
            IoKind::NotFound => {},
            _ => {
                return Err(io_error(&failure));
            },
        },
    }
    if kind.is_dir && path_starts_with(target, source) {
        return Err(ApiError::new(400, "INVALID_PATH", "cannot move a directory into itself"));
    }
    Ok(())
}

/// How a file is deleted.
pub enum DeleteStep {
    /// It is a file: its revision decides.
    File,
    /// It is a directory: it must be empty.
    Directory,
}

/// How a file is deleted.
pub open spec fn delete_step_spec(kind: Result<FileKind, FailureView>) -> Result<
    DeleteStep,
    ErrorView,
> {
    match kind {
        Err(failure) => Err(not_found_io_spec(failure)),
        Ok(kind) => if kind.is_file {
            Ok(DeleteStep::File)
        } else if kind.is_dir {
            Ok(DeleteStep::Directory)
        } else {
            Err(unsupported_type())
        },
    }
}

/// The view of how a file is deleted.
pub open spec fn step_outcome(r: Result<DeleteStep, ApiError>) -> Result<DeleteStep, ErrorView> {
    match r {
        Ok(step) => Ok(step),
        Err(error) => Err(error@),
    }
}

/// How a file is deleted. `kind` is what the file system says of it.
pub fn delete_step(kind: Result<FileKind, IoFailure>) -> (r: Result<DeleteStep, ApiError>)
    ensures
        step_outcome(r) == delete_step_spec(kind_view(kind)),
{
    match kind {
        Err(failure) => Err(not_found_io(&failure)),
        Ok(kind) => if kind.is_file {
            Ok(DeleteStep::File)
        } else if kind.is_dir {
            Ok(DeleteStep::Directory)
        } else {
            Err(ApiError::new(400, "INVALID_FILE_TYPE", "unsupported file type"))
        },
    }
}

/// Whether a request may delete a file that holds `bytes`.
pub open spec fn delete_request(
    fields: Seq<(Seq<char>, Seq<u8>)>,
    query_revision: Option<Seq<char>>,
    body_revision: Option<Seq<char>>,
    bytes: Seq<u8>,
) -> Result<(), ErrorView> {
    match agreed_revision(
        query_revision,
        body_revision,
        "query and body revisions must match when both are supplied"@,
    ) {
        Err(error) => Err(error),
        Ok(requested) => match supplied_spec(fields, requested) {
            Err(error) => Err(error),
            Ok(supplied) => delete_check(supplied, bytes),
        },
    }
}

/// Refuses a request that may not delete a file. `bytes` is what the file holds.
pub fn check_delete_request(
    headers: &Headers,
    query_revision: Option<String>,
    body_revision: Option<String>,
    bytes: &[u8],
) -> (r: Result<(), ApiError>)
    ensures
        verdict(r) == delete_request(
            headers@,
            optional(query_revision),
            optional(body_revision),
            bytes@,
        ),
{
    match merge_revision(query_revision, body_revision) {
        Err(error) => Err(error),
        Ok(requested) => match supplied_revision(headers, requested) {
            Err(error) => Err(error),
            Ok(supplied) => check_delete(supplied, bytes),
        },
    }
}

/// The answer to a directory that could not be deleted.
pub fn directory_not_empty(failure: &IoFailure) -> (e: ApiError)
    ensures
        e@ == plain_error(409, "DIRECTORY_NOT_EMPTY"@, failure.message@),
{
    ApiError::new(409, "DIRECTORY_NOT_EMPTY", failure.message.as_str())
}

/// What was written is read back, under the revision that the write was answered with.
pub proof fn law_read_gives_back_what_was_written(
    relative: Seq<char>,
    path: Seq<char>,
    content: Seq<char>,
)
    ensures
        read_spec(relative, encode_utf8(content)) matches Ok(file) && file.content == content
            && file.path == relative && file.revision == written_spec(
            relative,
            path,
            content,
        ).revision,
{
    vstd::utf8::encode_utf8_valid_utf8(content);
    vstd::utf8::encode_utf8_decode_utf8(content);
    crate::revision::law_etag_round_trip(encode_utf8(content));
}

/// A move replaces nothing, and takes no directory into itself.
pub proof fn law_move_is_safe(
    source: Seq<char>,
    target: Seq<char>,
    source_kind: Result<FileKind, FailureView>,
    target_there: Result<(), FailureView>,
)
    requires
        move_spec(source, target, source_kind, target_there) is Ok,
    ensures
        target_there is Err,
        source_kind matches Ok(kind) && (kind.is_file || kind.is_dir) && (kind.is_dir ==> !below(
            target,
            source,
        )),
{
}

/// A text file has at most four mebibytes.
pub proof fn law_text_files_are_bounded(size: int)
    ensures
        size_check(size) is Ok <==> size <= 4 * 1024 * 1024,
        size_check(size) matches Err(error) ==> error.status == 413 && error.code
            == "FILE_TOO_LARGE"@,
{
}

/// A file is read exactly if its bytes are text: then as that text, under the digest of the
/// bytes, which its entity tag names between quotes.
pub proof fn law_text_alone_is_read(relative: Seq<char>, bytes: Seq<u8>)
    ensures
        match read_spec(relative, bytes) {
            Ok(file) => {
                &&& valid_utf8(bytes)
                &&& file.path == relative
                &&& encode_utf8(file.content) == bytes
                &&& file.revision == revision_spec(bytes)
                &&& value_text(file.etag) == Some("\""@ + revision_spec(bytes) + "\""@)
            },
            Err(error) => !valid_utf8(bytes) && error.status == 415 && error.code == "NOT_TEXT"@,
        },
{
    crate::revision::law_etag_round_trip(bytes);
    if valid_utf8(bytes) {
        vstd::utf8::decode_utf8_encode_utf8(bytes);
    }
}

/// A write is answered with the path, the text, the digest of its encoding and the media type of
/// its name, or plain text.
pub proof fn law_write_is_answered(relative: Seq<char>, path: Seq<char>, content: Seq<char>)
    ensures
        written_spec(relative, path, content).path == relative,
        written_spec(relative, path, content).content == content,
        written_spec(relative, path, content).revision == revision_spec(encode_utf8(content)),
        guessed_mime(path) is None ==> written_spec(relative, path, content).mime_type
            == "text/plain"@,
        guessed_mime(path) matches Some(mime) ==> !mime.contains(';') ==> written_spec(
            relative,
            path,
            content,
        ).mime_type == mime,
{
    reveal_strlit("text/plain");
    assert(!"text/plain"@.contains(';')) by {
        if "text/plain"@.contains(';') {
            let i = "text/plain"@.index_of(';');
        }
    }
    law_text_is_parted_once("text/plain"@, ';', seq![]);
    if let Some(mime) = guessed_mime(path) {
        if !mime.contains(';') {
            law_text_is_parted_once(mime, ';', seq![]);
        }
    }
}

/// A request that names no revision may make a new file and may not write over one; one that
/// names the revision of a file may write over it.
pub proof fn law_writes_are_guarded(
    fields: Seq<(Seq<char>, Seq<u8>)>,
    body_revision: Option<Seq<char>>,
    bytes: Seq<u8>,
)
    requires
        header_text(fields, "if-match"@) is None,
    ensures
        write_request(fields, None, None) is Ok,
        write_request(fields, body_revision, Some(bytes)) is Ok <==> body_revision == Some(
            revision_spec(bytes),
        ),
        write_request(fields, body_revision, Some(bytes)) matches Err(error) ==> error.status
            == 409,
        delete_request(fields, None, None, bytes) is Ok,
        delete_request(fields, None, body_revision, bytes) is Ok <==> body_revision is None
            || body_revision == Some(revision_spec(bytes)),
        delete_request(fields, body_revision, None, bytes) is Ok <==> body_revision is None
            || body_revision == Some(revision_spec(bytes)),
{
}

/// A move is granted whenever there is something to move, nothing in its new place, and no
/// directory goes into itself; otherwise the answer says which of these it was.
pub proof fn law_move_is_granted(
    source: Seq<char>,
    target: Seq<char>,
    kind: FileKind,
    missing: FailureView,
)
    requires
        missing.kind is NotFound,
    ensures
        kind.is_file && !kind.is_dir ==> move_spec(source, target, Ok(kind), Err(missing)) is Ok,
        kind.is_dir ==> (move_spec(source, target, Ok(kind), Err(missing)) is Ok <==> !below(
            target,
            source,
        )),
        move_spec(source, target, Err(missing), Err(missing)) matches Err(error) && error.status
            == 404,
        kind.is_file || kind.is_dir ==> (move_spec(source, target, Ok(kind), Ok(())) matches Err(
            error,
        ) && error.status == 409 && error.code == "FILE_EXISTS"@),
        !kind.is_file && !kind.is_dir ==> (move_spec(source, target, Ok(kind), Err(missing))
            matches Err(error) && error.status == 400 && error.code == "INVALID_FILE_TYPE"@),
{
}

/// Files and directories are deleted, each in its way, and nothing else is.
pub proof fn law_files_and_directories_are_deleted(kind: FileKind, missing: FailureView)
    requires
        missing.kind is NotFound,
    ensures
        kind.is_file ==> delete_step_spec(Ok(kind)) == Ok::<DeleteStep, ErrorView>(
            DeleteStep::File,
        ),
        !kind.is_file && kind.is_dir ==> delete_step_spec(Ok(kind)) == Ok::<DeleteStep, ErrorView>(
            DeleteStep::Directory,
        ),
        !kind.is_file && !kind.is_dir ==> (delete_step_spec(Ok(kind)) matches Err(error)
            && error.status == 400),
        delete_step_spec(Err(missing)) matches Err(error) && error.status == 404,
{
}

/// Contracts speak of whole values: every part of a value is in its view, in its place, and nothing
/// else is.
pub proof fn law_views_of_files_are_whole(
    file: TextFile,
    written: WrittenFile,
    kind: Result<FileKind, IoFailure>,
    there: Result<(), IoFailure>,
    step: Result<DeleteStep, ApiError>,
)
    ensures
        file@.path == file.path@,
        file@.content == file.content@,
        file@.revision == file.revision@,
        file@.etag == file.etag@,
        written@.path == written.path@,
        written@.content == written.content@,
        written@.revision == written.revision@,
        written@.mime_type == written.mime_type@,
        match kind {
            Ok(found) => kind_view(kind) matches Ok(shown) && shown == found,
            Err(failure) => kind_view(kind) matches Err(shown) && shown == failure@,
        },
        match there {
            Ok(()) => presence(there) is Ok,
            Err(failure) => presence(there) matches Err(shown) && shown == failure@,
        },
        match step {
            Ok(chosen) => step_outcome(step) matches Ok(shown) && shown == chosen,
            Err(error) => step_outcome(step) matches Err(shown) && shown == error@,
        },
{
}

/// The query, the body and the header of a request to delete a file may each name a revision. All
/// that do must name the same, and it must be that of the file.
pub proof fn law_revisions_of_a_delete_must_agree(
    fields: Seq<(Seq<char>, Seq<u8>)>,
    query: Option<Seq<char>>,
    body: Option<Seq<char>>,
    bytes: Seq<u8>,
)
    ensures
        ({
            let header = match header_text(fields, "if-match"@) {
                Some(value) => Some(unquote_spec(value)),
                None => None,
            };
            let actual = Some(revision_spec(bytes));
            &&& delete_request(fields, query, body, bytes) is Ok <==> (query is None || query
                == actual) && (body is None || body == actual) && (header is None || header
                == actual)
            &&& delete_request(fields, query, body, bytes) matches Err(error) ==> error.status
                == 400 || error.status == 409
            &&& query is Some && body is Some && query != body ==> (delete_request(
                fields,
                query,
                body,
                bytes,
            ) matches Err(error) && error.status == 400 && error.code == "REVISION_MISMATCH"@)
        }),
{
}

/// The header and the body of a request to write a file may each name a revision. If both do they
/// must name the same; it must be that of the file, or, of a file that is not there, an asterisk.
pub proof fn law_revisions_of_a_write_must_agree(
    fields: Seq<(Seq<char>, Seq<u8>)>,
    body: Option<Seq<char>>,
    current: Option<Seq<u8>>,
)
    ensures
        ({
            let header = match header_text(fields, "if-match"@) {
                Some(value) => Some(unquote_spec(value)),
                None => None,
            };
            let named = if header is Some {
                header
            } else {
                body
            };
            &&& write_request(fields, body, current) is Ok <==> (header is None || body is None
                || header == body) && match current {
                Some(bytes) => named == Some(revision_spec(bytes)),
                None => named is None || named == Some("*"@),
            }
            &&& write_request(fields, body, current) matches Err(error) ==> error.status == 400
                || error.status == 409
        }),
{
}

} // verus!
