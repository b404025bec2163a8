//! Serving the files of the web client.

use vstd::prelude::*;
use vstd::utf8::encode_utf8;

use crate::assets::{field, mime_to_send, push_text, sent_mime};
use crate::error::{ApiError, ErrorView, outcome, plain_error};
use crate::headers::Headers;
use crate::numbers::{decimal, decimal_spec};
use crate::paths::{absolute, below, join, join_spec, path_starts_with};
use crate::text::{
    CharSet, chars_of, lemma_trim_start, same, same_chars, split, split_spec, starts_with, text_of,
    trim_start, trim_start_spec, views,
};

verus! {

/// The answer to a request that names nothing.
pub open spec fn not_found_spec() -> ErrorView {
    plain_error(404, "NOT_FOUND"@, "Not found"@)
}

/// Whether a part of a path is hidden; two dots are hidden too.
pub open spec fn hidden_part(part: Seq<char>) -> bool {
    part.len() > 0 && part[0] == '.'
}

/// Whether a path is a directory, or lies in it.
pub open spec fn in_directory(relative: Seq<char>, directory: Seq<char>) -> bool {
    relative == directory || (directory + "/"@).is_prefix_of(relative)
}

/// Whether a path is a directory, or lies in it.
fn is_in_directory(relative: &[char], directory: &str) -> (r: bool)
    ensures
        r == in_directory(relative@, directory@),
{
    same_chars(relative, chars_of(directory).as_slice()) || starts_with(
        relative,
        chars_of(directory.to_owned().concat("/").as_str()).as_slice(),
    )
}

/// Whether a path names a file of the web client: it is not one of the interface, and no part
/// of it is hidden.
pub open spec fn client_path(relative: Seq<char>) -> bool {
    let parts = split_spec(relative, CharSet::One('/'));
    &&& !in_directory(relative, "api"@)
    &&& forall|i: int| 0 <= i < parts.len() ==> !hidden_part(#[trigger] parts[i])
}

/// The file of the web client that a request names: the path without leading slashes.
pub open spec fn static_relative_spec(method: Seq<char>, path: Seq<char>) -> Result<
    Seq<char>,
    ErrorView,
> {
    let relative = trim_start_spec(path, CharSet::One('/'));
    if (method == "GET"@ || method == "HEAD"@) && client_path(relative) {
        Ok(relative)
    } else {
        Err(not_found_spec())
    }
}

/// The file of the web client that a request names.
pub fn static_relative(method: &str, path: &str) -> (r: Result<String, ApiError>)
    ensures
        outcome(r) == static_relative_spec(method@, path@),
{
    if !same(method, "GET") && !same(method, "HEAD") {
        return Err(ApiError::new(404, "NOT_FOUND", "Not found"));
    }
    let chars = chars_of(path);
    let relative = trim_start(chars.as_slice(), CharSet::One('/'));
    if is_in_directory(relative, "api") {
        return Err(ApiError::new(404, "NOT_FOUND", "Not found"));
    }
    let parts = split(relative, CharSet::One('/'));
    let ghost all = split_spec(relative@, CharSet::One('/'));
    let mut i: usize = 0;
    while i < parts.len()
        invariant
            i <= parts@.len(),
            views(parts@) == all,
            all == split_spec(relative@, CharSet::One('/')),
            relative@ == trim_start_spec(path@, CharSet::One('/')),
            forall|j: int| 0 <= j < i ==> !hidden_part(#[trigger] all[j]),
        decreases parts@.len() - i,
    {
        assert(all[i as int] == parts@[i as int]@);
        if parts[i].len() > 0 && parts[i][0] == '.' {
            assert(hidden_part(all[i as int]));
            return Err(ApiError::new(404, "NOT_FOUND", "Not found"));
        }
        i += 1;
    }
    Ok(text_of(relative))
}

/// The answer when the web client has no such file.
pub open spec fn web_root_not_found_spec() -> ErrorView {
    plain_error(404, "WEB_ROOT_NOT_FOUND"@, "static web asset not found"@)
}

/// The answer when the web client has no such file.
pub fn web_root_not_found() -> (e: ApiError)
    ensures
        e@ == web_root_not_found_spec(),
{
    ApiError::new(404, "WEB_ROOT_NOT_FOUND", "static web asset not found")
}

/// What the file system says of a path.
pub enum Candidate {
    /// Nothing is there.
    Missing,
    /// Something is there, and cannot be resolved.
    Unresolved,
    /// The canonical path of what is there, and whether that is a file.
    Resolved { path: String, is_file: bool },
}

/// The view of a [`Candidate`].
pub enum CandidateView {
    Missing,
    Unresolved,
    Resolved { path: Seq<char>, is_file: bool },
}

impl View for Candidate {
    type V = CandidateView;

    open spec fn view(&self) -> CandidateView {
        match self {
            Candidate::Missing => CandidateView::Missing,
            Candidate::Unresolved => CandidateView::Unresolved,
            Candidate::Resolved { path, is_file } => CandidateView::Resolved {
                path: path@,
                is_file: *is_file,
            },
        }
    }
}

/// The page that stands for a path of the client without a file of its own.
pub open spec fn index_page(web_root: Seq<char>, index: CandidateView) -> Result<
    Seq<char>,
    ErrorView,
> {
    match index {
        CandidateView::Resolved { path, is_file } => if below(path, web_root) && is_file {
            Ok(path)
        } else {
            Err(web_root_not_found_spec())
        },
        _ => Err(web_root_not_found_spec()),
    }
}

/// Whether the index page stands for the path if it has no file of its own: not for one of the
/// interface, nor for an asset.
pub open spec fn falls_back(relative: Seq<char>) -> bool {
    !in_directory(relative, "api"@) && !in_directory(relative, "assets"@)
}

/// What is sent for a path without a file of its own.
pub open spec fn fallback_page(
    web_root: Seq<char>,
    relative: Seq<char>,
    index: CandidateView,
) -> Result<Seq<char>, ErrorView> {
    if falls_back(relative) {
        index_page(web_root, index)
    } else {
        Err(web_root_not_found_spec())
    }
}

/// The file that is sent: the one that is named, or the index page if that stands for the path;
/// in either case only from below the web root.
pub open spec fn static_path_spec(
    web_root: Seq<char>,
    relative: Seq<char>,
    candidate: CandidateView,
    index: CandidateView,
) -> Result<Seq<char>, ErrorView> {
    if relative.len() == 0 {
        index_page(web_root, index)
    } else {
        match candidate {
            CandidateView::Missing => fallback_page(web_root, relative, index),
            CandidateView::Unresolved => Err(web_root_not_found_spec()),
            CandidateView::Resolved { path, is_file } => if !below(path, web_root) {
                Err(web_root_not_found_spec())
            } else if is_file {
                Ok(path)
            } else {
                fallback_page(web_root, relative, index)
            },
        }
    }
}

/// The index page, if it is a file below the web root.
fn choose_index(web_root: &str, index: Candidate) -> (r: Result<String, ApiError>)
    ensures
        outcome(r) == index_page(web_root@, index@),
{
    match index {
        Candidate::Resolved { path, is_file } => if path_starts_with(path.as_str(), web_root)
            && is_file {
            Ok(path)
        } else {
            Err(web_root_not_found())
        },
        _ => Err(web_root_not_found()),
    }
}

/// What is sent for a path without a file of its own.
fn choose_fallback(web_root: &str, relative: &[char], index: Candidate) -> (r: Result<
    String,
    ApiError,
>)
    ensures
        outcome(r) == fallback_page(web_root@, relative@, index@),
{
    if is_in_directory(relative, "api") || is_in_directory(relative, "assets") {
        Err(web_root_not_found())
    } else {
        choose_index(web_root, index)
    }
}

/// The file that is sent. `candidate` is what the file system says of the web root followed
/// by `relative`, and `index` what it says of the index page.
pub fn static_web_path(
    web_root: &str,
    relative: &str,
    candidate: Candidate,
    index: Candidate,
) -> (r: Result<String, ApiError>)
    ensures
        outcome(r) == static_path_spec(web_root@, relative@, candidate@, index@),
{
    let chars = chars_of(relative);
    if chars.len() == 0 {
        return choose_index(web_root, index);
    }
    match candidate {
        Candidate::Missing => choose_fallback(web_root, chars.as_slice(), index),
        Candidate::Unresolved => Err(web_root_not_found()),
        Candidate::Resolved { path, is_file } => if !path_starts_with(path.as_str(), web_root) {
            Err(web_root_not_found())
        } else if is_file {
            Ok(path)
        } else {
            choose_fallback(web_root, chars.as_slice(), index)
        },
    }
}

/// What a page of the web client may load.
pub open spec fn client_policy() -> Seq<char> {
    "default-src 'self'; script-src 'self'; style-src 'self' 'unsafe-inline'; img-src 'self' data: blob:; media-src 'self'; frame-src 'self'; connect-src 'self'; worker-src 'self' blob:; object-src 'none'; base-uri 'none'; frame-ancestors 'none'"@
}

/// The headers of a file of the web client.
pub open spec fn static_headers_spec(mime: Seq<char>, length: int) -> Seq<(Seq<char>, Seq<u8>)> {
    seq![
        field("content-type"@, mime),
        field("content-length"@, decimal_spec(length as nat)),
        field("x-content-type-options"@, "nosniff"@),
        field("content-security-policy"@, client_policy()),
        field("referrer-policy"@, "same-origin"@),
        field("cache-control"@, "no-cache"@),
    ]
}

/// The headers of a file of the web client, of a media type.
pub fn static_headers_as(mime: &str, length: u64) -> (r: Headers)
    ensures
        r@ == static_headers_spec(mime@, length as int),
{
    let mut headers = Headers::new();
    push_text(&mut headers, "content-type", mime);
    push_text(&mut headers, "content-length", decimal(length).as_str());
    push_text(&mut headers, "x-content-type-options", "nosniff");
    push_text(
        &mut headers,
        "content-security-policy",
        "default-src 'self'; script-src 'self'; style-src 'self' 'unsafe-inline'; img-src 'self' data: blob:; media-src 'self'; frame-src 'self'; connect-src 'self'; worker-src 'self' blob:; object-src 'none'; base-uri 'none'; frame-ancestors 'none'",
    );
    push_text(&mut headers, "referrer-policy", "same-origin");
    push_text(&mut headers, "cache-control", "no-cache");
    assert(headers@ =~= static_headers_spec(mime@, length as int));
    headers
}

/// The headers of the file of the web client at a path. `length` is how many bytes it holds.
pub fn static_headers(path: &str, length: u64) -> (r: Headers)
    ensures
        r@ == static_headers_spec(sent_mime(path@), length as int),
{
    let mime = mime_to_send(path);
    static_headers_as(mime.as_str(), length)
}

/// Where the web root lies: at its path, or below the working directory if that is relative.
pub open spec fn web_root_location(path: Seq<char>, working: Seq<char>) -> Seq<char> {
    if absolute(path) {
        path
    } else {
        join_spec(working, path)
    }
}

/// The view of a path or a message.
pub open spec fn path_or_message(r: Result<String, String>) -> Result<Seq<char>, Seq<char>> {
    match r {
        Ok(path) => Ok(path@),
        Err(message) => Err(message@),
    }
}

/// Where the web root lies. `working` is the working directory, or why there is none; it is
/// not looked at if the path is absolute.
pub fn locate_web_root(path: &str, working: Result<String, String>) -> (r: Result<String, String>)
    ensures
        path_or_message(r) == if absolute(path@) {
            Ok::<Seq<char>, Seq<char>>(path@)
        } else {
            match path_or_message(working) {
                Ok(working) => Ok(web_root_location(path@, working)),
                Err(message) => Err("resolve web root: "@ + message),
            }
        },
{
    let chars = chars_of(path);
    if chars.len() > 0 && chars[0] == '/' {
        return Ok(path.to_owned());
    }
    match working {
        Ok(working) => Ok(join(working.as_str(), path)),
        Err(message) => Err("resolve web root: ".to_owned().concat(message.as_str())),
    }
}

/// The web root, if it can be resolved and is a directory. `canonical` is its canonical path,
/// or why it has none.
pub fn canonicalize_web_root(canonical: Result<String, String>, is_dir: bool) -> (r: Result<
    String,
    String,
>)
    ensures
        path_or_message(r) == match path_or_message(canonical) {
            Err(message) => Err::<Seq<char>, Seq<char>>("canonicalize web root: "@ + message),
            Ok(path) => if is_dir {
                Ok(path)
            } else {
                Err("web root must be a directory"@)
            },
        },
{
    match canonical {
        Err(message) => Err("canonicalize web root: ".to_owned().concat(message.as_str())),
        Ok(path) => if is_dir {
            Ok(path)
        } else {
            Err("web root must be a directory".to_owned())
        },
    }
}

/// Only files below the web root are sent, whatever is asked for and wherever links lead.
pub proof fn law_static_path_is_inside(
    web_root: Seq<char>,
    relative: Seq<char>,
    candidate: CandidateView,
    index: CandidateView,
)
    ensures
        static_path_spec(web_root, relative, candidate, index) matches Ok(path) ==> below(
            path,
            web_root,
        ),
{
}

/// The index page is sent in place of a missing file only for paths outside the interface and
/// the assets: what is sent for others is the very file that they name.
pub proof fn law_fallback_is_for_the_client_alone(
    web_root: Seq<char>,
    relative: Seq<char>,
    candidate: CandidateView,
    index: CandidateView,
)
    requires
        relative == "api"@ || "api/"@.is_prefix_of(relative) || relative == "assets"@
            || "assets/"@.is_prefix_of(relative),
    ensures
        match static_path_spec(web_root, relative, candidate, index) {
            Ok(path) => candidate == (CandidateView::Resolved { path, is_file: true }),
            Err(error) => error == web_root_not_found_spec(),
        },
{
    lemma_directory_names();
}

/// A directory's name and a slash, written in one.
proof fn lemma_directory_names()
    ensures
        "api"@ + "/"@ == "api/"@,
        "assets"@ + "/"@ == "assets/"@,
        "api"@.len() > 0,
        "assets"@.len() > 0,
        "api/"@.len() > 0,
        "assets/"@.len() > 0,
{
    reveal_strlit("api");
    reveal_strlit("assets");
    reveal_strlit("/");
    reveal_strlit("api/");
    reveal_strlit("assets/");
    assert("api"@ + "/"@ =~= "api/"@);
    assert("assets"@ + "/"@ =~= "assets/"@);
}

/// Neither the interface nor anything hidden is served as a file, and no method but the two
/// that read is served at all.
pub proof fn law_static_requests_are_plain(method: Seq<char>, path: Seq<char>)
    ensures
        static_relative_spec(method, path) matches Ok(relative) ==> {
            &&& method == "GET"@ || method == "HEAD"@
            &&& relative != "api"@
            &&& !"api/"@.is_prefix_of(relative)
            &&& forall|i: int|
                0 <= i < split_spec(relative, CharSet::One('/')).len() ==> !hidden_part(
                    #[trigger] split_spec(relative, CharSet::One('/'))[i],
                )
        },
{
    lemma_directory_names();
}

/// A request that reads is served the file that its path names behind the leading slashes, unless
/// that is the interface or a part of it is hidden.
pub proof fn law_client_files_are_served(method: Seq<char>, slashes: Seq<char>, relative: Seq<char>)
    requires
        forall|i: int| 0 <= i < slashes.len() ==> #[trigger] slashes[i] == '/',
        relative.len() > 0 ==> relative[0] != '/',
    ensures
        match static_relative_spec(method, slashes + relative) {
            Ok(served) => served == relative && (method == "GET"@ || method == "HEAD"@),
            Err(error) => {
                &&& error.status == 404 && error.code == "NOT_FOUND"@
                &&& {
                    ||| method != "GET"@ && method != "HEAD"@
                    ||| relative == "api"@
                    ||| "api/"@.is_prefix_of(relative)
                    ||| exists|i: int|
                        0 <= i < split_spec(relative, CharSet::One('/')).len() && {
                            let part = #[trigger] split_spec(relative, CharSet::One('/'))[i];
                            part.len() > 0 && part[0] == '.'
                        }
                }
            },
        },
{
    lemma_directory_names();
    lemma_trim_start(slashes, relative, CharSet::One('/'));
    if static_relative_spec(method, slashes + relative) is Err && (method == "GET"@ || method
        == "HEAD"@) && relative != "api"@ && !"api/"@.is_prefix_of(relative) {
        let parts = split_spec(relative, CharSet::One('/'));
        let i = choose|i: int| 0 <= i < parts.len() && hidden_part(#[trigger] parts[i]);
        assert(parts[i].len() > 0 && parts[i][0] == '.');
    }
}

/// A file of the client below the web root is sent when its path names it; a path that names
/// nothing, or a directory, is answered with the index page, as the empty path is; what cannot be
/// resolved, and what leads outside, is not found.
pub proof fn law_what_is_sent_for_a_path(
    web_root: Seq<char>,
    relative: Seq<char>,
    path: Seq<char>,
    index: Seq<char>,
)
    requires
        relative.len() > 0,
        relative != "api"@ && !"api/"@.is_prefix_of(relative),
        relative != "assets"@ && !"assets/"@.is_prefix_of(relative),
        below(index, web_root),
    ensures
        ({
            let page = CandidateView::Resolved { path: index, is_file: true };
            let file = CandidateView::Resolved { path, is_file: true };
            let directory = CandidateView::Resolved { path, is_file: false };
            &&& static_path_spec(web_root, seq![], file, page) == Ok::<Seq<char>, ErrorView>(index)
            &&& static_path_spec(web_root, relative, CandidateView::Missing, page) == Ok::<
                Seq<char>,
                ErrorView,
            >(index)
            &&& static_path_spec(web_root, relative, CandidateView::Unresolved, page) is Err
            &&& below(path, web_root) ==> static_path_spec(web_root, relative, file, page) == Ok::<
                Seq<char>,
                ErrorView,
            >(path)
            &&& below(path, web_root) ==> static_path_spec(web_root, relative, directory, page)
                == Ok::<Seq<char>, ErrorView>(index)
            &&& !below(path, web_root) ==> static_path_spec(web_root, relative, file, page) is Err
            &&& !below(path, web_root) ==> static_path_spec(web_root, relative, directory, page)
                is Err
        }),
{
    lemma_directory_names();
}

/// Without an index page that is a file below the web root nothing stands for it.
pub proof fn law_index_page_must_be_there(
    web_root: Seq<char>,
    path: Seq<char>,
    other: CandidateView,
)
    ensures
        ({
            let directory = CandidateView::Resolved { path, is_file: false };
            let page = CandidateView::Resolved { path, is_file: true };
            &&& static_path_spec(web_root, seq![], other, CandidateView::Missing) matches Err(error)
                && error.status == 404 && error.code == "WEB_ROOT_NOT_FOUND"@
            &&& static_path_spec(web_root, seq![], other, CandidateView::Unresolved) is Err
            &&& static_path_spec(web_root, seq![], other, directory) is Err
            &&& !below(path, web_root) ==> static_path_spec(web_root, seq![], other, page) is Err
        }),
{
}

/// A file of the client is sent with its type and length, and with what a browser must not do.
pub proof fn law_client_headers(mime: Seq<char>, length: nat)
    ensures
        ({
            let headers = static_headers_spec(mime, length as int);
            &&& headers.len() == 6
            &&& headers[0] == ("content-type"@, encode_utf8(mime))
            &&& headers[1] == ("content-length"@, encode_utf8(decimal_spec(length)))
            &&& headers[2] == ("x-content-type-options"@, encode_utf8("nosniff"@))
            &&& headers[3] == (
                "content-security-policy"@,
                encode_utf8(
                    "default-src 'self'; script-src 'self'; style-src 'self' 'unsafe-inline'; img-src 'self' data: blob:; media-src 'self'; frame-src 'self'; connect-src 'self'; worker-src 'self' blob:; object-src 'none'; base-uri 'none'; frame-ancestors 'none'"@,
                ),
            )
            &&& headers[4] == ("referrer-policy"@, encode_utf8("same-origin"@))
            &&& headers[5] == ("cache-control"@, encode_utf8("no-cache"@))
        }),
{
}

/// A web root that begins at the root of the file system lies there, and any other below the
/// working directory.
pub proof fn law_web_root_lies_below_the_working_directory(path: Seq<char>, working: Seq<char>)
    requires
        working.len() > 0 && working.last() != '/',
        path.len() > 0,
    ensures
        path[0] == '/' ==> web_root_location(path, working) == path,
        path[0] != '/' ==> web_root_location(path, working) == working + "/"@ + path,
{
}

/// Contracts speak of whole values: every part of a value is in its view, in its place, and nothing
/// else is.
pub proof fn law_views_of_web_are_whole(
    candidate: Candidate,
    path: Result<String, String>,
)
    ensures
        match candidate {
            Candidate::Missing => candidate@ is Missing,
            Candidate::Unresolved => candidate@ is Unresolved,
            Candidate::Resolved { path, is_file } => candidate@ == (CandidateView::Resolved {
                path: path@,
                is_file,
            }),
        },
        match path {
            Ok(text) => path_or_message(path) matches Ok(shown) && shown == text@,
            Err(message) => path_or_message(path) matches Err(shown) && shown == message@,
        },
{
}

} // verus!
