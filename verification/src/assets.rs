//! Serving the files of a project: their media types, and the headers that go with them.

use vstd::prelude::*;
use vstd::utf8::encode_utf8;

use crate::error::{ApiError, ErrorView, optional, outcome};
use crate::headers::{
    Headers, all_printable, header_value, header_value_spec, lemma_printable_concat,
    lemma_printable_value,
};
use crate::names::{extension, extension_spec, law_extension_follows_the_last_dot};
use crate::numbers::{decimal, decimal_spec, hex_char, hex_digit};
use crate::paths::{file_name, file_name_spec, law_components_stand_between_slashes};
use crate::range::{
    ByteRange, RangeView, borrowed, content_range, content_range_spec, parse_range, range_length,
    range_length_spec, range_spec,
};
use crate::revision::header_outcome;
use crate::text::{
    CharSet, ascii_alphanumeric, chars_of, is_ascii_alphanumeric, law_text_is_parted_once,
    lemma_trim_start, lower_ascii, lower_ascii_spec, same, split_once, split_once_spec, text_of,
    trim, trim_end_spec, trim_spec,
};

verus! {

/// The media type that `mime_guess` gives for a path, if it knows one.
pub uninterp spec fn guessed_mime(path: Seq<char>) -> Option<Seq<char>>;

/// `mime_guess::from_path` and `MimeGuess::first`: the media type that the table of the crate
/// gives for the extension of the path. It depends on the path alone; no disk is read.
#[verifier::external_body]
fn guess_mime(path: &str) -> (r: Option<String>)
    ensures
        optional(r) == guessed_mime(path@),
{
    match mime_guess::from_path(path).first() {
        Some(mime) => Some(mime.to_string()),
        None => None,
    }
}

/// A media type that was guessed, or the one to assume.
pub open spec fn mime_or(guess: Option<Seq<char>>, assumed: Seq<char>) -> Seq<char> {
    match guess {
        Some(mime) => mime,
        None => assumed,
    }
}

/// The media type of a file that is sent: unknown ones are sent as bytes.
pub open spec fn sent_mime(path: Seq<char>) -> Seq<char> {
    mime_or(guessed_mime(path), "application/octet-stream"@)
}

/// The media type of a file that is sent.
pub fn mime_to_send(path: &str) -> (r: String)
    ensures
        r@ == sent_mime(path@),
{
    match guess_mime(path) {
        Some(mime) => mime,
        None => "application/octet-stream".to_owned(),
    }
}

/// A media type without its parameters.
pub open spec fn essence_spec(mime: Seq<char>) -> Seq<char> {
    match split_once_spec(mime, ';') {
        Some(pair) => pair.0,
        None => mime,
    }
}

/// A media type without its parameters.
pub fn essence(mime: &str) -> (r: String)
    ensures
        r@ == essence_spec(mime@),
{
    let chars = chars_of(mime);
    match split_once(chars.as_slice(), ';') {
        Some((head, _)) => text_of(head),
        None => text_of(chars.as_slice()),
    }
}

/// The media type of a file that was written: unknown ones are plain text.
pub fn mime_of_text(path: &str) -> (r: String)
    ensures
        r@ == essence_spec(mime_or(guessed_mime(path@), "text/plain"@)),
{
    match guess_mime(path) {
        Some(mime) => essence(mime.as_str()),
        None => essence("text/plain"),
    }
}

/// The media type of a file in a listing.
pub fn mime_of_file(path: &str) -> (r: String)
    ensures
        r@ == essence_spec(sent_mime(path@)),
{
    essence(mime_to_send(path).as_str())
}

/// Whether a browser would run what has the media type.
pub open spec fn active_mime(mime: Seq<char>) -> bool {
    let essence = essence_spec(mime);
    ||| essence == "text/html"@
    ||| essence == "application/xhtml+xml"@
    ||| essence == "image/svg+xml"@
    ||| essence == "application/xml"@
    ||| essence == "text/xml"@
    ||| essence == "application/javascript"@
    ||| essence == "text/javascript"@
    ||| essence == "application/ecmascript"@
    ||| essence == "text/ecmascript"@
    ||| essence == "application/x-javascript"@
    ||| essence == "application/hta"@
}

/// Whether a browser would run what has the extension.
pub open spec fn active_extension(extension: Seq<char>) -> bool {
    ||| extension == "htm"@
    ||| extension == "html"@
    ||| extension == "xhtml"@
    ||| extension == "svg"@
    ||| extension == "svgz"@
    ||| extension == "xml"@
    ||| extension == "xsl"@
    ||| extension == "xslt"@
    ||| extension == "js"@
    ||| extension == "mjs"@
    ||| extension == "cjs"@
    ||| extension == "jsx"@
    ||| extension == "hta"@
}

/// The extension of a path, in lower case.
pub open spec fn lower_extension(path: Seq<char>) -> Option<Seq<char>> {
    match file_name_spec(path) {
        Some(name) => match extension_spec(name) {
            Some(extension) => Some(lower_ascii_spec(extension)),
            None => None,
        },
        None => None,
    }
}

/// Whether a browser would run a file: by its media type or by its extension.
pub open spec fn active_content(mime: Seq<char>, path: Seq<char>) -> bool {
    active_mime(mime) || (lower_extension(path) matches Some(extension) && active_extension(
        extension,
    ))
}

/// Whether a browser would run a file.
pub fn is_active_content(mime: &str, path: &str) -> (r: bool)
    ensures
        r == active_content(mime@, path@),
{
    let kind = essence(mime);
    let essence = kind.as_str();
    if same(essence, "text/html") || same(essence, "application/xhtml+xml") || same(
        essence,
        "image/svg+xml",
    ) || same(essence, "application/xml") || same(essence, "text/xml") || same(
        essence,
        "application/javascript",
    ) || same(essence, "text/javascript") || same(essence, "application/ecmascript") || same(
        essence,
        "text/ecmascript",
    ) || same(essence, "application/x-javascript") || same(essence, "application/hta") {
        return true;
    }
    let name = match file_name(path) {
        Some(name) => name,
        None => {
            return false;
        },
    };
    let raw = match extension(name.as_str()) {
        Some(raw) => raw,
        None => {
            return false;
        },
    };
    let lower = text_of(lower_ascii(chars_of(raw.as_str()).as_slice()).as_slice());
    let ext = lower.as_str();
    same(ext, "htm") || same(ext, "html") || same(ext, "xhtml") || same(ext, "svg") || same(
        ext,
        "svgz",
    ) || same(ext, "xml") || same(ext, "xsl") || same(ext, "xslt") || same(ext, "js") || same(
        ext,
        "mjs",
    ) || same(ext, "cjs") || same(ext, "jsx") || same(ext, "hta")
}

/// The top level of a media type.
pub open spec fn mime_type(mime: Seq<char>) -> Seq<char> {
    match split_once_spec(mime, '/') {
        Some(pair) => pair.0,
        None => mime,
    }
}

/// Whether a browser may show what has the media type.
pub open spec fn showable(mime: Seq<char>) -> bool {
    ||| mime_type(mime) == "text"@
    ||| mime_type(mime) == "image"@
    ||| mime_type(mime) == "audio"@
    ||| mime_type(mime) == "video"@
    ||| mime == "application/pdf"@
}

/// Whether a browser may show what has the media type.
fn is_showable(mime: &str) -> (r: bool)
    ensures
        r == showable(mime@),
{
    let chars = chars_of(mime);
    let top = match split_once(chars.as_slice(), '/') {
        Some((top, _)) => text_of(top),
        None => text_of(chars.as_slice()),
    };
    let top = top.as_str();
    same(top, "text") || same(top, "image") || same(top, "audio") || same(top, "video") || same(
        mime,
        "application/pdf",
    )
}

/// Whether a file is shown or saved: what was asked for as a download, what a browser would
/// run, and what it cannot show is saved.
pub open spec fn disposition_spec(mime: Seq<char>, path: Seq<char>, download: bool) -> Seq<char> {
    if download || active_content(mime, path) {
        "attachment"@
    } else if showable(mime) {
        "inline"@
    } else {
        "attachment"@
    }
}

/// Whether a file is shown or saved.
pub fn disposition(mime: &str, path: &str, download: bool) -> (r: &'static str)
    ensures
        r@ == disposition_spec(mime@, path@, download),
{
    if download || is_active_content(mime, path) {
        "attachment"
    } else if is_showable(mime) {
        "inline"
    } else {
        "attachment"
    }
}

/// A character of a plain file name: others become underscores.
pub open spec fn fallback_char(c: char) -> char {
    if ascii_alphanumeric(c) || c == '.' || c == '-' || c == '_' {
        c
    } else {
        '_'
    }
}

/// A file name for clients that know ASCII only.
pub open spec fn fallback_spec(filename: Seq<char>) -> Seq<char> {
    let mapped = Seq::new(filename.len(), |i: int| fallback_char(filename[i]));
    if trim_spec(mapped, CharSet::One('_')).len() == 0 {
        "asset"@
    } else {
        mapped
    }
}

/// A file name for clients that know ASCII only.
fn fallback_name(filename: &[char]) -> (r: Vec<char>)
    ensures
        r@ == fallback_spec(filename@),
{
    let ghost whole = Seq::new(filename@.len(), |i: int| fallback_char(filename@[i]));
    let mut mapped: Vec<char> = Vec::new();
    let mut i: usize = 0;
    while i < filename.len()
        invariant
            i <= filename@.len(),
            whole == Seq::new(filename@.len(), |i: int| fallback_char(filename@[i])),
            mapped@ == whole.take(i as int),
        decreases filename@.len() - i,
    {
        let c = filename[i];
        if is_ascii_alphanumeric(c) || c == '.' || c == '-' || c == '_' {
            mapped.push(c);
        } else {
            mapped.push('_');
        }
        assert(mapped@ =~= whole.take(i + 1));
        i += 1;
    }
    assert(mapped@ =~= whole);
    if trim(mapped.as_slice(), CharSet::One('_')).len() == 0 {
        chars_of("asset")
    } else {
        mapped
    }
}

/// Whether a byte of a file name stands for itself when it is encoded.
pub open spec fn plain_byte(b: u8) -> bool {
    let c = b as char;
    ascii_alphanumeric(c) || c == '-' || c == '.' || c == '_' || c == '~'
}

/// A byte of a file name, encoded: itself, or a percent sign and two hexadecimal digits.
pub open spec fn encoded_byte(b: u8) -> Seq<char> {
    if plain_byte(b) {
        seq![b as char]
    } else {
        seq!['%', hex_digit((b / 16) as int, true), hex_digit((b % 16) as int, true)]
    }
}

/// The bytes of a file name, encoded.
pub open spec fn encoded_spec(bytes: Seq<u8>) -> Seq<char>
    decreases bytes.len(),
{
    if bytes.len() == 0 {
        seq![]
    } else {
        encoded_spec(bytes.drop_last()) + encoded_byte(bytes.last())
    }
}

/// The bytes of a file name, encoded.
fn percent_encode(bytes: &[u8]) -> (r: Vec<char>)
    ensures
        r@ == encoded_spec(bytes@),
{
    let mut r: Vec<char> = Vec::new();
    let mut i: usize = 0;
    assert(bytes@.take(0) =~= Seq::<u8>::empty());
    while i < bytes.len()
        invariant
            i <= bytes@.len(),
            r@ == encoded_spec(bytes@.take(i as int)),
        decreases bytes@.len() - i,
    {
        let b = bytes[i];
        let ghost before = r@;
        proof {
            assert(bytes@.take(i + 1).drop_last() =~= bytes@.take(i as int));
            assert(bytes@.take(i + 1).last() == b);
        }
        let c = b as char;
        if is_ascii_alphanumeric(c) || c == '-' || c == '.' || c == '_' || c == '~' {
            r.push(c);
        } else {
            r.push('%');
            r.push(hex_char(b / 16, true));
            r.push(hex_char(b % 16, true));
        }
        assert(r@ =~= before + encoded_byte(b));
        i += 1;
    }
    assert(bytes@.take(i as int) =~= bytes@);
    r
}

/// The text of the header that names a file.
pub open spec fn content_disposition_text(disposition: Seq<char>, filename: Seq<char>) -> Seq<
    char,
> {
    disposition + "; filename=\""@ + fallback_spec(filename) + "\"; filename*=UTF-8''"@
        + encoded_spec(encode_utf8(filename))
}

/// The header that names a file.
pub fn content_disposition_header(disposition: &str, filename: &str) -> (r: Result<
    Vec<u8>,
    ApiError,
>)
    ensures
        outcome(r) == header_outcome(
            header_value_spec(content_disposition_text(disposition@, filename@)),
        ),
{
    let fallback = text_of(fallback_name(chars_of(filename).as_slice()).as_slice());
    let encoded = text_of(percent_encode(filename.as_bytes()).as_slice());
    let text = disposition.to_owned().concat("; filename=\"").concat(fallback.as_str()).concat(
        "\"; filename*=UTF-8''",
    ).concat(encoded.as_str());
    match header_value(text.as_str()) {
        Ok(bytes) => Ok(bytes),
        Err(message) => Err(ApiError::new(500, "HEADER_ERROR", message.as_str())),
    }
}

/// The name under which the file at a path is sent.
pub open spec fn asset_name(path: Seq<char>) -> Seq<char> {
    match file_name_spec(path) {
        Some(name) => name,
        None => "asset"@,
    }
}

/// How a file is sent: the status, the part of the file, the headers, and whether there is a
/// body.
pub struct AssetPlan {
    pub status: u16,
    pub start: u64,
    pub length: u64,
    pub headers: Headers,
    pub has_body: bool,
}

/// The view of an [`AssetPlan`].
pub struct PlanView {
    pub status: int,
    pub start: int,
    pub length: int,
    pub headers: Seq<(Seq<char>, Seq<u8>)>,
    pub has_body: bool,
}

impl View for AssetPlan {
    type V = PlanView;

    open spec fn view(&self) -> PlanView {
        PlanView {
            status: self.status as int,
            start: self.start as int,
            length: self.length as int,
            headers: self.headers@,
            has_body: self.has_body,
        }
    }
}

/// Whether a file is sent with a body: not if only the headers are wanted, nor if it would be
/// empty.
pub fn sends_body(head: bool, length: u64) -> (r: bool)
    ensures
        r == (!head && length != 0),
{
    !head && length != 0
}

/// A header with a text for its value.
pub open spec fn field(name: Seq<char>, value: Seq<char>) -> (Seq<char>, Seq<u8>) {
    (name, encode_utf8(value))
}

/// The headers of a file that is sent.
pub open spec fn asset_headers(
    mime: Seq<char>,
    path: Seq<char>,
    range: RangeView,
    size: int,
    disposition: Seq<u8>,
) -> Seq<(Seq<char>, Seq<u8>)> {
    let common = seq![
        field("content-type"@, mime),
        field("content-length"@, decimal_spec(range_length_spec(range, size) as nat)),
        field("accept-ranges"@, "bytes"@),
        field("x-content-type-options"@, "nosniff"@),
        ("content-disposition"@, disposition),
    ];
    let policy = if active_content(mime, path) {
        seq![field("content-security-policy"@, "sandbox"@)]
    } else {
        seq![]
    };
    let part = if range.status == 206 {
        seq![field("content-range"@, content_range_spec(range, size))]
    } else {
        seq![]
    };
    common + policy + part
}

/// How a file of a media type is sent.
pub open spec fn plan_spec(
    mime: Seq<char>,
    path: Seq<char>,
    size: int,
    range: Option<Seq<char>>,
    download: bool,
    head: bool,
) -> Result<PlanView, ErrorView> {
    match range_spec(range, size) {
        Err(error) => Err(error),
        Ok(part) => {
            let length = range_length_spec(part, size);
            let text = content_disposition_text(
                disposition_spec(mime, path, download),
                asset_name(path),
            );
            match header_outcome(header_value_spec(text)) {
                Err(error) => Err(error),
                Ok(value) => Ok(
                    PlanView {
                        status: part.status,
                        start: part.start,
                        length,
                        headers: asset_headers(mime, path, part, size, value),
                        has_body: !head && length != 0,
                    },
                ),
            }
        },
    }
}

/// Adds a header with a text for its value.
pub(crate) fn push_text(headers: &mut Headers, name: &str, value: &str)
    ensures
        final(headers)@ == old(headers)@.push(field(name@, value@)),
{
    headers.push(name, vstd::slice::slice_to_vec(value.as_bytes()));
}

/// How a file of a media type is sent.
pub fn plan_asset_as(
    mime: &str,
    path: &str,
    size: u64,
    range: Option<&str>,
    download: bool,
    head: bool,
) -> (r: Result<AssetPlan, ApiError>)
    ensures
        outcome(r) == plan_spec(mime@, path@, size as int, borrowed(range), download, head),
{
    let part: ByteRange = match parse_range(range, size) {
        Ok(part) => part,
        Err(error) => {
            return Err(error);
        },
    };
    let length: u64 = range_length(&part, size);
    let name = match file_name(path) {
        Some(name) => name,
        None => "asset".to_owned(),
    };
    let value = match content_disposition_header(
        disposition(mime, path, download),
        name.as_str(),
    ) {
        Ok(value) => value,
        Err(error) => {
            return Err(error);
        },
    };
    let ghost named = value@;
    let mut headers = Headers::new();
    push_text(&mut headers, "content-type", mime);
    push_text(&mut headers, "content-length", decimal(length).as_str());
    push_text(&mut headers, "accept-ranges", "bytes");
    push_text(&mut headers, "x-content-type-options", "nosniff");
    headers.push("content-disposition", value);
    if is_active_content(mime, path) {
        push_text(&mut headers, "content-security-policy", "sandbox");
    }
    if part.status == 206 {
        push_text(&mut headers, "content-range", content_range(&part, size).as_str());
    }
    assert(headers@ =~= asset_headers(mime@, path@, part@, size as int, named));
    Ok(
        AssetPlan {
            status: part.status,
            start: part.start,
            length,
            headers,
            has_body: sends_body(head, length),
        },
    )
}

/// How the file at a path is sent. `size` is how many bytes it holds, `range` the `Range`
/// header of the request, and `head` says that only the headers are wanted.
pub fn plan_asset(path: &str, size: u64, range: Option<&str>, download: bool, head: bool) -> (r:
    Result<AssetPlan, ApiError>)
    ensures
        outcome(r) == plan_spec(
            sent_mime(path@),
            path@,
            size as int,
            borrowed(range),
            download,
            head,
        ),
{
    let mime = mime_to_send(path);
    plan_asset_as(mime.as_str(), path, size, range, download, head)
}

/// What a browser would run is sent to be saved, in a sandbox, whatever was asked for.
pub proof fn law_active_content_is_saved(
    mime: Seq<char>,
    path: Seq<char>,
    size: int,
    range: Option<Seq<char>>,
    download: bool,
    head: bool,
)
    requires
        active_content(mime, path),
    ensures
        disposition_spec(mime, path, download) == "attachment"@,
        plan_spec(mime, path, size, range, download, head) matches Ok(plan)
            ==> plan.headers.contains(field("content-security-policy"@, "sandbox"@)),
{
    if let Ok(plan) = plan_spec(mime, path, size, range, download, head) {
        assert(plan.headers[5] == field("content-security-policy"@, "sandbox"@));
    }
}

/// A request for the headers gets those of the file, and no body.
pub proof fn law_head_has_no_body(
    mime: Seq<char>,
    path: Seq<char>,
    size: int,
    range: Option<Seq<char>>,
    download: bool,
)
    ensures
        match plan_spec(mime, path, size, range, download, true) {
            Ok(plan) => !plan.has_body && (plan_spec(mime, path, size, range, download, false)
                matches Ok(full) && full.headers == plan.headers && full.status == plan.status),
            Err(error) => plan_spec(mime, path, size, range, download, false) == Err::<
                PlanView,
                ErrorView,
            >(error),
        },
{
}

/// An encoded name is made of visible characters.
proof fn lemma_encoded_printable(bytes: Seq<u8>)
    ensures
        all_printable(encoded_spec(bytes)),
    decreases bytes.len(),
{
    if bytes.len() > 0 {
        lemma_encoded_printable(bytes.drop_last());
        assert(all_printable(encoded_byte(bytes.last())));
        lemma_printable_concat(encoded_spec(bytes.drop_last()), encoded_byte(bytes.last()));
    }
}

/// The value of a hexadecimal digit in upper case.
pub open spec fn digit_value(c: char) -> Option<int> {
    if '0' <= c <= '9' {
        Some(c as int - '0' as int)
    } else if 'A' <= c <= 'F' {
        Some(c as int - 'A' as int + 10)
    } else {
        None
    }
}

/// The bytes that an encoded name stands for, read from the left: a percent sign and two
/// hexadecimal digits stand for a byte, and every other character of the ASCII range for itself.
pub open spec fn decoded_spec(text: Seq<char>) -> Option<Seq<u8>>
    decreases text.len(),
{
    if text.len() == 0 {
        Some(seq![])
    } else if text[0] == '%' {
        if text.len() < 3 || digit_value(text[1]) is None || digit_value(text[2]) is None {
            None
        } else {
            match decoded_spec(text.skip(3)) {
                Some(rest) => Some(
                    seq![(16 * digit_value(text[1])->0 + digit_value(text[2])->0) as u8] + rest,
                ),
                None => None,
            }
        }
    } else if text[0] as u32 >= 128 {
        None
    } else {
        match decoded_spec(text.skip(1)) {
            Some(rest) => Some(seq![text[0] as u8] + rest),
            None => None,
        }
    }
}

/// The encoding of bytes begins with that of the first.
proof fn lemma_encoded_from_left(bytes: Seq<u8>)
    requires
        bytes.len() > 0,
    ensures
        encoded_spec(bytes) == encoded_byte(bytes[0]) + encoded_spec(bytes.skip(1)),
    decreases bytes.len(),
{
    let front = bytes.drop_last();
    let back = bytes.skip(1);
    if bytes.len() == 1 {
        assert(front =~= seq![]);
        assert(back =~= seq![]);
        assert(encoded_spec(bytes) =~= encoded_byte(bytes[0]) + encoded_spec(back));
    } else {
        lemma_encoded_from_left(front);
        assert(front.skip(1) =~= back.drop_last());
        assert(back.last() == bytes.last());
        assert(encoded_spec(bytes) =~= encoded_byte(bytes[0]) + encoded_spec(back));
    }
}

/// What is encoded can be read back, byte for byte.
pub proof fn law_decode_undoes_encode(bytes: Seq<u8>)
    ensures
        decoded_spec(encoded_spec(bytes)) == Some(bytes),
    decreases bytes.len(),
{
    let text = encoded_spec(bytes);
    if bytes.len() > 0 {
        let b = bytes[0];
        let rest = bytes.skip(1);
        lemma_encoded_from_left(bytes);
        law_decode_undoes_encode(rest);
        assert(seq![b] + rest =~= bytes);
        if plain_byte(b) {
            assert(text[0] == b as char);
            assert(text.skip(1) =~= encoded_spec(rest));
        } else {
            assert(text[0] == '%');
            assert(text[1] == hex_digit((b / 16) as int, true));
            assert(text[2] == hex_digit((b % 16) as int, true));
            assert(text.skip(3) =~= encoded_spec(rest));
            assert(digit_value(text[1]) == Some((b / 16) as int));
            assert(digit_value(text[2]) == Some((b % 16) as int));
            assert(16 * (b / 16) + b % 16 == b);
        }
    }
}

/// A fallback name is made of visible characters.
proof fn lemma_fallback_printable(filename: Seq<char>)
    ensures
        all_printable(fallback_spec(filename)),
{
    reveal_strlit("asset");
}

/// The header that names a file can be made for every name.
pub proof fn law_file_can_be_named(mime: Seq<char>, path: Seq<char>, download: bool, filename: Seq<
    char,
>)
    ensures
        header_value_spec(
            content_disposition_text(disposition_spec(mime, path, download), filename),
        ) is Ok,
{
    reveal_strlit("attachment");
    reveal_strlit("inline");
    reveal_strlit("; filename=\"");
    reveal_strlit("\"; filename*=UTF-8''");
    let shown = disposition_spec(mime, path, download);
    let fallback = fallback_spec(filename);
    let encoded = encoded_spec(encode_utf8(filename));
    let a = shown + "; filename=\""@;
    let b = a + fallback;
    let c = b + "\"; filename*=UTF-8''"@;
    let text = content_disposition_text(shown, filename);
    assert(all_printable(shown));
    assert(all_printable("; filename=\""@));
    assert(all_printable("\"; filename*=UTF-8''"@));
    lemma_fallback_printable(filename);
    lemma_encoded_printable(encode_utf8(filename));
    lemma_printable_concat(shown, "; filename=\""@);
    lemma_printable_concat(a, fallback);
    lemma_printable_concat(b, "\"; filename*=UTF-8''"@);
    lemma_printable_concat(c, encoded);
    assert(text == c + encoded);
    lemma_printable_value(text);
}

/// A file can be sent whenever the range that is asked for can.
pub proof fn law_file_can_be_sent(
    mime: Seq<char>,
    path: Seq<char>,
    size: int,
    range: Option<Seq<char>>,
    download: bool,
    head: bool,
)
    ensures
        plan_spec(mime, path, size, range, download, head) is Ok <==> range_spec(range, size) is Ok,
{
    law_file_can_be_named(mime, path, download, asset_name(path));
}

/// A media type ends where its parameters begin.
pub proof fn law_parameters_are_left_out(kind: Seq<char>, parameters: Seq<char>)
    requires
        !kind.contains(';'),
    ensures
        essence_spec(kind) == kind,
        essence_spec(kind + ";"@ + parameters) == kind,
{
    reveal_strlit(";");
    assert(";"@ =~= seq![';']);
    law_text_is_parted_once(kind, ';', parameters);
}

/// A file without a known media type is sent as bytes, and every other as what it is.
pub proof fn law_unknown_files_are_bytes(path: Seq<char>)
    ensures
        guessed_mime(path) is None ==> sent_mime(path) == "application/octet-stream"@,
        guessed_mime(path) matches Some(mime) ==> sent_mime(path) == mime,
{
}

/// What a browser would run: pages, drawings and scripts, told by the media type whatever its
/// parameters are, or by the extension in whatever case.
pub proof fn law_pages_and_scripts_are_active(
    kind: Seq<char>,
    parameters: Seq<char>,
    directory: Seq<char>,
    stem: Seq<char>,
    extension: Seq<char>,
)
    requires
        !kind.contains(';'),
        directory.len() > 0,
        stem.len() > 0 && stem[0] != '.' && !stem.contains('/'),
        !extension.contains('/') && !extension.contains('.'),
    ensures
        active_mime(kind) <==> {
            ||| kind == "text/html"@
            ||| kind == "application/xhtml+xml"@
            ||| kind == "image/svg+xml"@
            ||| kind == "application/xml"@
            ||| kind == "text/xml"@
            ||| kind == "application/javascript"@
            ||| kind == "text/javascript"@
            ||| kind == "application/ecmascript"@
            ||| kind == "text/ecmascript"@
            ||| kind == "application/x-javascript"@
            ||| kind == "application/hta"@
        },
        active_mime(kind + ";"@ + parameters) <==> active_mime(kind),
        ({
            let lower = lower_ascii_spec(extension);
            let path = directory + "/"@ + (stem + "."@ + extension);
            active_content(kind, path) <==> active_mime(kind) || {
                ||| lower == "htm"@
                ||| lower == "html"@
                ||| lower == "xhtml"@
                ||| lower == "svg"@
                ||| lower == "svgz"@
                ||| lower == "xml"@
                ||| lower == "xsl"@
                ||| lower == "xslt"@
                ||| lower == "js"@
                ||| lower == "mjs"@
                ||| lower == "cjs"@
                ||| lower == "jsx"@
                ||| lower == "hta"@
            }
        }),
        active_content(kind, directory + "/"@ + stem) ==> active_mime(kind) || stem.contains('.'),
{
    law_parameters_are_left_out(kind, parameters);
    reveal_strlit(".");
    reveal_strlit("..");
    assert("."@ =~= seq!['.']);
    let name = stem + "."@ + extension;
    assert(name[0] == stem[0] && name.len() >= 2);
    assert(!name.contains('/')) by {
        if name.contains('/') {
            let i = name.index_of('/');
            if i < stem.len() {
                assert(stem.contains(stem[i]));
            } else {
                assert(i > stem.len());
                assert(extension.contains(extension[i - stem.len() - 1]));
            }
        }
    }
    law_components_stand_between_slashes(directory, name);
    law_components_stand_between_slashes(directory, stem);
    law_extension_follows_the_last_dot(stem, extension);
    if !stem.contains('.') {
        law_extension_follows_the_last_dot(stem, stem);
    }
}

/// A file is shown exactly if it was not asked for as a download, would not be run, and is text, a
/// picture, sound, film or a PDF document; every other is saved.
pub proof fn law_what_is_shown(top: Seq<char>, rest: Seq<char>, path: Seq<char>, download: bool)
    requires
        !top.contains('/'),
    ensures
        ({
            let mime = top + "/"@ + rest;
            disposition_spec(mime, path, download) == if !download && !active_content(mime, path)
                && (top == "text"@ || top == "image"@ || top == "audio"@ || top == "video"@ || mime
                == "application/pdf"@) {
                "inline"@
            } else {
                "attachment"@
            }
        }),
{
    reveal_strlit("/");
    assert("/"@ =~= seq!['/']);
    law_text_is_parted_once(top, '/', rest);
}

/// A file name for clients that know ASCII only has the letters, digits, dots, dashes and
/// underscores of the name in their places, and underscores in all others. A name without any of
/// these is replaced as a whole.
pub proof fn law_plain_characters_of_a_name_stay(filename: Seq<char>, i: int)
    requires
        0 <= i < filename.len(),
        ascii_alphanumeric(filename[i]) || filename[i] == '.' || filename[i] == '-',
    ensures
        fallback_spec(filename).len() == filename.len(),
        fallback_spec(filename)[i] == filename[i],
        forall|j: int|
            0 <= j < filename.len() ==> #[trigger] fallback_spec(filename)[j] == if
                ascii_alphanumeric(filename[j]) || filename[j] == '.' || filename[j] == '-'
                || filename[j] == '_' {
                filename[j]
            } else {
                '_'
            },
{
    let mapped = Seq::new(filename.len(), |j: int| fallback_char(filename[j]));
    lemma_trim_keeps(mapped, CharSet::One('_'), i);
}

/// A character that does not belong to a set is not trimmed away.
proof fn lemma_trim_keeps(s: Seq<char>, set: CharSet, i: int)
    requires
        0 <= i < s.len(),
        !set.has(s[i]),
    ensures
        trim_spec(s, set).len() > 0,
    decreases s.len(),
{
    if set.has(s[0]) {
        lemma_trim_keeps(s.drop_first(), set, i - 1);
    } else {
        lemma_trim_end_keeps(s, set, i);
    }
}

/// A character that does not belong to a set is not trimmed away at the end.
proof fn lemma_trim_end_keeps(s: Seq<char>, set: CharSet, i: int)
    requires
        0 <= i < s.len(),
        !set.has(s[i]),
    ensures
        trim_end_spec(s, set).len() > 0,
    decreases s.len(),
{
    if set.has(s.last()) {
        lemma_trim_end_keeps(s.drop_last(), set, i);
    }
}

/// A name of other characters alone is replaced.
pub proof fn law_names_of_other_characters_are_replaced(filename: Seq<char>)
    requires
        forall|i: int|
            0 <= i < filename.len() ==> {
                let c = #[trigger] filename[i];
                !ascii_alphanumeric(c) && c != '.' && c != '-'
            },
    ensures
        fallback_spec(filename) == "asset"@,
{
    let mapped = Seq::new(filename.len(), |j: int| fallback_char(filename[j]));
    let set = CharSet::One('_');
    let none = Seq::<char>::empty();
    assert forall|i: int| 0 <= i < mapped.len() implies set.has(#[trigger] mapped[i]) by {
        let c = filename[i];
    }
    lemma_trim_start(mapped, none, set);
    assert(mapped + none =~= mapped);
}

/// Letters, digits and four marks stand for themselves when they are encoded; every other byte is
/// written as a percent sign and two digits in upper case. Bytes are encoded one by one.
pub proof fn law_bytes_are_encoded_one_by_one(bytes: Seq<u8>, b: u8)
    ensures
        encoded_spec(seq![]) == Seq::<char>::empty(),
        encoded_spec(bytes.push(b)) == encoded_spec(bytes) + encoded_byte(b),
        48 <= b <= 57 || 65 <= b <= 90 || 97 <= b <= 122 || b == 45 || b == 46 || b == 95 || b
            == 126 ==> encoded_byte(b) == seq![b as char],
        !(48 <= b <= 57 || 65 <= b <= 90 || 97 <= b <= 122 || b == 45 || b == 46 || b == 95 || b
            == 126) ==> encoded_byte(b) == seq![
            '%',
            "0123456789ABCDEF"@[(b / 16) as int],
            "0123456789ABCDEF"@[(b % 16) as int],
        ],
{
    reveal_strlit("0123456789ABCDEF");
    assert(bytes.push(b).drop_last() =~= bytes);
    let high = (b / 16) as int;
    let low = (b % 16) as int;
    assert(0 <= high < 16 && 0 <= low < 16);
    assert(hex_digit(high, true) == "0123456789ABCDEF"@[high]);
    assert(hex_digit(low, true) == "0123456789ABCDEF"@[low]);
}

/// The header that names a file names it twice: for clients that know ASCII only, and encoded.
pub proof fn law_file_is_named_twice(disposition: Seq<char>, filename: Seq<char>)
    ensures
        content_disposition_text(disposition, filename) == disposition + "; filename=\""@
            + fallback_spec(filename) + "\"; filename*=UTF-8''"@ + encoded_spec(
            encode_utf8(filename),
        ),
{
}

/// A file is sent under the last name of its path.
pub proof fn law_file_is_sent_under_its_name(directory: Seq<char>, name: Seq<char>)
    requires
        directory.len() > 0,
        name.len() > 0 && !name.contains('/'),
        name != "."@ && name != ".."@,
    ensures
        asset_name(directory + "/"@ + name) == name,
        asset_name(directory + "/"@ + ".."@) == "asset"@,
{
    law_components_stand_between_slashes(directory, name);
}

/// How a file is sent: the part that was asked for, with its type, its length, and what a browser
/// must not do with it.
pub proof fn law_file_is_sent(
    mime: Seq<char>,
    path: Seq<char>,
    size: int,
    range: Option<Seq<char>>,
    download: bool,
    head: bool,
)
    ensures
        match plan_spec(mime, path, size, range, download, head) {
            Ok(plan) => {
                &&& range_spec(range, size) matches Ok(part)
                &&& plan.status == part.status && plan.start == part.start
                &&& plan.length == if size == 0 {
                    0
                } else {
                    part.end - part.start + 1
                }
                &&& plan.has_body <==> !head && plan.length != 0
                &&& plan.headers[0] == ("content-type"@, encode_utf8(mime))
                &&& plan.headers[1] == (
                    "content-length"@,
                    encode_utf8(decimal_spec(plan.length as nat)),
                )
                &&& plan.headers[2] == ("accept-ranges"@, encode_utf8("bytes"@))
                &&& plan.headers[3] == ("x-content-type-options"@, encode_utf8("nosniff"@))
                &&& plan.headers[4].0 == "content-disposition"@
                &&& header_value_spec(
                    content_disposition_text(
                        disposition_spec(mime, path, download),
                        asset_name(path),
                    ),
                ) == Ok::<Seq<u8>, Seq<char>>(plan.headers[4].1)
                &&& plan.headers.len() == 5 + if active_content(mime, path) {
                    1int
                } else {
                    0
                } + if plan.status == 206 {
                    1int
                } else {
                    0
                }
                &&& plan.status == 206 ==> plan.headers.last() == (
                    "content-range"@,
                    encode_utf8(content_range_spec(part, size)),
                )
            },
            Err(error) => range_spec(range, size) == Err::<RangeView, ErrorView>(error),
        },
{
    law_file_can_be_named(mime, path, download, asset_name(path));
}

/// Contracts speak of whole values: every part of a value is in its view, in its place, and nothing
/// else is.
pub proof fn law_views_of_assets_are_whole(
    plan: AssetPlan,
)
    ensures
        plan@.status == plan.status as int,
        plan@.start == plan.start as int,
        plan@.length == plan.length as int,
        plan@.headers == plan.headers@,
        plan@.has_body == plan.has_body,
{
}

} // verus!
