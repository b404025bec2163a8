//! The `Range` header: which part of a file is asked for.

use vstd::prelude::*;

use crate::error::{ApiError, ErrorView, plain_error};
use crate::numbers::{
    NumberError, decimal, decimal_spec, is_digit, law_decimal_round_trip, law_parse_reads_decimal,
    parse_decimal, parse_spec,
};
use crate::text::{
    chars_of, has_char, law_prefix_is_taken_away, law_text_is_parted_once, split_once,
    split_once_spec, strip_prefix, strip_prefix_spec,
};

verus! {

/// A part of a file to answer with: the status and the first and last byte.
#[derive(Clone, Copy)]
pub struct ByteRange {
    pub status: u16,
    pub start: u64,
    pub end: u64,
}

/// The view of a [`ByteRange`].
pub struct RangeView {
    pub status: int,
    pub start: int,
    pub end: int,
}

impl View for ByteRange {
    type V = RangeView;

    open spec fn view(&self) -> RangeView {
        RangeView { status: self.status as int, start: self.start as int, end: self.end as int }
    }
}

/// The refusal of a range.
pub open spec fn range_error(message: Seq<char>) -> ErrorView {
    plain_error(416, "INVALID_RANGE"@, message)
}

fn range_refused(message: &str) -> (e: ApiError)
    ensures
        e@ == range_error(message@),
{
    ApiError::new(416, "INVALID_RANGE", message)
}

/// The smaller of two numbers.
pub open spec fn smaller(a: int, b: int) -> int {
    if a <= b {
        a
    } else {
        b
    }
}

/// The bytes from `start` to `end`, if they lie in a file of `size` bytes.
pub open spec fn bounded_range(start: int, end: int, size: int) -> Result<RangeView, ErrorView> {
    if start >= size || start > end {
        Err(range_error("range is outside the file"@))
    } else {
        Ok(RangeView { status: 206, start, end })
    }
}

/// The bytes that `first-last` asks for: `first` alone reaches to the end of the file,
/// `last` alone counts bytes from its end.
pub open spec fn requested_range(first: Seq<char>, last: Seq<char>, size: int) -> Result<
    RangeView,
    ErrorView,
> {
    let wrong = Err::<RangeView, ErrorView>(range_error("invalid Range header"@));
    let max = u64::MAX as nat;
    if first.len() == 0 {
        match parse_spec(last, max) {
            Ok(suffix) => bounded_range(size - smaller(suffix as int, size), size - 1, size),
            Err(_) => wrong,
        }
    } else {
        match parse_spec(first, max) {
            Ok(start) => if last.len() == 0 {
                bounded_range(start as int, size - 1, size)
            } else {
                match parse_spec(last, max) {
                    Ok(end) => bounded_range(start as int, smaller(end as int, size - 1), size),
                    Err(_) => wrong,
                }
            },
            Err(_) => wrong,
        }
    }
}

/// What a `Range` header asks for of a file of `size` bytes. Without the header, and of
/// an empty file, it is the whole file.
pub open spec fn range_spec(value: Option<Seq<char>>, size: int) -> Result<RangeView, ErrorView> {
    if size == 0 {
        Ok(RangeView { status: 200, start: 0, end: 0 })
    } else {
        match value {
            None => Ok(RangeView { status: 200, start: 0, end: size - 1 }),
            Some(value) => match strip_prefix_spec(value, "bytes="@) {
                None => Err(range_error("invalid Range header"@)),
                Some(ranges) => if ranges.contains(',') {
                    Err(range_error("multiple ranges are not supported"@))
                } else {
                    match split_once_spec(ranges, '-') {
                        None => Err(range_error("invalid Range header"@)),
                        Some((first, last)) => requested_range(first, last, size),
                    }
                },
            },
        }
    }
}

/// The view of an optional borrowed text.
pub open spec fn borrowed(text: Option<&str>) -> Option<Seq<char>> {
    match text {
        Some(text) => Some(text@),
        None => None,
    }
}

/// The view of the outcome of [`parse_range`].
pub open spec fn range_outcome(r: Result<ByteRange, ApiError>) -> Result<RangeView, ErrorView> {
    match r {
        Ok(range) => Ok(range@),
        Err(error) => Err(error@),
    }
}

fn bounded(start: u64, end: u64, size: u64) -> (r: Result<ByteRange, ApiError>)
    ensures
        range_outcome(r) == bounded_range(start as int, end as int, size as int),
{
    if start >= size || start > end {
        return Err(range_refused("range is outside the file"));
    }
    Ok(ByteRange { status: 206, start, end })
}

fn requested(first: &[char], last: &[char], size: u64) -> (r: Result<ByteRange, ApiError>)
    requires
        size > 0,
    ensures
        range_outcome(r) == requested_range(first@, last@, size as int),
{
    if first.len() == 0 {
        return match parse_decimal(last, u64::MAX) {
            Ok(suffix) => {
                let taken: u64 = if suffix <= size {
                    suffix
                } else {
                    size
                };
                bounded(size - taken, size - 1, size)
            },
            Err(_) => Err(range_refused("invalid Range header")),
        };
    }
    match parse_decimal(first, u64::MAX) {
        Ok(start) => if last.len() == 0 {
            bounded(start, size - 1, size)
        } else {
            match parse_decimal(last, u64::MAX) {
                Ok(end) => {
                    let reached: u64 = if end <= size - 1 {
                        end
                    } else {
                        size - 1
                    };
                    bounded(start, reached, size)
                },
                Err(_) => Err(range_refused("invalid Range header")),
            }
        },
        Err(_) => Err(range_refused("invalid Range header")),
    }
}

/// Reads a `Range` header for a file of `size` bytes.
pub fn parse_range(value: Option<&str>, size: u64) -> (r: Result<ByteRange, ApiError>)
    ensures
        range_outcome(r) == range_spec(borrowed(value), size as int),
        r matches Ok(range) ==> size > 0 ==> range.start <= range.end < size,
{
    if size == 0 {
        return Ok(ByteRange { status: 200, start: 0, end: 0 });
    }
    let text = match value {
        Some(text) => text,
        None => {
            return Ok(ByteRange { status: 200, start: 0, end: size - 1 });
        },
    };
    let chars = chars_of(text);
    let prefix = chars_of("bytes=");
    let ranges = match strip_prefix(chars.as_slice(), prefix.as_slice()) {
        Some(ranges) => ranges,
        None => {
            return Err(range_refused("invalid Range header"));
        },
    };
    if has_char(ranges, ',') {
        return Err(range_refused("multiple ranges are not supported"));
    }
    match split_once(ranges, '-') {
        Some((first, last)) => requested(first, last, size),
        None => Err(range_refused("invalid Range header")),
    }
}

/// How many bytes of a file of `size` bytes a range holds.
pub open spec fn range_length_spec(range: RangeView, size: int) -> int {
    if size == 0 {
        0
    } else {
        range.end - range.start + 1
    }
}

/// How many bytes of a file of `size` bytes a range holds.
pub fn range_length(range: &ByteRange, size: u64) -> (n: u64)
    requires
        size > 0 ==> range.start <= range.end < size,
    ensures
        n == range_length_spec(range@, size as int),
{
    if size == 0 {
        0
    } else {
        range.end - range.start + 1
    }
}

/// The `Content-Range` header of an answer with a part of a file.
pub open spec fn content_range_spec(range: RangeView, size: int) -> Seq<char> {
    "bytes "@ + decimal_spec(range.start as nat) + "-"@ + decimal_spec(range.end as nat) + "/"@
        + decimal_spec(size as nat)
}

/// The `Content-Range` header of an answer with a part of a file.
pub fn content_range(range: &ByteRange, size: u64) -> (text: String)
    ensures
        text@ == content_range_spec(range@, size as int),
{
    "bytes ".to_owned().concat(decimal(range.start).as_str()).concat("-").concat(
        decimal(range.end).as_str(),
    ).concat("/").concat(decimal(size).as_str())
}

/// A range that is served lies inside the file, holds at least one byte of a file that has
/// any, and no more bytes than the file.
pub proof fn law_range_within_file(value: Option<Seq<char>>, size: int)
    requires
        0 <= size <= u64::MAX,
    ensures
        range_spec(value, size) matches Ok(range) ==> {
            &&& size > 0 ==> 0 <= range.start <= range.end < size
            &&& size > 0 ==> 0 < range_length_spec(range, size) <= size
            &&& size == 0 ==> range_length_spec(range, size) == 0
        },
{
}

/// Without a `Range` header every byte of the file is served, with status 200.
pub proof fn law_no_range_serves_whole_file(size: int)
    requires
        0 <= size <= u64::MAX,
    ensures
        range_spec(None, size) matches Ok(range) && range.status == 200 && range_length_spec(
            range,
            size,
        ) == size,
{
}

/// Whatever header was sent: status 206 is answered exactly when a header restricts the
/// bytes of a file that is not empty, and everything refused is refused with status 416.
pub proof fn law_range_status(value: Option<Seq<char>>, size: int)
    requires
        0 <= size <= u64::MAX,
    ensures
        match range_spec(value, size) {
            Ok(range) => range.status == if value is Some && size > 0 {
                206int
            } else {
                200int
            },
            Err(error) => error.status == 416 && error.code == "INVALID_RANGE"@ && value is Some
                && size > 0,
        },
{
}

/// A number in decimal holds no dash and no comma, is not empty, and is read as the number.
proof fn lemma_plain_number(n: nat)
    requires
        n <= u64::MAX,
    ensures
        !decimal_spec(n).contains('-'),
        !decimal_spec(n).contains(','),
        decimal_spec(n).len() > 0,
        parse_spec(decimal_spec(n), u64::MAX as nat) == Ok::<nat, NumberError>(n),
{
    law_decimal_round_trip(n);
    law_parse_reads_decimal(n, u64::MAX as nat);
    let text = decimal_spec(n);
    if text.contains('-') {
        let i = text.index_of('-');
        assert(is_digit(text[i]));
    }
    if text.contains(',') {
        let i = text.index_of(',');
        assert(is_digit(text[i]));
    }
}

/// What is asked for by two texts with a dash between them is what these ask for.
proof fn lemma_asked_for(first: Seq<char>, last: Seq<char>, size: int)
    requires
        size > 0,
        !first.contains('-'),
        !first.contains(','),
        !last.contains(','),
    ensures
        range_spec(Some("bytes="@ + (first + seq!['-'] + last)), size) == requested_range(
            first,
            last,
            size,
        ),
{
    let ranges = first + seq!['-'] + last;
    law_prefix_is_taken_away("bytes="@, ranges, ranges);
    law_text_is_parted_once(first, '-', last);
    if ranges.contains(',') {
        let i = ranges.index_of(',');
        if i < first.len() {
            assert(first.contains(first[i]));
        } else {
            assert(i > first.len());
            assert(last.contains(last[i - first.len() - 1]));
        }
    }
}

/// A range from one place to another is served from there to there, or to the end of the file;
/// one that begins behind its end, or behind that of the file, is refused.
pub proof fn law_range_from_place_to_place(first: nat, last: nat, size: int)
    requires
        first <= u64::MAX,
        last <= u64::MAX,
        0 < size <= u64::MAX,
    ensures
        ({
            let value = "bytes="@ + (decimal_spec(first) + seq!['-'] + decimal_spec(last));
            match range_spec(Some(value), size) {
                Ok(range) => {
                    &&& first < size && first <= last
                    &&& range.status == 206 && range.start == first
                    &&& last < size ==> range.end == last
                    &&& last >= size ==> range.end == size - 1
                },
                Err(error) => error.status == 416 && (first >= size || first > last),
            }
        }),
{
    lemma_plain_number(first);
    lemma_plain_number(last);
    lemma_asked_for(decimal_spec(first), decimal_spec(last), size);
}

/// A range without an end is served to the end of the file.
pub proof fn law_range_to_the_end(first: nat, size: int)
    requires
        first <= u64::MAX,
        0 < size <= u64::MAX,
    ensures
        ({
            let value = "bytes="@ + (decimal_spec(first) + seq!['-'] + seq![]);
            match range_spec(Some(value), size) {
                Ok(range) => first < size && range.status == 206 && range.start == first
                    && range.end == size - 1,
                Err(error) => error.status == 416 && first >= size,
            }
        }),
{
    lemma_plain_number(first);
    lemma_asked_for(decimal_spec(first), seq![], size);
}

/// A range without a beginning is served from the end of the file: so many bytes, or all of
/// them.
pub proof fn law_range_from_the_end(count: nat, size: int)
    requires
        count <= u64::MAX,
        0 < size <= u64::MAX,
    ensures
        ({
            let value = "bytes="@ + (Seq::<char>::empty() + seq!['-'] + decimal_spec(count));
            match range_spec(Some(value), size) {
                Ok(range) => {
                    &&& count > 0
                    &&& range.status == 206 && range.end == size - 1
                    &&& count <= size ==> range.end - range.start + 1 == count
                    &&& count > size ==> range.start == 0
                },
                Err(error) => error.status == 416 && count == 0,
            }
        }),
{
    lemma_plain_number(count);
    lemma_asked_for(seq![], decimal_spec(count), size);
}

/// A header that counts no bytes, that asks for more than one range, or in which no dash stands
/// is refused.
pub proof fn law_other_ranges_are_refused(value: Seq<char>, size: int)
    requires
        size > 0,
        !"bytes="@.is_prefix_of(value) || value.contains(',') || !value.contains('-'),
    ensures
        range_spec(Some(value), size) is Err,
{
    reveal_strlit("bytes=");
    if let Some(ranges) = strip_prefix_spec(value, "bytes="@) {
        law_prefix_is_taken_away("bytes="@, ranges, value);
        if value.contains(',') {
            let i = value.index_of(',');
            assert(i >= 6);
            assert(ranges[i - 6] == ',');
        } else if !value.contains('-') {
            assert(!ranges.contains('-')) by {
                if ranges.contains('-') {
                    let i = ranges.index_of('-');
                    assert(value[i + 6] == '-');
                }
            }
            law_text_is_parted_once(ranges, '-', ranges);
        }
    }
}

/// The header of a part says where it begins, where it ends and how large the file is; its length
/// counts both ends.
pub proof fn law_part_is_described(start: nat, end: nat, size: nat)
    requires
        start <= end < size,
    ensures
        ({
            let range = RangeView { status: 206, start: start as int, end: end as int };
            &&& content_range_spec(range, size as int) == "bytes "@ + decimal_spec(start) + "-"@
                + decimal_spec(end) + "/"@ + decimal_spec(size)
            &&& range_length_spec(range, size as int) == end - start + 1
        }),
{
}

/// Contracts speak of whole values: every part of a value is in its view, in its place, and nothing
/// else is.
pub proof fn law_views_of_range_are_whole(
    range: ByteRange,
    text: Option<&str>,
    read: Result<ByteRange, ApiError>,
)
    ensures
        range@.status == range.status as int,
        range@.start == range.start as int,
        range@.end == range.end as int,
        match text {
            Some(inner) => borrowed(text) == Some(inner@),
            None => borrowed(text) is None,
        },
        match read {
            Ok(found) => range_outcome(read) matches Ok(shown) && shown == found@,
            Err(error) => range_outcome(read) matches Err(shown) && shown == error@,
        },
{
}

} // verus!
