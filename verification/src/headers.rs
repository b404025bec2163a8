//! The headers of a request, and the values of response headers.

use vstd::prelude::*;

use crate::error::optional;
use crate::text::{
    CharSet, chars_of, law_text_is_parted_once, law_trimming_takes_white_space_alone, same,
    same_chars, split, split_once, split_once_spec, split_spec, text_of, trim, trimmed, views,
    white_space,
};

verus! {

/// A header: its name, in lower case, and its value.
pub struct HeaderField {
    pub name: String,
    pub value: Vec<u8>,
}

/// The headers of a request, in the order in which they came.
pub struct Headers {
    pub fields: Vec<HeaderField>,
}

impl View for Headers {
    type V = Seq<(Seq<char>, Seq<u8>)>;

    open spec fn view(&self) -> Seq<(Seq<char>, Seq<u8>)> {
        Seq::new(self.fields@.len(), |i: int| (self.fields@[i].name@, self.fields@[i].value@))
    }
}

/// The first value under a name.
pub open spec fn first_value(fields: Seq<(Seq<char>, Seq<u8>)>, name: Seq<char>) -> Option<Seq<u8>>
    decreases fields.len(),
{
    if fields.len() == 0 {
        None
    } else if fields[0].0 == name {
        Some(fields[0].1)
    } else {
        first_value(fields.drop_first(), name)
    }
}

/// Whether a byte of a header value can be read as text.
pub open spec fn visible_ascii(b: u8) -> bool {
    32 <= b < 127 || b == 9
}

/// A header value as text, if every byte of it can be read so.
pub open spec fn value_text(value: Seq<u8>) -> Option<Seq<char>> {
    if forall|i: int| 0 <= i < value.len() ==> visible_ascii(#[trigger] value[i]) {
        Some(Seq::new(value.len(), |i: int| value[i] as char))
    } else {
        None
    }
}

/// The first value under a name as text, if it can be read so.
pub open spec fn header_text(fields: Seq<(Seq<char>, Seq<u8>)>, name: Seq<char>) -> Option<
    Seq<char>,
> {
    match first_value(fields, name) {
        Some(value) => value_text(value),
        None => None,
    }
}

/// A header value as text, if every byte of it can be read so.
fn read_value(value: &Vec<u8>) -> (r: Option<String>)
    ensures
        optional(r) == value_text(value@),
{
    let mut chars: Vec<char> = Vec::new();
    let mut i: usize = 0;
    while i < value.len()
        invariant
            i <= value@.len(),
            chars@.len() == i,
            forall|j: int| 0 <= j < i ==> visible_ascii(#[trigger] value@[j]),
            forall|j: int| 0 <= j < i ==> #[trigger] chars@[j] == value@[j] as char,
        decreases value@.len() - i,
    {
        let b = value[i];
        if !((32 <= b && b < 127) || b == 9) {
            assert(!visible_ascii(value@[i as int]));
            return None;
        }
        chars.push(b as char);
        i += 1;
    }
    assert(chars@ =~= Seq::new(value@.len(), |j: int| value@[j] as char));
    Some(text_of(chars.as_slice()))
}

impl Headers {
    /// No headers.
    pub fn new() -> (h: Headers)
        ensures
            h@ == Seq::<(Seq<char>, Seq<u8>)>::empty(),
    {
        let h = Headers { fields: Vec::new() };
        assert(h@ =~= Seq::<(Seq<char>, Seq<u8>)>::empty());
        h
    }

    /// Adds a header after the others.
    pub fn push(&mut self, name: &str, value: Vec<u8>)
        ensures
            final(self)@ == old(self)@.push((name@, value@)),
    {
        self.fields.push(HeaderField { name: name.to_owned(), value });
        assert(self@ =~= old(self)@.push((name@, value@)));
    }

    /// The place of the first header under a name.
    fn find(&self, name: &str) -> (r: Option<usize>)
        ensures
            match r {
                Some(at) => at < self.fields@.len() && first_value(self@, name@) == Some(
                    self.fields@[at as int].value@,
                ),
                None => first_value(self@, name@) is None,
            },
    {
        let mut i: usize = 0;
        assert(self@.skip(0) =~= self@);
        while i < self.fields.len()
            invariant
                i <= self.fields@.len(),
                first_value(self@, name@) == first_value(self@.skip(i as int), name@),
            decreases self.fields@.len() - i,
        {
            proof {
                assert(self@.skip(i as int)[0] == self@[i as int]);
                assert(self@.skip(i as int).drop_first() =~= self@.skip(i + 1));
            }
            if same(self.fields[i].name.as_str(), name) {
                return Some(i);
            }
            i += 1;
        }
        None
    }

    /// Whether there is a header under a name.
    pub fn contains(&self, name: &str) -> (r: bool)
        ensures
            r == (first_value(self@, name@) is Some),
    {
        self.find(name).is_some()
    }

    /// The first value under a name as text, if it can be read so.
    pub fn text(&self, name: &str) -> (r: Option<String>)
        ensures
            optional(r) == header_text(self@, name@),
    {
        match self.find(name) {
            Some(at) => read_value(&self.fields[at].value),
            None => None,
        }
    }
}

/// The value that one part of a cookie header gives to a name.
pub open spec fn cookie_part(part: Seq<char>, name: Seq<char>) -> Option<Seq<char>> {
    match split_once_spec(trimmed(part), '=') {
        Some(pair) => if pair.0 == name {
            Some(pair.1)
        } else {
            None
        },
        None => None,
    }
}

/// The value that the first part which gives one gives to a name.
pub open spec fn first_cookie(parts: Seq<Seq<char>>, name: Seq<char>) -> Option<Seq<char>>
    decreases parts.len(),
{
    if parts.len() == 0 {
        None
    } else {
        match cookie_part(parts[0], name) {
            Some(value) => Some(value),
            None => first_cookie(parts.drop_first(), name),
        }
    }
}

/// The value of a cookie.
pub open spec fn cookie_spec(fields: Seq<(Seq<char>, Seq<u8>)>, name: Seq<char>) -> Option<
    Seq<char>,
> {
    match header_text(fields, "cookie"@) {
        Some(text) => first_cookie(split_spec(text, CharSet::One(';')), name),
        None => None,
    }
}

/// The value of a cookie.
pub fn cookie_value(headers: &Headers, name: &str) -> (r: Option<String>)
    ensures
        optional(r) == cookie_spec(headers@, name@),
{
    let text = match headers.text("cookie") {
        Some(text) => text,
        None => {
            return None;
        },
    };
    let chars = chars_of(text.as_str());
    let wanted = chars_of(name);
    let parts = split(chars.as_slice(), CharSet::One(';'));
    let mut i: usize = 0;
    assert(views(parts@).skip(0) =~= views(parts@));
    while i < parts.len()
        invariant
            i <= parts@.len(),
            wanted@ == name@,
            cookie_spec(headers@, name@) == first_cookie(views(parts@).skip(i as int), name@),
        decreases parts@.len() - i,
    {
        proof {
            assert(views(parts@).skip(i as int)[0] == parts@[i as int]@);
            assert(views(parts@).skip(i as int).drop_first() =~= views(parts@).skip(i + 1));
        }
        let part = trim(parts[i], CharSet::WhiteSpace);
        if let Some((key, value)) = split_once(part, '=') {
            if same_chars(key, wanted.as_slice()) {
                return Some(text_of(value));
            }
        }
        i += 1;
    }
    None
}

/// Whether a header value may be made of the bytes.
pub open spec fn valid_value(bytes: Seq<u8>) -> bool {
    forall|i: int|
        0 <= i < bytes.len() ==> {
            let b = #[trigger] bytes[i];
            (b >= 32 && b != 127) || b == 9
        }
}

/// The view of the outcome of making a header value.
pub open spec fn value_view(r: Result<Vec<u8>, String>) -> Result<Seq<u8>, Seq<char>> {
    match r {
        Ok(bytes) => Ok(bytes@),
        Err(message) => Err(message@),
    }
}

/// The header value that a text gives: its bytes, unless one of them is a control character
/// other than a tab.
pub open spec fn header_value_spec(text: Seq<char>) -> Result<Seq<u8>, Seq<char>> {
    let bytes = vstd::utf8::encode_utf8(text);
    if valid_value(bytes) {
        Ok(bytes)
    } else {
        Err("failed to parse header value"@)
    }
}

/// `http::HeaderValue::from_str`: a header value holds the bytes of the text, unless one of
/// them is a control character other than a tab; the error says so in fixed words.
#[verifier::external_body]
pub(crate) fn header_value(text: &str) -> (r: Result<Vec<u8>, String>)
    ensures
        value_view(r) == header_value_spec(text@),
{
    match axum::http::HeaderValue::from_str(text) {
        Ok(value) => Ok(value.as_bytes().to_vec()),
        Err(error) => Err(error.to_string()),
    }
}

/// Whether a character is a visible one of ASCII.
pub open spec fn printable(c: char) -> bool {
    32 <= c as int <= 126
}

/// Whether all characters are visible ones of ASCII.
pub open spec fn all_printable(s: Seq<char>) -> bool {
    forall|i: int| 0 <= i < s.len() ==> printable(#[trigger] s[i])
}

/// What is made of visible characters is made of them.
pub proof fn lemma_printable_concat(a: Seq<char>, b: Seq<char>)
    requires
        all_printable(a),
        all_printable(b),
    ensures
        all_printable(a + b),
{
    assert forall|i: int| 0 <= i < (a + b).len() implies printable(#[trigger] (a + b)[i]) by {
        if i < a.len() {
            assert((a + b)[i] == a[i]);
        } else {
            assert((a + b)[i] == b[i - a.len()]);
        }
    }
}

/// A header value can be made of visible characters.
pub proof fn lemma_printable_value(text: Seq<char>)
    requires
        all_printable(text),
    ensures
        header_value_spec(text) is Ok,
        header_value_spec(text) matches Ok(value) && value_text(value) == Some(text),
{
    assert(vstd::utf8::is_ascii_chars(text)) by {
        assert forall|i: int| 0 <= i < text.len() implies '\0' <= #[trigger] text[i]
            <= '\u{7f}' by {
            assert(printable(text[i]));
        }
    }
    vstd::utf8::is_ascii_chars_encode_utf8(text);
    let bytes = vstd::utf8::encode_utf8(text);
    assert forall|i: int| 0 <= i < bytes.len() implies {
        let b = #[trigger] bytes[i];
        b >= 32 && b != 127 && visible_ascii(b) && b as char == text[i]
    } by {
        assert(printable(text[i]));
        assert(text[i] as u8 == bytes[i]);
    }
    assert(valid_value(bytes));
    assert(Seq::new(bytes.len(), |i: int| bytes[i] as char) =~= text);
}

/// Of fields with one name the first counts, and a name without a field has no value.
pub proof fn law_first_field_counts(
    before: Seq<(Seq<char>, Seq<u8>)>,
    name: Seq<char>,
    value: Seq<u8>,
    after: Seq<(Seq<char>, Seq<u8>)>,
)
    requires
        forall|i: int| 0 <= i < before.len() ==> (#[trigger] before[i]).0 != name,
    ensures
        first_value(before.push((name, value)) + after, name) == Some(value),
        first_value(before, name) is None,
    decreases before.len(),
{
    let whole = before.push((name, value)) + after;
    if before.len() > 0 {
        let rest = before.drop_first();
        assert(before[0].0 != name);
        assert forall|i: int| 0 <= i < rest.len() implies (#[trigger] rest[i]).0 != name by {
            assert(rest[i] == before[i + 1]);
        }
        law_first_field_counts(rest, name, value, after);
        assert(whole.drop_first() =~= rest.push((name, value)) + after);
    }
}

/// A header is read as the text of its bytes, if all of them are visible ones, spaces or
/// tabulators.
pub proof fn law_header_is_read_byte_by_byte(
    fields: Seq<(Seq<char>, Seq<u8>)>,
    name: Seq<char>,
    value: Seq<u8>,
)
    requires
        first_value(fields, name) == Some(value),
    ensures
        header_text(fields, name) is Some <==> forall|i: int|
            0 <= i < value.len() ==> (32 <= #[trigger] value[i] <= 126 || value[i] == 9),
        header_text(fields, name) matches Some(text) ==> text.len() == value.len() && forall|i: int|
            0 <= i < value.len() ==> #[trigger] text[i] == value[i] as char,
{
    if forall|i: int| 0 <= i < value.len() ==> (32 <= #[trigger] value[i] <= 126 || value[i] == 9) {
        assert forall|i: int| 0 <= i < value.len() implies visible_ascii(#[trigger] value[i]) by {}
    }
    if forall|i: int| 0 <= i < value.len() ==> visible_ascii(#[trigger] value[i]) {
        assert forall|i: int| 0 <= i < value.len() implies (32 <= #[trigger] value[i] <= 126
            || value[i] == 9) by {
            assert(visible_ascii(value[i]));
        }
    }
}

/// Cookies are read in order: the first with the name has the value that follows the equals sign,
/// white space around it aside, and one with another name is passed over.
pub proof fn law_cookies_are_read_in_order(
    fields: Seq<(Seq<char>, Seq<u8>)>,
    fewer: Seq<(Seq<char>, Seq<u8>)>,
    before: Seq<char>,
    key: Seq<char>,
    value: Seq<char>,
    after: Seq<char>,
    rest: Seq<char>,
    name: Seq<char>,
)
    requires
        header_text(fields, "cookie"@) == Some(
            before + key + seq!['='] + value + after + seq![';'] + rest,
        ),
        header_text(fewer, "cookie"@) == Some(rest),
        forall|i: int| 0 <= i < before.len() ==> white_space(#[trigger] before[i]) && before[i]
            != ';',
        forall|i: int| 0 <= i < after.len() ==> white_space(#[trigger] after[i]) && after[i] != ';',
        !key.contains(';') && !key.contains('=') && !value.contains(';'),
        key.len() > 0 && !white_space(key[0]),
        value.len() > 0 ==> !white_space(value.last()),
    ensures
        cookie_spec(fields, name) == if key == name {
            Some(value)
        } else {
            cookie_spec(fewer, name)
        },
{
    let pair = key + seq!['='] + value;
    let part = before + key + seq!['='] + value + after;
    assert(part =~= before + pair + after);
    assert(!part.contains(';')) by {
        if part.contains(';') {
            let i = choose|i: int| 0 <= i < part.len() && part[i] == ';';
            let a = before.len();
            let b = a + key.len();
            let c = b + 1 + value.len();
            if i < a {
                assert(part[i] == before[i]);
            } else if i < b {
                assert(part[i] == key[i - a]);
                assert(key.contains(key[i - a]));
            } else if i == b {
                assert(part[i] == '=');
            } else if i < c {
                assert(part[i] == value[i - b - 1]);
                assert(value.contains(value[i - b - 1]));
            } else {
                assert(part[i] == after[i - c]);
            }
        }
    }
    law_trimming_takes_white_space_alone(before, pair, after);
    law_text_is_parted_once(key, '=', value);
    law_text_is_parted_once(part, ';', rest);
    let all = split_spec(part + seq![';'] + rest, CharSet::One(';'));
    assert(all[0] == part);
    assert(all.drop_first() =~= split_spec(rest, CharSet::One(';')));
}

/// A cookie that stands last, or alone, is read as well.
pub proof fn law_last_cookie_is_read(
    fields: Seq<(Seq<char>, Seq<u8>)>,
    before: Seq<char>,
    key: Seq<char>,
    value: Seq<char>,
    name: Seq<char>,
)
    requires
        header_text(fields, "cookie"@) == Some(before + key + seq!['='] + value),
        forall|i: int| 0 <= i < before.len() ==> white_space(#[trigger] before[i]) && before[i]
            != ';',
        !key.contains(';') && !key.contains('=') && !value.contains(';'),
        key.len() > 0 && !white_space(key[0]),
        value.len() > 0 ==> !white_space(value.last()),
    ensures
        cookie_spec(fields, name) == if key == name {
            Some(value)
        } else {
            None::<Seq<char>>
        },
{
    let pair = key + seq!['='] + value;
    let part = before + key + seq!['='] + value;
    let nothing = Seq::<char>::empty();
    assert(part =~= before + pair + nothing);
    assert(!part.contains(';')) by {
        if part.contains(';') {
            let i = choose|i: int| 0 <= i < part.len() && part[i] == ';';
            let a = before.len();
            let b = a + key.len();
            if i < a {
                assert(part[i] == before[i]);
            } else if i < b {
                assert(part[i] == key[i - a]);
                assert(key.contains(key[i - a]));
            } else if i == b {
                assert(part[i] == '=');
            } else {
                assert(part[i] == value[i - b - 1]);
                assert(value.contains(value[i - b - 1]));
            }
        }
    }
    law_trimming_takes_white_space_alone(before, pair, nothing);
    law_text_is_parted_once(key, '=', value);
    law_text_is_parted_once(part, ';', nothing);
    let all = seq![part];
    assert(split_spec(part, CharSet::One(';')) == all);
    assert(all.drop_first() =~= Seq::<Seq<char>>::empty());
    assert(first_cookie(all.drop_first(), name) is None);
}

/// Contracts speak of whole values: every part of a value is in its view, in its place, and nothing
/// else is.
pub proof fn law_views_of_headers_are_whole(
    headers: Headers,
    value: Result<Vec<u8>, String>,
)
    ensures
        headers@.len() == headers.fields@.len(),
        forall|i: int|
            0 <= i < headers.fields@.len() ==> (#[trigger] headers@[i]).0
                == headers.fields@[i].name@ && headers@[i].1 == headers.fields@[i].value@,
        match value {
            Ok(bytes) => value_view(value) matches Ok(shown) && shown == bytes@,
            Err(message) => value_view(value) matches Err(shown) && shown == message@,
        },
{
}

/// A header value is the bytes of its text, exactly if none of these is a control character other
/// than a tab.
pub proof fn law_header_value_holds_no_control_character(text: Seq<char>)
    ensures
        header_value_spec(text) is Ok <==> forall|i: int|
            0 <= i < vstd::utf8::encode_utf8(text).len() ==> {
                let b = #[trigger] vstd::utf8::encode_utf8(text)[i];
                b == 9 || 32 <= b <= 126 || b >= 128
            },
        header_value_spec(text) matches Ok(bytes) ==> bytes == vstd::utf8::encode_utf8(text),
{
    let bytes = vstd::utf8::encode_utf8(text);
    if forall|i: int|
        0 <= i < bytes.len() ==> {
            let b = #[trigger] bytes[i];
            b == 9 || 32 <= b <= 126 || b >= 128
        } {
        assert(valid_value(bytes));
    }
}

} // verus!
