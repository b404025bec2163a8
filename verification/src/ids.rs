//! Identifiers drawn at random.

use vstd::prelude::*;

verus! {

/// Whether a character is a hexadecimal digit in lower case.
pub open spec fn lower_hex(c: char) -> bool {
    '0' <= c <= '9' || 'a' <= c <= 'f'
}

/// Whether a text is written as a version 4 UUID: five groups of hexadecimal digits in lower
/// case with hyphens between them, the third group beginning with the version, which is four,
/// and the fourth with the variant, which is eight to eleven.
pub open spec fn is_uuid(text: Seq<char>) -> bool {
    &&& text.len() == 36
    &&& text[14] == '4'
    &&& text[19] == '8' || text[19] == '9' || text[19] == 'a' || text[19] == 'b'
    &&& forall|i: int|
        0 <= i < 36 ==> if i == 8 || i == 13 || i == 18 || i == 23 {
            #[trigger] text[i] == '-'
        } else {
            lower_hex(text[i])
        }
}

/// `uuid::Uuid::new_v4`, written with its `Display`: the hyphenated form of a version 4
/// UUID. Its digits are random, so nothing more is said of them. It panics if the operating
/// system has no random bytes to give.
#[verifier::external_body]
fn random_uuid() -> (text: String)
    ensures
        is_uuid(text@),
{
    uuid::Uuid::new_v4().to_string()
}

/// Whether a text is a prefix followed by a UUID.
pub open spec fn is_identifier(prefix: Seq<char>, text: Seq<char>) -> bool {
    exists|id: Seq<char>| is_uuid(id) && text == #[trigger] (prefix + id)
}

/// A prefix followed by a fresh UUID.
pub fn new_id(prefix: &str) -> (r: String)
    ensures
        is_identifier(prefix@, r@),
{
    let id = random_uuid();
    let r = prefix.to_owned().concat(id.as_str());
    assert(r@ == prefix@ + id@);
    r
}

/// An identifier is its prefix and thirty-six characters more: digits and hyphens, the hyphens in
/// four places.
pub proof fn law_identifier_is_prefix_and_digits(prefix: Seq<char>, text: Seq<char>)
    requires
        is_identifier(prefix, text),
    ensures
        text.len() == prefix.len() + 36,
        prefix.is_prefix_of(text),
        forall|i: int|
            prefix.len() <= i < text.len() ==> {
                let at = i - prefix.len();
                let c = #[trigger] text[i];
                if at == 8 || at == 13 || at == 18 || at == 23 {
                    c == '-'
                } else {
                    '0' <= c <= '9' || 'a' <= c <= 'f'
                }
            },
        text[prefix.len() as int + 14] == '4',
{
    let id = choose|id: Seq<char>| is_uuid(id) && text == #[trigger] (prefix + id);
    assert(text.subrange(0, prefix.len() as int) =~= prefix);
    assert forall|i: int| prefix.len() <= i < text.len() implies {
        let at = i - prefix.len();
        let c = #[trigger] text[i];
        if at == 8 || at == 13 || at == 18 || at == 23 {
            c == '-'
        } else {
            '0' <= c <= '9' || 'a' <= c <= 'f'
        }
    } by {
        assert(text[i] == id[i - prefix.len()]);
    }
    assert(text[prefix.len() as int + 14] == id[14]);
}

} // verus!
