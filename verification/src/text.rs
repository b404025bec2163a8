//! Text as a sequence of characters: searching, splitting, trimming, case.

use vstd::prelude::*;
use vstd::slice::slice_subrange;

verus! {

/// The texts behind a sequence of strings.
pub open spec fn texts(strings: Seq<String>) -> Seq<Seq<char>> {
    Seq::new(strings.len(), |i: int| strings[i]@)
}

/// `String::push` of the standard library: the character is appended at the end.
pub assume_specification[ String::push ](text: &mut String, c: char)
    ensures
        final(text)@ == old(text)@.push(c),
;

/// The characters of `text`.
pub fn chars_of(text: &str) -> (chars: Vec<char>)
    ensures
        chars@ == text@,
{
    let mut chars: Vec<char> = Vec::new();
    for c in it: text.chars()
        invariant
            it.seq() == text@,
            chars@ == text@.take(it.index()),
    {
        chars.push(c);
        assert(text@.take(it.index() + 1) =~= text@.take(it.index()).push(c));
    }
    assert(text@.take(text@.len() as int) =~= text@);
    chars
}

/// The text made of `chars`.
pub fn text_of(chars: &[char]) -> (text: String)
    ensures
        text@ == chars@,
{
    let mut text = String::new();
    let mut i: usize = 0;
    while i < chars.len()
        invariant
            i <= chars@.len(),
            text@ == chars@.take(i as int),
        decreases chars@.len() - i,
    {
        text.push(chars[i]);
        assert(chars@.take(i + 1) =~= chars@.take(i as int).push(chars@[i as int]));
        i += 1;
    }
    assert(chars@.take(i as int) =~= chars@);
    text
}

/// Whether two character sequences are equal.
pub fn same_chars(a: &[char], b: &[char]) -> (r: bool)
    ensures
        r == (a@ == b@),
{
    if a.len() != b.len() {
        return false;
    }
    let mut i: usize = 0;
    while i < a.len()
        invariant
            i <= a@.len(),
            a@.len() == b@.len(),
            forall|j: int| 0 <= j < i ==> a@[j] == b@[j],
        decreases a@.len() - i,
    {
        if a[i] != b[i] {
            return false;
        }
        i += 1;
    }
    assert(a@ =~= b@);
    true
}

/// Whether two texts are equal.
pub fn same(a: &str, b: &str) -> (r: bool)
    ensures
        r == (a@ == b@),
{
    let left = chars_of(a);
    let right = chars_of(b);
    same_chars(left.as_slice(), right.as_slice())
}

/// Whether `c` has the Unicode property White_Space.
pub open spec fn white_space(c: char) -> bool {
    ||| 0x9 <= c as u32 <= 0xd
    ||| c as u32 == 0x20
    ||| c as u32 == 0x85
    ||| c as u32 == 0xa0
    ||| c as u32 == 0x1680
    ||| 0x2000 <= c as u32 <= 0x200a
    ||| c as u32 == 0x2028
    ||| c as u32 == 0x2029
    ||| c as u32 == 0x202f
    ||| c as u32 == 0x205f
    ||| c as u32 == 0x3000
}

/// Whether `c` is a letter or digit of the ASCII range.
pub open spec fn ascii_alphanumeric(c: char) -> bool {
    ||| '0' <= c <= '9'
    ||| 'a' <= c <= 'z'
    ||| 'A' <= c <= 'Z'
}

/// Decides [`ascii_alphanumeric`].
pub fn is_ascii_alphanumeric(c: char) -> (r: bool)
    ensures
        r == ascii_alphanumeric(c),
{
    ('0' <= c && c <= '9') || ('a' <= c && c <= 'z') || ('A' <= c && c <= 'Z')
}

/// A set of characters that trimming removes.
#[derive(Clone, Copy)]
pub enum CharSet {
    /// The characters with the property White_Space.
    WhiteSpace,
    /// A single character.
    One(char),
    /// Two characters.
    Two(char, char),
}

impl CharSet {
    /// Whether `c` belongs to the set.
    pub open spec fn has(self, c: char) -> bool {
        match self {
            CharSet::WhiteSpace => white_space(c),
            CharSet::One(a) => c == a,
            CharSet::Two(a, b) => c == a || c == b,
        }
    }

    /// Decides [`CharSet::has`].
    pub fn contains(&self, c: char) -> (r: bool)
        ensures
            r == self.has(c),
    {
        match self {
            CharSet::WhiteSpace => {
                let code: u32 = c as u32;
                (0x9 <= code && code <= 0xd) || code == 0x20 || code == 0x85 || code == 0xa0
                    || code == 0x1680 || (0x2000 <= code && code <= 0x200a) || code == 0x2028
                    || code == 0x2029 || code == 0x202f || code == 0x205f || code == 0x3000
            },
            CharSet::One(a) => c == *a,
            CharSet::Two(a, b) => c == *a || c == *b,
        }
    }
}

/// `s` without the leading characters that belong to `set`.
pub open spec fn trim_start_spec(s: Seq<char>, set: CharSet) -> Seq<char>
    decreases s.len(),
{
    if s.len() > 0 && set.has(s[0]) {
        trim_start_spec(s.drop_first(), set)
    } else {
        s
    }
}

/// `s` without the trailing characters that belong to `set`.
pub open spec fn trim_end_spec(s: Seq<char>, set: CharSet) -> Seq<char>
    decreases s.len(),
{
    if s.len() > 0 && set.has(s.last()) {
        trim_end_spec(s.drop_last(), set)
    } else {
        s
    }
}

/// `s` without the leading and trailing characters that belong to `set`.
pub open spec fn trim_spec(s: Seq<char>, set: CharSet) -> Seq<char> {
    trim_end_spec(trim_start_spec(s, set), set)
}

/// `s` without leading and trailing white space.
pub open spec fn trimmed(s: Seq<char>) -> Seq<char> {
    trim_spec(s, CharSet::WhiteSpace)
}

/// Members of `set` before a text that does not begin with one are trimmed, and no more.
pub proof fn lemma_trim_start(before: Seq<char>, s: Seq<char>, set: CharSet)
    requires
        forall|i: int| 0 <= i < before.len() ==> set.has(#[trigger] before[i]),
        s.len() > 0 ==> !set.has(s[0]),
    ensures
        trim_start_spec(before + s, set) == s,
    decreases before.len(),
{
    if before.len() == 0 {
        assert(before + s =~= s);
    } else {
        let rest = before.drop_first();
        assert forall|i: int| 0 <= i < rest.len() implies set.has(#[trigger] rest[i]) by {
            assert(rest[i] == before[i + 1]);
        }
        lemma_trim_start(rest, s, set);
        assert(set.has(before[0]));
        assert((before + s).drop_first() =~= rest + s);
    }
}

/// Members of `set` after a text that does not end with one are trimmed, and no more.
pub proof fn lemma_trim_end(s: Seq<char>, after: Seq<char>, set: CharSet)
    requires
        forall|i: int| 0 <= i < after.len() ==> set.has(#[trigger] after[i]),
        s.len() > 0 ==> !set.has(s.last()),
    ensures
        trim_end_spec(s + after, set) == s,
    decreases after.len(),
{
    if after.len() == 0 {
        assert(s + after =~= s);
    } else {
        let rest = after.drop_last();
        assert forall|i: int| 0 <= i < rest.len() implies set.has(#[trigger] rest[i]) by {
            assert(rest[i] == after[i]);
        }
        lemma_trim_end(s, rest, set);
        assert(set.has(after[after.len() - 1]));
        assert((s + after).drop_last() =~= s + rest);
    }
}

/// Removes leading characters that belong to `set`.
pub fn trim_start<'a>(s: &'a [char], set: CharSet) -> (r: &'a [char])
    ensures
        r@ == trim_start_spec(s@, set),
{
    let mut i: usize = 0;
    assert(s@.skip(0) =~= s@);
    while i < s.len() && set.contains(s[i])
        invariant
            i <= s@.len(),
            trim_start_spec(s@, set) == trim_start_spec(s@.skip(i as int), set),
        decreases s@.len() - i,
    {
        assert(s@.skip(i as int).drop_first() =~= s@.skip(i + 1));
        i += 1;
    }
    assert(s@.subrange(i as int, s@.len() as int) =~= s@.skip(i as int));
    slice_subrange(s, i, s.len())
}

/// Removes trailing characters that belong to `set`.
pub fn trim_end<'a>(s: &'a [char], set: CharSet) -> (r: &'a [char])
    ensures
        r@ == trim_end_spec(s@, set),
{
    let mut i: usize = s.len();
    assert(s@.take(s@.len() as int) =~= s@);
    while i > 0 && set.contains(s[i - 1])
        invariant
            i <= s@.len(),
            trim_end_spec(s@, set) == trim_end_spec(s@.take(i as int), set),
        decreases i,
    {
        assert(s@.take(i as int).drop_last() =~= s@.take(i - 1));
        i -= 1;
    }
    assert(s@.subrange(0, i as int) =~= s@.take(i as int));
    slice_subrange(s, 0, i)
}

/// Removes leading and trailing characters that belong to `set`.
pub fn trim<'a>(s: &'a [char], set: CharSet) -> (r: &'a [char])
    ensures
        r@ == trim_spec(s@, set),
{
    trim_end(trim_start(s, set), set)
}

/// Whether `text` holds nothing but white space.
pub fn is_blank(text: &str) -> (r: bool)
    ensures
        r == (trimmed(text@).len() == 0),
{
    let chars = chars_of(text);
    trim(chars.as_slice(), CharSet::WhiteSpace).len() == 0
}

/// `text` without leading and trailing white space.
pub fn trim_text(text: &str) -> (r: String)
    ensures
        r@ == trimmed(text@),
{
    let chars = chars_of(text);
    text_of(trim(chars.as_slice(), CharSet::WhiteSpace))
}

/// What follows `prefix` in `s`, if `s` starts with it.
pub open spec fn strip_prefix_spec(s: Seq<char>, prefix: Seq<char>) -> Option<Seq<char>> {
    if prefix.is_prefix_of(s) {
        Some(s.skip(prefix.len() as int))
    } else {
        None
    }
}

/// Whether `s` starts with `prefix`.
pub fn starts_with(s: &[char], prefix: &[char]) -> (r: bool)
    ensures
        r == prefix@.is_prefix_of(s@),
{
    if prefix.len() > s.len() {
        return false;
    }
    assert(s@.subrange(0, prefix@.len() as int) =~= s@.take(prefix@.len() as int));
    let head = slice_subrange(s, 0, prefix.len());
    let r = same_chars(head, prefix);
    assert(r == prefix@.is_prefix_of(s@)) by {
        if r {
            assert(prefix@ =~= s@.subrange(0, prefix@.len() as int));
        }
    }
    r
}

/// What follows `prefix` in `s`, if `s` starts with it.
pub fn strip_prefix<'a>(s: &'a [char], prefix: &[char]) -> (r: Option<&'a [char]>)
    ensures
        match r {
            Some(rest) => strip_prefix_spec(s@, prefix@) == Some(rest@),
            None => strip_prefix_spec(s@, prefix@) is None,
        },
{
    if starts_with(s, prefix) {
        assert(s@.subrange(prefix@.len() as int, s@.len() as int) =~= s@.skip(
            prefix@.len() as int,
        ));
        Some(slice_subrange(s, prefix.len(), s.len()))
    } else {
        None
    }
}

/// `s` with every leading repetition of `prefix` removed.
pub open spec fn trim_prefixes_spec(s: Seq<char>, prefix: Seq<char>) -> Seq<char>
    decreases s.len(),
{
    if prefix.len() > 0 && prefix.is_prefix_of(s) {
        trim_prefixes_spec(s.skip(prefix.len() as int), prefix)
    } else {
        s
    }
}

/// `s` with every trailing repetition of `suffix` removed.
pub open spec fn trim_suffixes_spec(s: Seq<char>, suffix: Seq<char>) -> Seq<char>
    decreases s.len(),
{
    if suffix.len() > 0 && suffix.is_suffix_of(s) {
        trim_suffixes_spec(s.take(s.len() - suffix.len()), suffix)
    } else {
        s
    }
}

/// Removes every leading repetition of `prefix`.
pub fn trim_prefixes<'a>(s: &'a [char], prefix: &[char]) -> (r: &'a [char])
    ensures
        r@ == trim_prefixes_spec(s@, prefix@),
{
    if prefix.len() == 0 {
        return s;
    }
    let mut rest: &'a [char] = s;
    while starts_with(rest, prefix)
        invariant
            prefix@.len() > 0,
            trim_prefixes_spec(s@, prefix@) == trim_prefixes_spec(rest@, prefix@),
        decreases rest@.len(),
    {
        assert(rest@.subrange(prefix@.len() as int, rest@.len() as int) =~= rest@.skip(
            prefix@.len() as int,
        ));
        rest = slice_subrange(rest, prefix.len(), rest.len());
    }
    rest
}

/// Whether `s` ends with `suffix`.
pub fn ends_with(s: &[char], suffix: &[char]) -> (r: bool)
    ensures
        r == suffix@.is_suffix_of(s@),
{
    if suffix.len() > s.len() {
        return false;
    }
    let tail = slice_subrange(s, s.len() - suffix.len(), s.len());
    same_chars(tail, suffix)
}

/// Removes every trailing repetition of `suffix`.
pub fn trim_suffixes<'a>(s: &'a [char], suffix: &[char]) -> (r: &'a [char])
    ensures
        r@ == trim_suffixes_spec(s@, suffix@),
{
    if suffix.len() == 0 {
        return s;
    }
    let mut rest: &'a [char] = s;
    while ends_with(rest, suffix)
        invariant
            suffix@.len() > 0,
            trim_suffixes_spec(s@, suffix@) == trim_suffixes_spec(rest@, suffix@),
        decreases rest@.len(),
    {
        assert(rest@.subrange(0, rest@.len() - suffix@.len()) =~= rest@.take(
            rest@.len() - suffix@.len(),
        ));
        rest = slice_subrange(rest, 0, rest.len() - suffix.len());
    }
    rest
}

/// The index of the first character of `s` that belongs to `set`.
pub open spec fn index_in(s: Seq<char>, set: CharSet) -> Option<int>
    decreases s.len(),
{
    if s.len() == 0 {
        None
    } else if set.has(s[0]) {
        Some(0)
    } else {
        match index_in(s.drop_first(), set) {
            Some(i) => Some(i + 1),
            None => None,
        }
    }
}

/// What [`index_in`] finds is the least index of a member of `set`.
pub proof fn lemma_index_in(s: Seq<char>, set: CharSet)
    ensures
        match index_in(s, set) {
            Some(i) => 0 <= i < s.len() && set.has(s[i]) && forall|j: int|
                0 <= j < i ==> !set.has(#[trigger] s[j]),
            None => forall|j: int| 0 <= j < s.len() ==> !set.has(#[trigger] s[j]),
        },
    decreases s.len(),
{
    if s.len() > 0 && !set.has(s[0]) {
        let t = s.drop_first();
        lemma_index_in(t, set);
        assert forall|j: int|
            0 <= j < s.len() && (index_in(s, set) matches Some(i) ==> j < i) implies !set.has(
            #[trigger] s[j],
        ) by {
            if j > 0 {
                assert(s[j] == t[j - 1]);
            }
        }
    }
}

/// The least index of a member of `set` is what [`index_in`] finds.
pub proof fn lemma_index_in_is(s: Seq<char>, set: CharSet, i: int)
    requires
        0 <= i < s.len(),
        set.has(s[i]),
        forall|j: int| 0 <= j < i ==> !set.has(#[trigger] s[j]),
    ensures
        index_in(s, set) == Some(i),
{
    lemma_index_in(s, set);
}

/// Finds the first character that belongs to `set`.
pub fn find_in(s: &[char], set: CharSet) -> (r: Option<usize>)
    ensures
        match r {
            Some(i) => index_in(s@, set) == Some(i as int) && i < s@.len(),
            None => index_in(s@, set) is None,
        },
{
    let mut i: usize = 0;
    while i < s.len()
        invariant
            i <= s@.len(),
            forall|j: int| 0 <= j < i ==> !set.has(#[trigger] s@[j]),
        decreases s@.len() - i,
    {
        if set.contains(s[i]) {
            proof {
                lemma_index_in_is(s@, set, i as int);
            }
            return Some(i);
        }
        i += 1;
    }
    proof {
        lemma_index_in(s@, set);
    }
    None
}

/// Whether some character of `s` is `c`.
pub fn has_char(s: &[char], c: char) -> (r: bool)
    ensures
        r == s@.contains(c),
{
    proof {
        lemma_index_in(s@, CharSet::One(c));
    }
    find_in(s, CharSet::One(c)).is_some()
}

/// `s` parted at its first `c`, if it has one: what precedes it and what follows it.
pub open spec fn split_once_spec(s: Seq<char>, c: char) -> Option<(Seq<char>, Seq<char>)> {
    match index_in(s, CharSet::One(c)) {
        Some(i) => Some((s.take(i), s.skip(i + 1))),
        None => None,
    }
}

/// Parts `s` at its first `c`.
pub fn split_once<'a>(s: &'a [char], c: char) -> (r: Option<(&'a [char], &'a [char])>)
    ensures
        match r {
            Some((head, tail)) => split_once_spec(s@, c) == Some((head@, tail@)),
            None => split_once_spec(s@, c) is None,
        },
{
    let end: usize = s.len();
    match find_in(s, CharSet::One(c)) {
        Some(i) => {
            let head = slice_subrange(s, 0, i);
            let tail = slice_subrange(s, i + 1, end);
            assert(head@ =~= s@.take(i as int));
            assert(tail@ =~= s@.skip(i + 1));
            Some((head, tail))
        },
        None => None,
    }
}

/// The character sequences behind a sequence of slices.
pub open spec fn views(parts: Seq<&[char]>) -> Seq<Seq<char>> {
    Seq::new(parts.len(), |i: int| parts[i]@)
}

/// The pieces of `s` between the characters that belong to `set`.
pub open spec fn split_spec(s: Seq<char>, set: CharSet) -> Seq<Seq<char>>
    decreases s.len(),
{
    proof {
        lemma_index_in(s, set);
    }
    match index_in(s, set) {
        Some(i) => seq![s.take(i)] + split_spec(s.skip(i + 1), set),
        None => seq![s],
    }
}

/// No piece holds a character of `set`, and every character of a piece is one of `s`.
pub proof fn lemma_split_pieces(s: Seq<char>, set: CharSet)
    ensures
        split_spec(s, set).len() > 0,
        forall|i: int, j: int|
            0 <= i < split_spec(s, set).len() && 0 <= j < split_spec(s, set)[i].len()
                ==> !set.has(#[trigger] split_spec(s, set)[i][j]) && s.contains(
                split_spec(s, set)[i][j],
            ),
    decreases s.len(),
{
    lemma_index_in(s, set);
    let pieces = split_spec(s, set);
    match index_in(s, set) {
        Some(k) => {
            let rest = s.skip(k + 1);
            lemma_split_pieces(rest, set);
            assert forall|i: int, j: int|
                0 <= i < pieces.len() && 0 <= j < pieces[i].len() implies !set.has(
                #[trigger] pieces[i][j],
            ) && s.contains(pieces[i][j]) by {
                if i == 0 {
                    assert(pieces[0] == s.take(k));
                    assert(pieces[i][j] == s[j]);
                } else {
                    assert(pieces[i] == split_spec(rest, set)[i - 1]);
                    let c = split_spec(rest, set)[i - 1][j];
                    assert(rest.contains(c));
                    let at = choose|at: int| 0 <= at < rest.len() && rest[at] == c;
                    assert(s[at + k + 1] == c);
                }
            }
        },
        None => {
            assert forall|i: int, j: int|
                0 <= i < pieces.len() && 0 <= j < pieces[i].len() implies !set.has(
                #[trigger] pieces[i][j],
            ) && s.contains(pieces[i][j]) by {
                assert(pieces[i][j] == s[j]);
            }
        },
    }
}

/// A text after a separator, if it holds none itself, is one more piece.
pub proof fn lemma_split_push(s: Seq<char>, c: char, t: Seq<char>)
    requires
        !t.contains(c),
    ensures
        split_spec(s + seq![c] + t, CharSet::One(c)) == split_spec(s, CharSet::One(c)).push(t),
    decreases s.len(),
{
    let set = CharSet::One(c);
    let whole = s + seq![c] + t;
    lemma_index_in(s, set);
    match index_in(s, set) {
        Some(k) => {
            assert(whole[k] == s[k]);
            assert forall|j: int| 0 <= j < k implies !set.has(#[trigger] whole[j]) by {
                assert(whole[j] == s[j]);
            }
            lemma_index_in_is(whole, set, k);
            assert(whole.take(k) =~= s.take(k));
            assert(whole.skip(k + 1) =~= s.skip(k + 1) + seq![c] + t);
            lemma_split_push(s.skip(k + 1), c, t);
            assert(split_spec(whole, set) =~= split_spec(s, set).push(t));
        },
        None => {
            let k = s.len() as int;
            assert(whole[k] == c);
            assert forall|j: int| 0 <= j < k implies !set.has(#[trigger] whole[j]) by {
                assert(whole[j] == s[j]);
            }
            lemma_index_in_is(whole, set, k);
            assert(whole.take(k) =~= s);
            assert(whole.skip(k + 1) =~= t);
            lemma_index_in(t, set);
            assert(split_spec(t, set) =~= seq![t]) by {
                if let Some(i) = index_in(t, set) {
                    assert(t.contains(t[i]));
                }
            }
            assert(split_spec(whole, set) =~= split_spec(s, set).push(t));
        },
    }
}

/// No piece is longer than the text.
pub proof fn lemma_split_lengths(s: Seq<char>, set: CharSet)
    ensures
        forall|i: int|
            0 <= i < split_spec(s, set).len() ==> #[trigger] split_spec(s, set)[i].len() <= s.len(),
    decreases s.len(),
{
    lemma_index_in(s, set);
    if let Some(k) = index_in(s, set) {
        let rest = s.skip(k + 1);
        lemma_split_lengths(rest, set);
        assert forall|i: int| 0 <= i < split_spec(s, set).len() implies #[trigger] split_spec(
            s,
            set,
        )[i].len() <= s.len() by {
            if i > 0 {
                assert(split_spec(s, set)[i] == split_spec(rest, set)[i - 1]);
            }
        }
    }
}

/// Splits `s` at every character that belongs to `set`.
pub fn split<'a>(s: &'a [char], set: CharSet) -> (parts: Vec<&'a [char]>)
    ensures
        views(parts@) == split_spec(s@, set),
{
    let mut parts: Vec<&'a [char]> = Vec::new();
    let mut rest: &'a [char] = s;
    assert(views(parts@) + split_spec(rest@, set) =~= split_spec(s@, set));
    loop
        invariant
            views(parts@) + split_spec(rest@, set) == split_spec(s@, set),
        decreases rest@.len(),
    {
        let end: usize = rest.len();
        match find_in(rest, set) {
            Some(i) => {
                let head = slice_subrange(rest, 0, i);
                let tail = slice_subrange(rest, i + 1, end);
                let ghost before = views(parts@);
                assert(head@ =~= rest@.take(i as int));
                assert(tail@ =~= rest@.skip(i + 1));
                parts.push(head);
                assert(views(parts@) =~= before.push(head@));
                assert(views(parts@) + split_spec(tail@, set) =~= before + split_spec(rest@, set));
                rest = tail;
            },
            None => {
                let ghost before = views(parts@);
                parts.push(rest);
                assert(views(parts@) =~= before + split_spec(rest@, set));
                return parts;
            },
        }
    }
}

/// The test that a sequence holds something.
pub open spec fn non_empty() -> spec_fn(Seq<char>) -> bool {
    |part: Seq<char>| part.len() > 0
}

/// The parts that hold something, in order.
pub fn keep_non_empty<'a>(parts: &Vec<&'a [char]>) -> (kept: Vec<&'a [char]>)
    ensures
        views(kept@) == views(parts@).filter(non_empty()),
{
    let mut kept: Vec<&'a [char]> = Vec::new();
    let mut i: usize = 0;
    assert(views(parts@).take(0).filter(non_empty()) =~= Seq::<Seq<char>>::empty()) by {
        reveal(Seq::filter);
    }
    while i < parts.len()
        invariant
            i <= parts@.len(),
            views(kept@) == views(parts@).take(i as int).filter(non_empty()),
        decreases parts@.len() - i,
    {
        let part = parts[i];
        let ghost before = views(kept@);
        proof {
            reveal(Seq::filter);
            let all = views(parts@);
            assert(all.take(i + 1).drop_last() =~= all.take(i as int));
            assert(all.take(i + 1).last() == part@);
        }
        if part.len() > 0 {
            kept.push(part);
            assert(views(kept@) =~= before.push(part@));
        }
        i += 1;
    }
    assert(views(parts@).take(i as int) =~= views(parts@));
    kept
}

/// The maximal runs of characters that are not white space.
pub open spec fn words_spec(s: Seq<char>) -> Seq<Seq<char>> {
    split_spec(s, CharSet::WhiteSpace).filter(non_empty())
}

/// Splits `s` at white space.
pub fn words<'a>(s: &'a [char]) -> (r: Vec<&'a [char]>)
    ensures
        views(r@) == words_spec(s@),
{
    let parts = split(s, CharSet::WhiteSpace);
    keep_non_empty(&parts)
}

/// What the parts give with a separator between them.
pub open spec fn joined(parts: Seq<Seq<char>>, separator: Seq<char>) -> Seq<char>
    decreases parts.len(),
{
    if parts.len() == 0 {
        seq![]
    } else if parts.len() == 1 {
        parts[0]
    } else {
        joined(parts.drop_last(), separator) + separator + parts.last()
    }
}

/// Parts that do not hold the separator are what their union is split into.
pub proof fn lemma_split_joined(parts: Seq<Seq<char>>, c: char)
    requires
        parts.len() > 0,
        forall|i: int| 0 <= i < parts.len() ==> !(#[trigger] parts[i]).contains(c),
    ensures
        split_spec(joined(parts, seq![c]), CharSet::One(c)) == parts,
    decreases parts.len(),
{
    let set = CharSet::One(c);
    let whole = joined(parts, seq![c]);
    let last = parts[parts.len() - 1];
    assert(!last.contains(c));
    if parts.len() == 1 {
        lemma_index_in(whole, set);
        if let Some(i) = index_in(whole, set) {
            assert(last.contains(last[i]));
        }
        assert(split_spec(whole, set) =~= parts);
    } else {
        let rest = parts.drop_last();
        assert forall|i: int| 0 <= i < rest.len() implies !(#[trigger] rest[i]).contains(c) by {
            assert(rest[i] == parts[i]);
        }
        lemma_split_joined(rest, c);
        lemma_split_push(joined(rest, seq![c]), c, last);
        assert(split_spec(whole, set) =~= parts);
    }
}

/// What is split gives the text back with the separator between its pieces.
pub proof fn lemma_joined_split(s: Seq<char>, c: char)
    ensures
        joined(split_spec(s, CharSet::One(c)), seq![c]) == s,
    decreases s.len(),
{
    let set = CharSet::One(c);
    lemma_index_in(s, set);
    if let Some(i) = index_in(s, set) {
        let rest = s.skip(i + 1);
        lemma_joined_split(rest, c);
        lemma_split_pieces(rest, set);
        lemma_joined_concat(seq![s.take(i)], split_spec(rest, set), seq![c]);
        assert(s =~= s.take(i) + seq![c] + rest);
    }
}

/// Parts after parts are joined by one more separator.
pub proof fn lemma_joined_concat(a: Seq<Seq<char>>, b: Seq<Seq<char>>, separator: Seq<char>)
    requires
        a.len() > 0,
        b.len() > 0,
    ensures
        joined(a + b, separator) == joined(a, separator) + separator + joined(b, separator),
    decreases b.len(),
{
    let all = a + b;
    assert(all.last() == b.last());
    assert(all.drop_last() =~= a + b.drop_last());
    if b.len() == 1 {
        assert(a + b.drop_last() =~= a);
    } else {
        lemma_joined_concat(a, b.drop_last(), separator);
        assert(joined(all, separator) =~= joined(a, separator) + separator + joined(b, separator));
    }
}

/// Puts a separator between the parts.
pub fn join_parts(parts: &Vec<&[char]>, separator: char) -> (r: Vec<char>)
    ensures
        r@ == joined(views(parts@), seq![separator]),
{
    let mut r: Vec<char> = Vec::new();
    let mut i: usize = 0;
    while i < parts.len()
        invariant
            i <= parts@.len(),
            r@ == joined(views(parts@).take(i as int), seq![separator]),
        decreases parts@.len() - i,
    {
        let part = parts[i];
        let ghost before = r@;
        proof {
            let all = views(parts@);
            assert(all.take(i + 1).drop_last() =~= all.take(i as int));
            assert(all.take(i + 1).last() == part@);
        }
        if i > 0 {
            r.push(separator);
        }
        append_chars(&mut r, part);
        proof {
            if i == 0 {
                assert(r@ =~= part@);
            } else {
                assert(r@ =~= before + seq![separator] + part@);
            }
        }
        i += 1;
    }
    assert(views(parts@).take(i as int) =~= views(parts@));
    r
}

/// `line` without one carriage return at its end.
pub open spec fn without_return(line: Seq<char>) -> Seq<char> {
    if line.len() > 0 && line.last() == '\r' {
        line.drop_last()
    } else {
        line
    }
}

/// The lines of `s`: each ends with a line feed, or a carriage return and a line
/// feed, which are left out; at the end of the text the line feed may be missing.
pub open spec fn lines_spec(s: Seq<char>) -> Seq<Seq<char>>
    decreases s.len(),
{
    proof {
        lemma_index_in(s, CharSet::One('\n'));
    }
    if s.len() == 0 {
        seq![]
    } else {
        match index_in(s, CharSet::One('\n')) {
            Some(i) => seq![without_return(s.take(i))] + lines_spec(s.skip(i + 1)),
            None => seq![s],
        }
    }
}

/// Splits `s` into lines.
pub fn lines<'a>(s: &'a [char]) -> (r: Vec<&'a [char]>)
    ensures
        views(r@) == lines_spec(s@),
{
    let mut out: Vec<&'a [char]> = Vec::new();
    let mut rest: &'a [char] = s;
    assert(views(out@) + lines_spec(rest@) =~= lines_spec(s@));
    while rest.len() > 0
        invariant
            views(out@) + lines_spec(rest@) == lines_spec(s@),
        decreases rest@.len(),
    {
        let ghost before = views(out@);
        match find_in(rest, CharSet::One('\n')) {
            Some(i) => {
                let head = slice_subrange(rest, 0, i);
                let tail = slice_subrange(rest, i + 1, rest.len());
                assert(head@ =~= rest@.take(i as int));
                assert(tail@ =~= rest@.skip(i + 1));
                let line = if i > 0 && head[i - 1] == '\r' {
                    slice_subrange(head, 0, i - 1)
                } else {
                    head
                };
                assert(line@ =~= without_return(rest@.take(i as int)));
                out.push(line);
                assert(views(out@) =~= before.push(line@));
                assert(views(out@) + lines_spec(tail@) =~= before + lines_spec(rest@));
                rest = tail;
            },
            None => {
                out.push(rest);
                let end = slice_subrange(rest, rest.len(), rest.len());
                assert(views(out@) =~= before.push(rest@));
                assert(views(out@) + lines_spec(end@) =~= before + lines_spec(rest@));
                rest = end;
            },
        }
    }
    assert(views(out@) + lines_spec(rest@) =~= views(out@));
    out
}

/// Whether `pattern` stands in `s` at index `i`.
pub open spec fn occurs_at(s: Seq<char>, pattern: Seq<char>, i: int) -> bool {
    0 <= i && i + pattern.len() <= s.len() && s.subrange(i, i + pattern.len()) == pattern
}

/// The least index at which `pattern` stands in `s`.
pub open spec fn find_spec(s: Seq<char>, pattern: Seq<char>) -> Option<int>
    decreases s.len(),
{
    if pattern.is_prefix_of(s) {
        Some(0)
    } else if s.len() == 0 {
        None
    } else {
        match find_spec(s.drop_first(), pattern) {
            Some(i) => Some(i + 1),
            None => None,
        }
    }
}

/// What [`find_spec`] finds is the first place where the pattern stands.
pub proof fn lemma_find(s: Seq<char>, pattern: Seq<char>)
    ensures
        match find_spec(s, pattern) {
            Some(i) => occurs_at(s, pattern, i) && forall|j: int|
                0 <= j < i ==> !#[trigger] occurs_at(s, pattern, j),
            None => forall|j: int| !#[trigger] occurs_at(s, pattern, j),
        },
    decreases s.len(),
{
    if pattern.is_prefix_of(s) {
        assert(s.subrange(0, pattern.len() as int) =~= pattern);
    } else if s.len() > 0 {
        let t = s.drop_first();
        lemma_find(t, pattern);
        assert forall|j: int| #[trigger] occurs_at(s, pattern, j) implies j > 0 && occurs_at(
            t,
            pattern,
            j - 1,
        ) by {
            if j == 0 {
                assert(s.subrange(0, pattern.len() as int) == pattern);
                assert(pattern.is_prefix_of(s));
            } else {
                assert(t.subrange(j - 1, j - 1 + pattern.len()) =~= s.subrange(
                    j,
                    j + pattern.len(),
                ));
            }
        }
        if let Some(i) = find_spec(t, pattern) {
            assert(s.subrange(i + 1, i + 1 + pattern.len()) =~= t.subrange(i, i + pattern.len()));
        }
    } else {
        assert forall|j: int| !#[trigger] occurs_at(s, pattern, j) by {
            if occurs_at(s, pattern, j) {
                assert(pattern =~= s.subrange(0, pattern.len() as int));
            }
        }
    }
}

/// Finds the first place where `pattern` stands in `s`.
pub fn find(s: &[char], pattern: &[char]) -> (r: Option<usize>)
    ensures
        match r {
            Some(i) => find_spec(s@, pattern@) == Some(i as int) && i + pattern@.len() <= s@.len(),
            None => find_spec(s@, pattern@) is None,
        },
{
    proof {
        lemma_find(s@, pattern@);
    }
    if pattern.len() > s.len() {
        return None;
    }
    let last: usize = s.len() - pattern.len();
    let mut i: usize = 0;
    loop
        invariant
            last == s@.len() - pattern@.len(),
            s@.len() <= usize::MAX,
            i <= last,
            forall|j: int| 0 <= j < i ==> !#[trigger] occurs_at(s@, pattern@, j),
            match find_spec(s@, pattern@) {
                Some(i) => occurs_at(s@, pattern@, i) && forall|j: int|
                    0 <= j < i ==> !#[trigger] occurs_at(s@, pattern@, j),
                None => forall|j: int| !#[trigger] occurs_at(s@, pattern@, j),
            },
        decreases last - i,
    {
        let here = slice_subrange(s, i, i + pattern.len());
        if same_chars(here, pattern) {
            assert(occurs_at(s@, pattern@, i as int));
            return Some(i);
        }
        assert(!occurs_at(s@, pattern@, i as int));
        if i == last {
            return None;
        }
        i += 1;
    }
}

/// Whether `pattern` stands somewhere in `s`.
pub open spec fn contains_spec(s: Seq<char>, pattern: Seq<char>) -> bool {
    exists|i: int| occurs_at(s, pattern, i)
}

/// Whether `pattern` stands somewhere in `s`.
pub fn contains(s: &[char], pattern: &[char]) -> (r: bool)
    ensures
        r == contains_spec(s@, pattern@),
{
    proof {
        lemma_find(s@, pattern@);
    }
    find(s, pattern).is_some()
}

/// How often `pattern` stands in `s`, counting from the left without overlap. The
/// empty pattern stands before every character and at the end.
pub open spec fn count_spec(s: Seq<char>, pattern: Seq<char>) -> nat
    decreases s.len(),
{
    proof {
        lemma_find(s, pattern);
    }
    if pattern.len() == 0 {
        s.len() + 1
    } else {
        match find_spec(s, pattern) {
            Some(i) => 1 + count_spec(s.skip(i + pattern.len()), pattern),
            None => 0,
        }
    }
}

/// Counts the places where `pattern` stands in `s`, from the left without overlap.
pub fn count(s: &[char], pattern: &[char]) -> (n: u128)
    ensures
        n == count_spec(s@, pattern@),
        n <= s@.len() + 1,
{
    let length: usize = s.len();
    if pattern.len() == 0 {
        return length as u128 + 1;
    }
    let mut n: u128 = 0;
    let mut rest: &[char] = s;
    loop
        invariant
            pattern@.len() > 0,
            length == s@.len(),
            n + rest@.len() <= length,
            n + count_spec(rest@, pattern@) == count_spec(s@, pattern@),
        decreases rest@.len(),
    {
        let end: usize = rest.len();
        match find(rest, pattern) {
            Some(i) => {
                let tail = slice_subrange(rest, i + pattern.len(), end);
                assert(tail@ =~= rest@.skip(i + pattern@.len()));
                rest = tail;
                n += 1;
            },
            None => {
                return n;
            },
        }
    }
}

/// `s` with every `pattern` replaced by `by`, from the left without overlap.
pub open spec fn replace_spec(s: Seq<char>, pattern: Seq<char>, by: Seq<char>) -> Seq<char>
    recommends
        pattern.len() > 0,
    decreases s.len(),
{
    proof {
        lemma_find(s, pattern);
    }
    if pattern.len() == 0 {
        s
    } else {
        match find_spec(s, pattern) {
            Some(i) => s.take(i) + by + replace_spec(s.skip(i + pattern.len()), pattern, by),
            None => s,
        }
    }
}

/// Appends `more` to `out`.
pub fn append_chars(out: &mut Vec<char>, more: &[char])
    ensures
        final(out)@ == old(out)@ + more@,
{
    let ghost before = out@;
    let mut i: usize = 0;
    while i < more.len()
        invariant
            i <= more@.len(),
            out@ == before + more@.take(i as int),
        decreases more@.len() - i,
    {
        out.push(more[i]);
        assert(more@.take(i + 1) =~= more@.take(i as int).push(more@[i as int]));
        i += 1;
    }
    assert(more@.take(i as int) =~= more@);
}

/// Replaces every `pattern` in `s` by `by`.
pub fn replace(s: &[char], pattern: &[char], by: &[char]) -> (r: Vec<char>)
    requires
        pattern@.len() > 0,
    ensures
        r@ == replace_spec(s@, pattern@, by@),
{
    let mut out: Vec<char> = Vec::new();
    let mut rest: &[char] = s;
    assert(out@ + replace_spec(rest@, pattern@, by@) =~= replace_spec(s@, pattern@, by@));
    loop
        invariant
            pattern@.len() > 0,
            out@ + replace_spec(rest@, pattern@, by@) == replace_spec(s@, pattern@, by@),
        decreases rest@.len(),
    {
        let end: usize = rest.len();
        let ghost before = out@;
        match find(rest, pattern) {
            Some(i) => {
                let head = slice_subrange(rest, 0, i);
                let tail = slice_subrange(rest, i + pattern.len(), end);
                assert(head@ =~= rest@.take(i as int));
                assert(tail@ =~= rest@.skip(i + pattern@.len()));
                append_chars(&mut out, head);
                append_chars(&mut out, by);
                assert(out@ + replace_spec(tail@, pattern@, by@) =~= before + replace_spec(
                    rest@,
                    pattern@,
                    by@,
                ));
                rest = tail;
            },
            None => {
                append_chars(&mut out, rest);
                return out;
            },
        }
    }
}

/// `s` with the character `from` replaced by `to`.
pub open spec fn replace_char_spec(s: Seq<char>, from: char, to: char) -> Seq<char> {
    Seq::new(
        s.len(),
        |i: int|
            if s[i] == from {
                to
            } else {
                s[i]
            },
    )
}

/// Replaces the character `from` by `to`.
pub fn replace_char(s: &[char], from: char, to: char) -> (r: Vec<char>)
    ensures
        r@ == replace_char_spec(s@, from, to),
{
    let mut out: Vec<char> = Vec::new();
    let mut i: usize = 0;
    while i < s.len()
        invariant
            i <= s@.len(),
            out@ == replace_char_spec(s@, from, to).take(i as int),
        decreases s@.len() - i,
    {
        let c = s[i];
        out.push(
            if c == from {
                to
            } else {
                c
            },
        );
        assert(out@ =~= replace_char_spec(s@, from, to).take(i + 1));
        i += 1;
    }
    assert(out@ =~= replace_char_spec(s@, from, to));
    out
}

/// `c` in lower case, if it is an ASCII letter.
pub open spec fn lower_char(c: char) -> char {
    if 'A' <= c <= 'Z' {
        ((c as u32 + 32) as u32) as char
    } else {
        c
    }
}

/// `s` with its ASCII letters in lower case.
pub open spec fn lower_ascii_spec(s: Seq<char>) -> Seq<char> {
    Seq::new(s.len(), |i: int| lower_char(s[i]))
}

/// Puts the ASCII letters of `s` in lower case.
pub fn lower_ascii(s: &[char]) -> (r: Vec<char>)
    ensures
        r@ == lower_ascii_spec(s@),
{
    let mut out: Vec<char> = Vec::new();
    let mut i: usize = 0;
    while i < s.len()
        invariant
            i <= s@.len(),
            out@ == lower_ascii_spec(s@).take(i as int),
        decreases s@.len() - i,
    {
        let c = s[i];
        let low = if 'A' <= c && c <= 'Z' {
            (c as u8 + 32) as char
        } else {
            c
        };
        assert(low == lower_char(c));
        out.push(low);
        assert(out@ =~= lower_ascii_spec(s@).take(i + 1));
        i += 1;
    }
    assert(out@ =~= lower_ascii_spec(s@));
    out
}

/// Whether two texts are equal when the case of ASCII letters is ignored.
pub open spec fn same_ignoring_case(a: Seq<char>, b: Seq<char>) -> bool {
    lower_ascii_spec(a) == lower_ascii_spec(b)
}

/// Decides [`same_ignoring_case`].
pub fn eq_ignore_ascii_case(a: &[char], b: &[char]) -> (r: bool)
    ensures
        r == same_ignoring_case(a@, b@),
{
    let left = lower_ascii(a);
    let right = lower_ascii(b);
    same_chars(left.as_slice(), right.as_slice())
}

/// A text in lower case, as `str::to_lowercase` of the standard library makes it.
pub uninterp spec fn lowercase(s: Seq<char>) -> Seq<char>;

/// `str::to_lowercase` of the standard library: the lower case depends on the text alone, by
/// the tables of Unicode.
#[verifier::external_body]
pub(crate) fn to_lower(text: &str) -> (r: String)
    ensures
        r@ == lowercase(text@),
{
    text.to_lowercase()
}

/// The first `n` characters, or all if there are fewer.
pub open spec fn head(s: Seq<char>, n: int) -> Seq<char> {
    if s.len() <= n {
        s
    } else {
        s.take(n)
    }
}

/// The first `n` characters, or all if there are fewer.
pub fn take_chars<'a>(s: &'a [char], n: usize) -> (r: &'a [char])
    ensures
        r@ == head(s@, n as int),
{
    if s.len() <= n {
        s
    } else {
        let r = slice_subrange(s, 0, n);
        assert(r@ =~= s@.take(n as int));
        r
    }
}

/// Whether `pattern` stands in `s` at the place `i` is seen character by character.
pub proof fn law_occurs_by_characters(s: Seq<char>, pattern: Seq<char>, i: int)
    ensures
        occurs_at(s, pattern, i) <==> 0 <= i && i + pattern.len() <= s.len() && forall|j: int|
            0 <= j < pattern.len() ==> s[i + j] == #[trigger] pattern[j],
        contains_spec(s, pattern) <==> exists|k: int| #[trigger] occurs_at(s, pattern, k),
{
    if 0 <= i && i + pattern.len() <= s.len() {
        let part = s.subrange(i, i + pattern.len());
        if forall|j: int| 0 <= j < pattern.len() ==> s[i + j] == #[trigger] pattern[j] {
            assert(part =~= pattern);
        }
        if part == pattern {
            assert forall|j: int| 0 <= j < pattern.len() implies
                s[i + j] == #[trigger] pattern[j] by {
                assert(part[j] == pattern[j]);
            }
        }
    }
}

/// A text is counted once for its first place and then in what follows that place; one that
/// stands nowhere is counted not at all.
pub proof fn law_count_goes_from_place_to_place(s: Seq<char>, pattern: Seq<char>, i: int)
    requires
        pattern.len() > 0,
    ensures
        occurs_at(s, pattern, i) && (forall|j: int| 0 <= j < i ==> !#[trigger] occurs_at(
            s,
            pattern,
            j,
        )) ==> count_spec(s, pattern) == 1 + count_spec(s.skip(i + pattern.len()), pattern),
        (forall|j: int| !#[trigger] occurs_at(s, pattern, j)) ==> count_spec(s, pattern) == 0,
        count_spec(s, pattern) > 0 <==> contains_spec(s, pattern),
{
    lemma_find(s, pattern);
}

/// Words are parted at white space, and only there: a text without it is one word, unless it is
/// empty, and what stands on the two sides of it are the words of the whole.
pub proof fn law_words_are_parted_at_white_space(a: Seq<char>, c: char, b: Seq<char>)
    requires
        c == ' ' || c == '\t' || c == '\n' || c == '\r' || c as u32 == 0xa0 || c as u32 == 0x3000,
    ensures
        words_spec(a + seq![c] + b) == words_spec(a) + words_spec(b),
        (forall|i: int|
            0 <= i < a.len() ==> !white_space(#[trigger] a[i])) ==> words_spec(a)
            == if a.len() == 0 {
            Seq::<Seq<char>>::empty()
        } else {
            seq![a]
        },
{
    let set = CharSet::WhiteSpace;
    lemma_split_concat(a, c, b);
    Seq::filter_distributes_over_add(split_spec(a, set), split_spec(b, set), non_empty());
    if forall|i: int| 0 <= i < a.len() ==> !white_space(#[trigger] a[i]) {
        lemma_index_in(a, set);
        let one = seq![a];
        assert(split_spec(a, set) =~= one);
        reveal(Seq::filter);
        assert(one.drop_last() =~= Seq::<Seq<char>>::empty());
        assert(one.drop_last().filter(non_empty()) =~= Seq::<Seq<char>>::empty());
        if a.len() > 0 {
            assert(one.filter(non_empty()) =~= seq![a]);
        } else {
            assert(one.filter(non_empty()) =~= Seq::<Seq<char>>::empty());
        }
    }
}

/// The pieces of a text with white space in it are those before it and those after it.
proof fn lemma_split_concat(a: Seq<char>, c: char, b: Seq<char>)
    requires
        white_space(c),
    ensures
        split_spec(a + seq![c] + b, CharSet::WhiteSpace) == split_spec(a, CharSet::WhiteSpace)
            + split_spec(b, CharSet::WhiteSpace),
    decreases a.len(),
{
    let set = CharSet::WhiteSpace;
    let whole = a + seq![c] + b;
    lemma_index_in(a, set);
    match index_in(a, set) {
        Some(k) => {
            assert(whole[k] == a[k]);
            assert forall|j: int| 0 <= j < k implies !set.has(#[trigger] whole[j]) by {
                assert(whole[j] == a[j]);
            }
            lemma_index_in_is(whole, set, k);
            assert(whole.take(k) =~= a.take(k));
            assert(whole.skip(k + 1) =~= a.skip(k + 1) + seq![c] + b);
            lemma_split_concat(a.skip(k + 1), c, b);
            assert(split_spec(whole, set) =~= split_spec(a, set) + split_spec(b, set));
        },
        None => {
            let k = a.len() as int;
            assert(whole[k] == c);
            assert forall|j: int| 0 <= j < k implies !set.has(#[trigger] whole[j]) by {
                assert(whole[j] == a[j]);
            }
            lemma_index_in_is(whole, set, k);
            assert(whole.take(k) =~= a);
            assert(whole.skip(k + 1) =~= b);
            assert(split_spec(whole, set) =~= split_spec(a, set) + split_spec(b, set));
        },
    }
}

/// A text that is trimmed loses white space at its ends, all of it and nothing else.
pub proof fn law_trimming_takes_white_space_alone(
    before: Seq<char>,
    s: Seq<char>,
    after: Seq<char>,
)
    requires
        forall|i: int| 0 <= i < before.len() ==> white_space(#[trigger] before[i]),
        forall|i: int| 0 <= i < after.len() ==> white_space(#[trigger] after[i]),
        s.len() > 0 ==> !white_space(s[0]) && !white_space(s.last()),
    ensures
        trimmed(before + s + after) == s,
{
    let set = CharSet::WhiteSpace;
    if s.len() == 0 {
        let all = before + after;
        assert(before + s + after =~= all + s);
        assert forall|i: int| 0 <= i < all.len() implies set.has(#[trigger] all[i]) by {
            if i < before.len() {
                assert(all[i] == before[i]);
            } else {
                assert(all[i] == after[i - before.len()]);
            }
        }
        lemma_trim_start(all, s, set);
    } else {
        assert(before + s + after =~= before + (s + after));
        lemma_trim_start(before, s + after, set);
        lemma_trim_end(s, after, set);
    }
}

/// White space is the space, the tabulator and the ends of lines, among the characters of the
/// ASCII range.
pub proof fn law_white_space_of_the_ascii_range(c: char)
    requires
        (c as u32) < 128,
    ensures
        white_space(c) <==> c == ' ' || 9 <= c as u32 <= 13,
{
}

/// A line ends at the first line feed, without the carriage return before it; the rest follows.
pub proof fn law_lines_end_at_line_feeds(line: Seq<char>, rest: Seq<char>)
    requires
        !line.contains('\n'),
    ensures
        lines_spec(line + seq!['\n'] + rest) == seq![
            if line.len() > 0 && line.last() == '\r' {
                line.drop_last()
            } else {
                line
            },
        ] + lines_spec(rest),
        lines_spec(line) == if line.len() == 0 {
            Seq::<Seq<char>>::empty()
        } else {
            seq![line]
        },
{
    let set = CharSet::One('\n');
    let whole = line + seq!['\n'] + rest;
    let n = line.len() as int;
    assert(whole[n] == '\n');
    assert forall|j: int| 0 <= j < n implies !set.has(#[trigger] whole[j]) by {
        assert(whole[j] == line[j]);
        assert(line.contains(line[j]));
    }
    lemma_index_in_is(whole, set, n);
    assert(whole.take(n) =~= line);
    assert(whole.skip(n + 1) =~= rest);
    lemma_index_in(line, set);
    if let Some(i) = index_in(line, set) {
        assert(line.contains(line[i]));
    }
    assert(lines_spec(line) =~= if line.len() == 0 {
        Seq::<Seq<char>>::empty()
    } else {
        seq![line]
    });
}

/// Two texts that are equal in any case have the same characters, but for ASCII letters that
/// differ in their case.
pub proof fn law_case_alone_is_ignored(a: Seq<char>, b: Seq<char>)
    ensures
        same_ignoring_case(a, b) <==> a.len() == b.len() && forall|i: int|
            0 <= i < a.len() ==> same_letter(#[trigger] a[i], b[i]),
{
    let low = lower_ascii_spec(a);
    let other = lower_ascii_spec(b);
    assert(a.len() == low.len() && b.len() == other.len());
    if a.len() == b.len() && forall|i: int|
        0 <= i < a.len() ==> same_letter(#[trigger] a[i], b[i]) {
        assert forall|i: int| 0 <= i < a.len() implies low[i] == other[i] by {
            assert(same_letter(a[i], b[i]));
        }
        assert(low =~= other);
    }
    if low == other {
        assert forall|i: int| 0 <= i < a.len() implies same_letter(#[trigger] a[i], b[i]) by {
            assert(low[i] == lower_char(a[i]) && other[i] == lower_char(b[i]));
        }
    }
}

/// Whether two characters are the same, or the same ASCII letter in different cases.
pub open spec fn same_letter(a: char, b: char) -> bool {
    ||| a == b
    ||| 'A' <= a <= 'Z' && b as u32 == a as u32 + 32
    ||| 'A' <= b <= 'Z' && a as u32 == b as u32 + 32
}

/// A text is blank exactly if it holds nothing but white space.
pub proof fn law_blank_text_is_white_space(s: Seq<char>)
    ensures
        trimmed(s).len() == 0 <==> forall|i: int| 0 <= i < s.len() ==> white_space(#[trigger] s[i]),
    decreases s.len(),
{
    let set = CharSet::WhiteSpace;
    if s.len() > 0 && white_space(s[0]) {
        let rest = s.drop_first();
        law_blank_text_is_white_space(rest);
        if forall|i: int| 0 <= i < s.len() ==> white_space(#[trigger] s[i]) {
            assert forall|i: int| 0 <= i < rest.len() implies white_space(#[trigger] rest[i]) by {
                assert(rest[i] == s[i + 1]);
            }
        }
        if forall|i: int| 0 <= i < rest.len() ==> white_space(#[trigger] rest[i]) {
            assert forall|i: int| 0 <= i < s.len() implies white_space(#[trigger] s[i]) by {
                if i > 0 {
                    assert(rest[i - 1] == s[i]);
                }
            }
        }
    } else if s.len() > 0 {
        lemma_trim_end_keeps_start(s, set);
    }
}

/// Trimming at the end keeps a beginning that is not trimmed.
proof fn lemma_trim_end_keeps_start(s: Seq<char>, set: CharSet)
    requires
        s.len() > 0,
        !set.has(s[0]),
    ensures
        trim_end_spec(s, set).len() > 0,
    decreases s.len(),
{
    if set.has(s.last()) {
        assert(s.len() > 1);
        lemma_trim_end_keeps_start(s.drop_last(), set);
    }
}

/// Prefixes and suffixes are taken away as often as they stand there.
pub proof fn law_repetitions_are_taken_away(s: Seq<char>, affix: Seq<char>)
    requires
        affix.len() > 0,
    ensures
        trim_suffixes_spec(s + affix, affix) == trim_suffixes_spec(s, affix),
        !affix.is_suffix_of(s) ==> trim_suffixes_spec(s, affix) == s,
        trim_prefixes_spec(affix + s, affix) == trim_prefixes_spec(s, affix),
        !affix.is_prefix_of(s) ==> trim_prefixes_spec(s, affix) == s,
{
    let n = affix.len() as int;
    assert(affix.is_suffix_of(s + affix));
    assert((s + affix).take((s + affix).len() - n) =~= s);
    assert(affix.is_prefix_of(affix + s));
    assert((affix + s).skip(n) =~= s);
}

/// A text is parted at the first of the characters, and one without it is not parted.
pub proof fn law_text_is_parted_once(a: Seq<char>, c: char, b: Seq<char>)
    requires
        !a.contains(c),
    ensures
        split_once_spec(a + seq![c] + b, c) == Some((a, b)),
        split_once_spec(a, c) is None,
        split_spec(a, CharSet::One(c)) == seq![a],
        split_spec(a + seq![c] + b, CharSet::One(c)) == seq![a] + split_spec(b, CharSet::One(c)),
{
    let set = CharSet::One(c);
    let whole = a + seq![c] + b;
    let n = a.len() as int;
    assert(whole[n] == c);
    assert forall|j: int| 0 <= j < n implies !set.has(#[trigger] whole[j]) by {
        assert(whole[j] == a[j]);
        assert(a.contains(a[j]));
    }
    lemma_index_in_is(whole, set, n);
    assert(whole.take(n) =~= a);
    assert(whole.skip(n + 1) =~= b);
    lemma_index_in(a, set);
    if let Some(i) = index_in(a, set) {
        assert(a.contains(a[i]));
    }
}

/// A prefix is taken away where it stands, and nothing is found where it does not.
pub proof fn law_prefix_is_taken_away(prefix: Seq<char>, rest: Seq<char>, other: Seq<char>)
    ensures
        strip_prefix_spec(prefix + rest, prefix) == Some(rest),
        strip_prefix_spec(other, prefix) matches Some(left) ==> other == prefix + left,
{
    assert((prefix + rest).skip(prefix.len() as int) =~= rest);
    assert(prefix.is_prefix_of(prefix + rest)) by {
        assert((prefix + rest).subrange(0, prefix.len() as int) =~= prefix);
    }
    if let Some(left) = strip_prefix_spec(other, prefix) {
        assert(other =~= prefix + left);
    }
}

/// The beginning of a text is all of it, or as many characters as there may be.
pub proof fn law_head_is_the_beginning(s: Seq<char>, n: int)
    requires
        n >= 0,
    ensures
        head(s, n).len() == if s.len() <= n {
            s.len() as int
        } else {
            n
        },
        forall|i: int| 0 <= i < head(s, n).len() ==> #[trigger] head(s, n)[i] == s[i],
{
}

/// One character stands for another, and all the others stay.
pub proof fn law_character_is_replaced(s: Seq<char>, from: char, to: char)
    ensures
        replace_char_spec(s, from, to).len() == s.len(),
        forall|i: int|
            0 <= i < s.len() ==> #[trigger] replace_char_spec(s, from, to)[i] == if s[i] == from {
                to
            } else {
                s[i]
            },
{
}

/// Parts are joined in order, with the separator between two of them and nowhere else.
pub proof fn law_parts_are_joined(parts: Seq<Seq<char>>, part: Seq<char>, separator: Seq<char>)
    ensures
        joined(seq![], separator) == Seq::<char>::empty(),
        joined(seq![part], separator) == part,
        parts.len() > 0 ==> joined(parts.push(part), separator) == joined(parts, separator)
            + separator + part,
{
    assert(parts.push(part).drop_last() =~= parts);
}

/// The characters beyond the ASCII range that are white space.
pub proof fn law_white_space_beyond_the_ascii_range(c: char)
    requires
        c as u32 >= 128,
    ensures
        white_space(c) <==> {
            ||| c == '\u{85}' || c == '\u{a0}' || c == '\u{1680}' || c == '\u{3000}'
            ||| '\u{2000}' <= c <= '\u{200a}'
            ||| c == '\u{2028}' || c == '\u{2029}' || c == '\u{202f}' || c == '\u{205f}'
        },
{
}

/// Letters and digits are those of the ASCII range, and a letter in upper case is put in lower
/// case by the distance of the two rows.
pub proof fn law_letters_and_digits(c: char)
    ensures
        ascii_alphanumeric(c) <==> 48 <= c as int <= 57 || 65 <= c as int <= 90 || 97 <= c as int
            <= 122,
        65 <= c as int <= 90 ==> lower_char(c) as int == c as int + 32,
        !(65 <= c as int <= 90) ==> lower_char(c) == c,
{
}

/// A pattern is found where it stands first, and not at all in a text in which it does not stand.
pub proof fn law_first_place_is_found(s: Seq<char>, pattern: Seq<char>, n: int)
    requires
        forall|j: int| 0 <= j < n ==> !#[trigger] occurs_at(s, pattern, j),
    ensures
        occurs_at(s, pattern, n) ==> find_spec(s, pattern) == Some(n),
        !contains_spec(s, pattern) ==> find_spec(s, pattern) is None,
{
    lemma_find(s, pattern);
}

/// A pattern is replaced where it stands first, and then in what follows; a text in which it does
/// not stand stays as it is.
pub proof fn law_patterns_are_replaced_in_order(
    before: Seq<char>,
    pattern: Seq<char>,
    after: Seq<char>,
    by: Seq<char>,
)
    requires
        pattern.len() > 0,
        find_spec(before + pattern + after, pattern) == Some(before.len() as int),
    ensures
        replace_spec(before + pattern + after, pattern, by) == before + by + replace_spec(
            after,
            pattern,
            by,
        ),
        find_spec(before, pattern) is None ==> replace_spec(before, pattern, by) == before,
{
    let whole = before + pattern + after;
    let n = before.len() as int;
    assert(whole.take(n) =~= before);
    assert(whole.skip(n + pattern.len()) =~= after);
}

/// Contracts speak of whole values: every part of a value is in its view, in its place, and nothing
/// else is.
pub proof fn law_views_of_text_are_whole(
    strings: Seq<String>,
    parts: Seq<&[char]>,
)
    ensures
        texts(strings).len() == strings.len(),
        forall|i: int|
            0 <= i < strings.len() ==> #[trigger] texts(strings)[i] == strings[i]@,
        views(parts).len() == parts.len(),
        forall|i: int|
            0 <= i < parts.len() ==> #[trigger] views(parts)[i] == parts[i]@,
{
}

} // verus!
