//! Names of files and directories.

use vstd::prelude::*;

use crate::error::{ApiError, ErrorView, optional, plain_error, verdict};
use crate::paths::{path_escape, path_escape_spec};
use crate::text::{
    CharSet, ascii_alphanumeric, chars_of, has_char, is_ascii_alphanumeric, join_parts, joined,
    keep_non_empty, law_parts_are_joined, law_text_is_parted_once, lemma_joined_split,
    lemma_split_joined, lemma_split_pieces, lower_ascii, lower_ascii_spec, lower_char, non_empty,
    split, split_spec, text_of, trim, trim_end_spec, trim_start_spec, trimmed,
};

verus! {

/// The place of the last dot.
pub open spec fn last_dot(name: Seq<char>) -> Option<int>
    decreases name.len(),
{
    if name.len() == 0 {
        None
    } else if name.last() == '.' {
        Some(name.len() - 1)
    } else {
        last_dot(name.drop_last())
    }
}

/// A file name without its extension: what comes before the last dot, unless that is
/// nothing.
pub open spec fn stem_spec(name: Seq<char>) -> Seq<char> {
    match last_dot(name) {
        Some(i) => if i > 0 {
            name.take(i)
        } else {
            name
        },
        None => name,
    }
}

/// The extension of a file name: what comes after the last dot, unless nothing comes
/// before it.
pub open spec fn extension_spec(name: Seq<char>) -> Option<Seq<char>> {
    match last_dot(name) {
        Some(i) => if i > 0 {
            Some(name.skip(i + 1))
        } else {
            None
        },
        None => None,
    }
}

/// The last dot lies in the name.
proof fn lemma_last_dot(name: Seq<char>)
    ensures
        last_dot(name) matches Some(i) ==> 0 <= i < name.len() && name[i] == '.',
    decreases name.len(),
{
    if name.len() > 0 && name.last() != '.' {
        lemma_last_dot(name.drop_last());
    }
}

/// Finds the last dot.
fn find_last_dot(name: &[char]) -> (r: Option<usize>)
    ensures
        match r {
            Some(i) => last_dot(name@) == Some(i as int) && i < name@.len(),
            None => last_dot(name@) is None,
        },
{
    let mut i: usize = name.len();
    assert(name@.take(i as int) =~= name@);
    while i > 0
        invariant
            i <= name@.len(),
            last_dot(name@) == last_dot(name@.take(i as int)),
        decreases i,
    {
        let ghost head = name@.take(i as int);
        i -= 1;
        assert(head.drop_last() =~= name@.take(i as int));
        if name[i] == '.' {
            return Some(i);
        }
    }
    None
}

/// A file name without its extension.
pub fn file_stem(name: &str) -> (r: String)
    ensures
        r@ == stem_spec(name@),
{
    let chars = chars_of(name);
    match find_last_dot(chars.as_slice()) {
        Some(i) => if i > 0 {
            text_of(vstd::slice::slice_subrange(chars.as_slice(), 0, i))
        } else {
            text_of(chars.as_slice())
        },
        None => text_of(chars.as_slice()),
    }
}

/// The extension of a file name.
pub fn extension(name: &str) -> (r: Option<String>)
    ensures
        optional(r) == extension_spec(name@),
{
    let chars = chars_of(name);
    match find_last_dot(chars.as_slice()) {
        Some(i) => if i > 0 {
            let all = chars.as_slice();
            let end: usize = all.len();
            let rest = vstd::slice::slice_subrange(all, i + 1, end);
            assert(rest@ =~= name@.skip(i + 1));
            Some(text_of(rest))
        } else {
            None
        },
        None => None,
    }
}

/// A file name that has an extension is its stem, a dot and the extension.
pub proof fn law_stem_and_extension(name: Seq<char>)
    ensures
        match extension_spec(name) {
            Some(extension) => name == stem_spec(name) + seq!['.'] + extension,
            None => name == stem_spec(name),
        },
{
    lemma_last_dot(name);
    if let Some(extension) = extension_spec(name) {
        assert(name =~= stem_spec(name) + seq!['.'] + extension);
    }
}

/// A text in which every character but letters and digits is a dash.
pub open spec fn dashed(s: Seq<char>) -> Seq<char> {
    Seq::new(
        s.len(),
        |i: int|
            if ascii_alphanumeric(s[i]) {
                s[i]
            } else {
                '-'
            },
    )
}

/// A directory name made from the name of a project: its runs of letters and digits, in
/// lower case, joined by dashes.
pub open spec fn slug_spec(name: Seq<char>) -> Seq<char> {
    joined(
        split_spec(dashed(lower_ascii_spec(trimmed(name))), CharSet::One('-')).filter(non_empty()),
        "-"@,
    )
}

/// A directory name made from the name of a project.
pub fn slugify(name: &str) -> (r: String)
    ensures
        r@ == slug_spec(name@),
{
    let chars = chars_of(name);
    let lower = lower_ascii(trim(chars.as_slice(), CharSet::WhiteSpace));
    let mut mapped: Vec<char> = Vec::new();
    let mut i: usize = 0;
    while i < lower.len()
        invariant
            i <= lower@.len(),
            mapped@ == dashed(lower@).take(i as int),
        decreases lower@.len() - i,
    {
        let c = lower[i];
        if is_ascii_alphanumeric(c) {
            mapped.push(c);
        } else {
            mapped.push('-');
        }
        assert(mapped@ =~= dashed(lower@).take(i + 1));
        i += 1;
    }
    assert(mapped@ =~= dashed(lower@));
    let parts = split(mapped.as_slice(), CharSet::One('-'));
    let kept = keep_non_empty(&parts);
    proof {
        reveal_strlit("-");
        assert("-"@ =~= seq!['-']);
    }
    text_of(join_parts(&kept, '-').as_slice())
}

/// Whether a project directory may have the name: letters, digits, dashes and underscores,
/// at least one.
pub open spec fn directory_name(value: Seq<char>) -> bool {
    &&& value.len() > 0
    &&& forall|i: int|
        0 <= i < value.len() ==> {
            let c = #[trigger] value[i];
            ascii_alphanumeric(c) || c == '-' || c == '_'
        }
}

/// The refusal of a directory name.
pub open spec fn directory_name_error() -> ErrorView {
    plain_error(
        400,
        "INVALID_DIRECTORY_NAME"@,
        "directoryName may contain only letters, digits, '-' and '_'"@,
    )
}

/// Refuses a name that a project directory may not have.
pub fn validate_project_directory(value: &str) -> (r: Result<(), ApiError>)
    ensures
        verdict(r) == if directory_name(value@) {
            Ok::<(), ErrorView>(())
        } else {
            Err(directory_name_error())
        },
{
    let chars = chars_of(value);
    let mut accepted = chars.len() > 0;
    let mut i: usize = 0;
    while i < chars.len()
        invariant
            i <= chars@.len(),
            chars@ == value@,
            accepted == (value@.len() > 0 && forall|j: int|
                0 <= j < i ==> {
                    let c = #[trigger] value@[j];
                    ascii_alphanumeric(c) || c == '-' || c == '_'
                }),
        decreases chars@.len() - i,
    {
        let c = chars[i];
        if !(is_ascii_alphanumeric(c) || c == '-' || c == '_') {
            assert(c == value@[i as int]);
            accepted = false;
        }
        i += 1;
    }
    if accepted {
        Ok(())
    } else {
        Err(
            ApiError::new(
                400,
                "INVALID_DIRECTORY_NAME",
                "directoryName may contain only letters, digits, '-' and '_'",
            ),
        )
    }
}

/// Whether an uploaded file may have the name: it is not empty, not hidden, and names no
/// directory.
pub open spec fn upload_name(value: Seq<char>) -> bool {
    &&& value.len() > 0
    &&& value[0] != '.'
    &&& !value.contains('/')
    &&& !value.contains('\\')
    &&& !value.contains('\0')
}

/// Refuses a name that an uploaded file may not have.
pub fn validate_file_name(value: &str) -> (r: Result<(), ApiError>)
    ensures
        verdict(r) == if upload_name(value@) {
            Ok::<(), ErrorView>(())
        } else {
            Err(path_escape_spec())
        },
{
    let chars = chars_of(value);
    if chars.len() == 0 || chars[0] == '.' || has_char(chars.as_slice(), '/') || has_char(
        chars.as_slice(),
        '\\',
    ) || has_char(chars.as_slice(), '\0') {
        return Err(path_escape());
    }
    Ok(())
}

/// What a filter keeps was there before.
proof fn lemma_filter_from(parts: Seq<Seq<char>>, i: int)
    requires
        0 <= i < parts.filter(non_empty()).len(),
    ensures
        parts.contains(parts.filter(non_empty())[i]),
        parts.filter(non_empty())[i].len() > 0,
    decreases parts.len(),
{
    reveal(Seq::filter);
    let kept = parts.filter(non_empty());
    if parts.len() > 0 {
        let rest = parts.drop_last();
        let before = rest.filter(non_empty());
        if i < before.len() {
            lemma_filter_from(rest, i);
            assert(kept[i] == before[i]);
            let at = choose|at: int| 0 <= at < rest.len() && rest[at] == before[i];
            assert(parts[at] == kept[i]);
        } else {
            assert(parts[parts.len() - 1] == kept[i]);
        }
    }
}

/// Whether a character may stand in a part of a slug.
spec fn slug_letter(c: char) -> bool {
    ascii_alphanumeric(c) && lower_char(c) == c
}

/// Whether a character may stand in a slug.
spec fn slug_char(c: char) -> bool {
    slug_letter(c) || c == '-'
}

/// The parts that a slug is joined from.
spec fn slug_parts(name: Seq<char>) -> Seq<Seq<char>> {
    split_spec(dashed(lower_ascii_spec(trimmed(name))), CharSet::One('-')).filter(non_empty())
}

/// Parts made of letters and digits, joined by dashes: a slug in which no dash stands at an end.
proof fn lemma_joined_slug(parts: Seq<Seq<char>>)
    requires
        forall|i: int| 0 <= i < parts.len() ==> #[trigger] parts[i].len() > 0,
        forall|i: int, j: int|
            0 <= i < parts.len() && 0 <= j < parts[i].len() ==> slug_letter(
                #[trigger] parts[i][j],
            ),
    ensures
        forall|k: int|
            0 <= k < joined(parts, seq!['-']).len() ==> slug_char(
                #[trigger] joined(parts, seq!['-'])[k],
            ),
        parts.len() > 0 ==> joined(parts, seq!['-']).len() > 0,
        split_spec(joined(parts, seq!['-']), CharSet::One('-')) == if parts.len() == 0 {
            seq![seq![]]
        } else {
            parts
        },
    decreases parts.len(),
{
    let whole = joined(parts, seq!['-']);
    let set = CharSet::One('-');
    if parts.len() == 0 {
        assert(split_spec(whole, set) =~= seq![seq![]]);
    } else {
        assert forall|i: int| 0 <= i < parts.len() implies !(#[trigger] parts[i]).contains('-') by {
            assert forall|j: int| 0 <= j < parts[i].len() implies parts[i][j] != '-' by {
                assert(slug_letter(parts[i][j]));
            }
        }
        lemma_split_joined(parts, '-');
        let last = parts[parts.len() - 1];
        if parts.len() == 1 {
            assert forall|k: int| 0 <= k < whole.len() implies slug_char(#[trigger] whole[k]) by {
                assert(whole[k] == parts[0][k]);
            }
        } else {
            let rest = parts.drop_last();
            assert forall|i: int, j: int|
                0 <= i < rest.len() && 0 <= j < rest[i].len() implies slug_letter(
                #[trigger] rest[i][j],
            ) by {
                assert(rest[i][j] == parts[i][j]);
            }
            lemma_joined_slug(rest);
            let head = joined(rest, seq!['-']);
            assert forall|k: int| 0 <= k < whole.len() implies slug_char(#[trigger] whole[k]) by {
                if k < head.len() {
                    assert(whole[k] == head[k]);
                } else if k == head.len() {
                    assert(whole[k] == '-');
                } else {
                    assert(whole[k] == last[k - head.len() - 1]);
                    assert(slug_letter(parts[parts.len() - 1][k - head.len() - 1]));
                }
            }
        }
    }
}

/// The parts of a slug are made of letters and digits, and none is empty.
proof fn lemma_slug_parts(name: Seq<char>)
    ensures
        slug_spec(name) == joined(slug_parts(name), seq!['-']),
        forall|i: int| 0 <= i < slug_parts(name).len() ==> #[trigger] slug_parts(name)[i].len() > 0,
        forall|i: int, j: int|
            0 <= i < slug_parts(name).len() && 0 <= j < slug_parts(name)[i].len() ==> slug_letter(
                #[trigger] slug_parts(name)[i][j],
            ),
{
    reveal_strlit("-");
    assert("-"@ =~= seq!['-']);
    let lower = lower_ascii_spec(trimmed(name));
    let text = dashed(lower);
    let set = CharSet::One('-');
    let pieces = split_spec(text, set);
    let kept = slug_parts(name);
    lemma_split_pieces(text, set);
    assert forall|i: int| 0 <= i < kept.len() implies #[trigger] kept[i].len() > 0 by {
        lemma_filter_from(pieces, i);
    }
    assert forall|i: int, j: int| 0 <= i < kept.len() && 0 <= j < kept[i].len() implies slug_letter(
        #[trigger] kept[i][j],
    ) by {
        lemma_filter_from(pieces, i);
        let at = choose|at: int| 0 <= at < pieces.len() && pieces[at] == kept[i];
        let c = pieces[at][j];
        assert(!set.has(c) && text.contains(c));
        let k = choose|k: int| 0 <= k < text.len() && text[k] == c;
        assert(lower[k] == lower_char(trimmed(name)[k]));
        assert(text[k] == c);
    }
}

/// A slug that is not empty is a name that a project directory may have.
pub proof fn law_slug_is_directory_name(name: Seq<char>)
    ensures
        slug_spec(name).len() > 0 ==> directory_name(slug_spec(name)),
{
    lemma_slug_parts(name);
    lemma_joined_slug(slug_parts(name));
    let slug = slug_spec(name);
    assert forall|i: int| 0 <= i < slug.len() implies {
        let c = #[trigger] slug[i];
        ascii_alphanumeric(c) || c == '-' || c == '_'
    } by {
        assert(slug_char(slug[i]));
    }
}

/// A filter that everything passes leaves the parts as they are.
proof fn lemma_filter_all(parts: Seq<Seq<char>>)
    requires
        forall|i: int| 0 <= i < parts.len() ==> #[trigger] parts[i].len() > 0,
    ensures
        parts.filter(non_empty()) == parts,
    decreases parts.len(),
{
    reveal(Seq::filter);
    if parts.len() > 0 {
        let rest = parts.drop_last();
        assert forall|i: int| 0 <= i < rest.len() implies #[trigger] rest[i].len() > 0 by {
            assert(rest[i] == parts[i]);
        }
        lemma_filter_all(rest);
        assert(parts[parts.len() - 1].len() > 0);
    }
    assert(parts.filter(non_empty()) =~= parts);
}

/// The slug of a slug is the slug itself.
pub proof fn law_slug_is_its_own_slug(name: Seq<char>)
    ensures
        slug_spec(slug_spec(name)) == slug_spec(name),
{
    let parts = slug_parts(name);
    let slug = slug_spec(name);
    lemma_slug_parts(name);
    lemma_slug_parts(slug);
    lemma_joined_slug(parts);
    assert forall|i: int| 0 <= i < slug.len() implies slug_char(#[trigger] slug[i]) by {}
    if slug.len() > 0 {
        assert(slug_char(slug[0]));
        assert(slug_char(slug[slug.len() - 1]));
    }
    assert(trimmed(slug) == slug);
    assert(lower_ascii_spec(slug) =~= slug);
    assert(dashed(slug) =~= slug);
    if parts.len() == 0 {
        let nothing = seq![Seq::<char>::empty()];
        assert(split_spec(slug, CharSet::One('-')) =~= nothing);
        reveal(Seq::filter);
        assert(nothing.drop_last() =~= seq![]);
        assert(nothing.drop_last().filter(non_empty()) =~= seq![]);
        assert(nothing.filter(non_empty()) =~= seq![]);
    } else {
        lemma_filter_all(parts);
    }
}

/// The extension of a name is what comes after its last dot, and the stem what comes before; a
/// name without a dot, or with none but at its start, has no extension.
pub proof fn law_extension_follows_the_last_dot(stem: Seq<char>, extension: Seq<char>)
    requires
        !extension.contains('.'),
    ensures
        stem.len() > 0 ==> extension_spec(stem + seq!['.'] + extension) == Some(extension)
            && stem_spec(stem + seq!['.'] + extension) == stem,
        extension_spec(seq!['.'] + extension) is None,
        stem_spec(seq!['.'] + extension) == seq!['.'] + extension,
        extension_spec(extension) is None,
        stem_spec(extension) == extension,
{
    let name = stem + seq!['.'] + extension;
    lemma_dot_before(stem, extension);
    lemma_dot_before(seq![], extension);
    assert(Seq::<char>::empty() + seq!['.'] + extension =~= seq!['.'] + extension);
    assert(name.take(stem.len() as int) =~= stem);
    assert(name.skip(stem.len() as int + 1) =~= extension);
    lemma_last_dot(extension);
    if let Some(i) = last_dot(extension) {
        assert(extension.contains(extension[i]));
    }
}

/// A dot that no other follows is the last one.
proof fn lemma_dot_before(before: Seq<char>, after: Seq<char>)
    requires
        !after.contains('.'),
    ensures
        last_dot(before + seq!['.'] + after) == Some(before.len() as int),
    decreases after.len(),
{
    let name = before + seq!['.'] + after;
    if after.len() == 0 {
        assert(name.last() == '.');
    } else {
        let less = after.drop_last();
        assert(after.contains(after[after.len() - 1]));
        assert(name.last() == after.last());
        assert(name.drop_last() =~= before + seq!['.'] + less);
        assert(!less.contains('.')) by {
            if less.contains('.') {
                let i = less.index_of('.');
                assert(after[i] == '.');
            }
        }
        lemma_dot_before(before, less);
    }
}

/// The letters and digits of a text, in order.
pub open spec fn letters(s: Seq<char>) -> Seq<char> {
    s.filter(|c: char| '0' <= c <= '9' || 'a' <= c <= 'z' || 'A' <= c <= 'Z')
}

/// The letters and digits of parts, in order.
spec fn letters_of(parts: Seq<Seq<char>>) -> Seq<char>
    decreases parts.len(),
{
    if parts.len() == 0 {
        seq![]
    } else {
        letters_of(parts.drop_last()) + letters(parts.last())
    }
}

/// A slug holds every letter and digit of the name, in order and in lower case.
pub proof fn law_slug_keeps_letters_and_digits(name: Seq<char>)
    ensures
        letters(slug_spec(name)) == lower_ascii_spec(letters(name)),
{
    reveal_strlit("-");
    assert("-"@ =~= seq!['-']);
    let lower = lower_ascii_spec(trimmed(name));
    let text = dashed(lower);
    let pieces = split_spec(text, CharSet::One('-'));
    lemma_joined_split(text, '-');
    lemma_letters_joined(pieces);
    lemma_letters_joined(pieces.filter(non_empty()));
    lemma_letters_kept(pieces);
    lemma_letters_mapped(trimmed(name));
    lemma_letters_trimmed_start(name);
    lemma_letters_trimmed_end(trim_start_spec(name, CharSet::WhiteSpace));
}

/// A character that is neither letter nor digit holds none.
proof fn lemma_other_character(c: char)
    requires
        !ascii_alphanumeric(c),
    ensures
        letters(seq![c]) == Seq::<char>::empty(),
{
    reveal(Seq::filter);
    let none = Seq::<char>::empty();
    assert(letters(none) =~= none);
    assert(seq![c].drop_last() =~= none);
}

/// Dashes between parts are no letters.
proof fn lemma_letters_joined(parts: Seq<Seq<char>>)
    ensures
        letters(joined(parts, seq!['-'])) == letters_of(parts),
    decreases parts.len(),
{
    broadcast use Seq::filter_distributes_over_add;

    reveal(Seq::filter);
    let dash = seq!['-'];
    lemma_other_character('-');
    if parts.len() == 1 {
        assert(parts.drop_last() =~= seq![]);
        assert(letters_of(seq![]) =~= seq![]);
        assert(letters_of(parts) =~= letters(parts[0]));
    } else if parts.len() > 1 {
        lemma_letters_joined(parts.drop_last());
        let head = joined(parts.drop_last(), dash);
        assert(letters(head + dash + parts.last()) =~= letters(head) + letters(parts.last()));
    }
}

/// Parts that hold nothing hold no letters.
proof fn lemma_letters_kept(parts: Seq<Seq<char>>)
    ensures
        letters_of(parts.filter(non_empty())) == letters_of(parts),
    decreases parts.len(),
{
    reveal(Seq::filter);
    if parts.len() > 0 {
        let rest = parts.drop_last();
        lemma_letters_kept(rest);
        if parts.last().len() > 0 {
            let kept = rest.filter(non_empty()).push(parts.last());
            assert(kept.drop_last() =~= rest.filter(non_empty()));
        } else {
            assert(letters(parts.last()) =~= seq![]);
            assert(letters_of(parts) =~= letters_of(rest));
        }
    }
}

/// Dashes for other characters, and lower case, leave the letters where they are.
proof fn lemma_letters_mapped(s: Seq<char>)
    ensures
        letters(dashed(lower_ascii_spec(s))) == lower_ascii_spec(letters(s)),
    decreases s.len(),
{
    reveal(Seq::filter);
    let text = dashed(lower_ascii_spec(s));
    if s.len() == 0 {
        assert(letters(text) =~= lower_ascii_spec(letters(s)));
    } else {
        let rest = s.drop_last();
        lemma_letters_mapped(rest);
        assert(text.drop_last() =~= dashed(lower_ascii_spec(rest)));
        assert(letters(text) =~= lower_ascii_spec(letters(s)));
    }
}

/// White space at the start holds no letters.
proof fn lemma_letters_trimmed_start(s: Seq<char>)
    ensures
        letters(trim_start_spec(s, CharSet::WhiteSpace)) == letters(s),
    decreases s.len(),
{
    broadcast use Seq::filter_distributes_over_add;

    reveal(Seq::filter);
    if s.len() > 0 && CharSet::WhiteSpace.has(s[0]) {
        lemma_letters_trimmed_start(s.drop_first());
        let first = seq![s[0]];
        lemma_other_character(s[0]);
        assert(s =~= first + s.drop_first());
        assert(letters(s) =~= letters(s.drop_first()));
    }
}

/// White space at the end holds no letters.
proof fn lemma_letters_trimmed_end(s: Seq<char>)
    ensures
        letters(trim_end_spec(s, CharSet::WhiteSpace)) == letters(s),
    decreases s.len(),
{
    reveal(Seq::filter);
    if s.len() > 0 && CharSet::WhiteSpace.has(s.last()) {
        lemma_letters_trimmed_end(s.drop_last());
    }
}

/// Two words with a character between them that is neither letter nor digit make a slug with a
/// dash between them.
pub proof fn law_words_of_a_slug_are_parted_by_dashes(a: Seq<char>, c: char, b: Seq<char>)
    requires
        a.len() > 0 && b.len() > 0,
        forall|i: int| 0 <= i < a.len() ==> ascii_alphanumeric(#[trigger] a[i]),
        forall|i: int| 0 <= i < b.len() ==> ascii_alphanumeric(#[trigger] b[i]),
        !ascii_alphanumeric(c),
    ensures
        slug_spec(a) == lower_ascii_spec(a),
        slug_spec(a + seq![c] + b) == lower_ascii_spec(a) + seq!['-'] + lower_ascii_spec(b),
{
    reveal_strlit("-");
    assert("-"@ =~= seq!['-']);
    let whole = a + seq![c] + b;
    let x = lower_ascii_spec(a);
    let y = lower_ascii_spec(b);
    assert(whole[0] == a[0] && whole.last() == b[b.len() - 1]);
    assert(ascii_alphanumeric(a[0]) && ascii_alphanumeric(a[a.len() - 1]));
    assert(ascii_alphanumeric(b[b.len() - 1]));
    assert(trimmed(whole) == whole);
    assert(trimmed(a) == a);
    assert(dashed(x) =~= x);
    assert(dashed(lower_ascii_spec(whole)) =~= x + seq!['-'] + y);
    assert(!x.contains('-')) by {
        if x.contains('-') {
            let i = x.index_of('-');
            assert(ascii_alphanumeric(a[i]));
        }
    }
    assert(!y.contains('-')) by {
        if y.contains('-') {
            let i = y.index_of('-');
            assert(ascii_alphanumeric(b[i]));
        }
    }
    law_text_is_parted_once(x, '-', y);
    law_text_is_parted_once(y, '-', x);
    let both = seq![x] + seq![y];
    assert(both.len() == 2 && both[0] == x && both[1] == y);
    lemma_filter_all(both);
    lemma_filter_all(seq![x]);
    law_parts_are_joined(seq![x], y, seq!['-']);
    assert(seq![x].push(y) =~= both);
}

/// Which names a directory and which an uploaded file may have, character by character.
pub proof fn law_names_are_made_of_plain_characters(value: Seq<char>)
    ensures
        directory_name(value) <==> value.len() > 0 && forall|i: int|
            0 <= i < value.len() ==> {
                let c = #[trigger] value[i] as int;
                48 <= c <= 57 || 65 <= c <= 90 || 97 <= c <= 122 || c == 45 || c == 95
            },
        upload_name(value) <==> value.len() > 0 && value[0] != '.' && forall|i: int|
            0 <= i < value.len() ==> {
                let c = #[trigger] value[i];
                c != '/' && c != '\\' && c as int != 0
            },
{
    if directory_name(value) {
        assert forall|i: int| 0 <= i < value.len() implies {
            let c = #[trigger] value[i] as int;
            48 <= c <= 57 || 65 <= c <= 90 || 97 <= c <= 122 || c == 45 || c == 95
        } by {
            let c = value[i];
            assert(ascii_alphanumeric(c) || c == '-' || c == '_');
        }
    }
    if upload_name(value) {
        assert forall|i: int| 0 <= i < value.len() implies {
            let c = #[trigger] value[i];
            c != '/' && c != '\\' && c as int != 0
        } by {
            assert(value.contains(value[i]));
        }
    }
}

} // verus!
