//! Markdown pages: titles, front matter and links.

use vstd::prelude::*;

use crate::error::optional;
use crate::text::{
    CharSet, chars_of, contains_spec, find, find_spec, law_first_place_is_found,
    law_lines_end_at_line_feeds, law_prefix_is_taken_away, law_text_is_parted_once,
    law_trimming_takes_white_space_alone, lemma_find, lemma_trim_end, lemma_trim_start, lines,
    lines_spec, occurs_at, replace, replace_spec, same_chars, split_once, split_once_spec,
    split_spec, strip_prefix, strip_prefix_spec, text_of, texts, trim, trim_spec, trimmed, views,
    white_space,
};

verus! {

/// The title that a line gives: what follows the mark of a first level heading, if that is
/// not blank.
pub open spec fn line_title(line: Seq<char>) -> Option<Seq<char>> {
    match strip_prefix_spec(trimmed(line), "# "@) {
        Some(rest) => if trimmed(rest).len() > 0 {
            Some(trimmed(rest))
        } else {
            None
        },
        None => None,
    }
}

/// The title that the first line which gives one gives.
pub open spec fn first_title(lines: Seq<Seq<char>>) -> Option<Seq<char>>
    decreases lines.len(),
{
    if lines.len() == 0 {
        None
    } else {
        match line_title(lines[0]) {
            Some(title) => Some(title),
            None => first_title(lines.drop_first()),
        }
    }
}

/// The title of a page: its first heading of the first level.
pub open spec fn title_spec(content: Seq<char>) -> Option<Seq<char>> {
    first_title(lines_spec(content))
}

/// The title of a page.
pub fn markdown_title(content: &str) -> (r: Option<String>)
    ensures
        optional(r) == title_spec(content@),
{
    let chars = chars_of(content);
    let all = lines(chars.as_slice());
    let mark = chars_of("# ");
    let mut i: usize = 0;
    assert(views(all@).skip(0) =~= views(all@));
    while i < all.len()
        invariant
            i <= all@.len(),
            mark@ == "# "@,
            title_spec(content@) == first_title(views(all@).skip(i as int)),
        decreases all@.len() - i,
    {
        proof {
            assert(views(all@).skip(i as int)[0] == all@[i as int]@);
            assert(views(all@).skip(i as int).drop_first() =~= views(all@).skip(i + 1));
        }
        let line = trim(all[i], CharSet::WhiteSpace);
        if let Some(rest) = strip_prefix(line, mark.as_slice()) {
            let title = trim(rest, CharSet::WhiteSpace);
            if title.len() > 0 {
                return Some(text_of(title));
            }
        }
        i += 1;
    }
    None
}

/// The front matter of a page: what stands between the line of dashes that it begins with
/// and the next line that begins with dashes.
pub open spec fn front_matter(content: Seq<char>) -> Option<Seq<char>> {
    fenced(replace_spec(content, "\r\n"@, "\n"@))
}

/// What stands between the line of dashes that a text begins with and the next line that begins
/// with dashes, where lines end with a line feed.
pub open spec fn fenced(content: Seq<char>) -> Option<Seq<char>> {
    match strip_prefix_spec(content, "---\n"@) {
        Some(rest) => match find_spec(rest, "\n---"@) {
            Some(i) => Some(rest.take(i)),
            None => None,
        },
        None => None,
    }
}

/// The value that a line of front matter gives to a key: what follows the colon, without
/// white space and quotes at its ends.
pub open spec fn line_value(line: Seq<char>, key: Seq<char>) -> Option<Seq<char>> {
    match split_once_spec(line, ':') {
        Some(pair) => if trimmed(pair.0) == key {
            Some(trim_spec(trimmed(pair.1), CharSet::Two('"', '\'')))
        } else {
            None
        },
        None => None,
    }
}

/// The value that the first line which names the key gives to it.
pub open spec fn first_line_value(lines: Seq<Seq<char>>, key: Seq<char>) -> Option<Seq<char>>
    decreases lines.len(),
{
    if lines.len() == 0 {
        None
    } else {
        match line_value(lines[0], key) {
            Some(value) => Some(value),
            None => first_line_value(lines.drop_first(), key),
        }
    }
}

/// The value of a key in the front matter of a page, unless it is empty.
pub open spec fn frontmatter_spec(content: Seq<char>, key: Seq<char>) -> Option<Seq<char>> {
    match front_matter(content) {
        Some(body) => match first_line_value(lines_spec(body), key) {
            Some(value) => if value.len() > 0 {
                Some(value)
            } else {
                None
            },
            None => None,
        },
        None => None,
    }
}

/// The value of a key in the front matter of a page.
pub fn frontmatter_value(content: &str, key: &str) -> (r: Option<String>)
    ensures
        optional(r) == frontmatter_spec(content@, key@),
{
    let chars = chars_of(content);
    let wanted = chars_of(key);
    proof {
        reveal_strlit("\r\n");
    }
    let normalized = replace(
        chars.as_slice(),
        chars_of("\r\n").as_slice(),
        chars_of("\n").as_slice(),
    );
    let opening = chars_of("---\n");
    let closing = chars_of("\n---");
    let rest = match strip_prefix(normalized.as_slice(), opening.as_slice()) {
        Some(rest) => rest,
        None => {
            return None;
        },
    };
    let end: usize = match find(rest, closing.as_slice()) {
        Some(end) => end,
        None => {
            return None;
        },
    };
    proof {
        lemma_find(rest@, closing@);
    }
    let body = vstd::slice::slice_subrange(rest, 0, end);
    assert(body@ =~= rest@.take(end as int));
    let all = lines(body);
    let ghost first = first_line_value(lines_spec(body@), key@);
    let mut i: usize = 0;
    assert(views(all@).skip(0) =~= views(all@));
    while i < all.len()
        invariant
            i <= all@.len(),
            wanted@ == key@,
            front_matter(content@) == Some(body@),
            first == first_line_value(lines_spec(body@), key@),
            first == first_line_value(views(all@).skip(i as int), key@),
        decreases all@.len() - i,
    {
        proof {
            assert(views(all@).skip(i as int)[0] == all@[i as int]@);
            assert(views(all@).skip(i as int).drop_first() =~= views(all@).skip(i + 1));
        }
        if let Some((name, value)) = split_once(all[i], ':') {
            if same_chars(trim(name, CharSet::WhiteSpace), wanted.as_slice()) {
                let inner = trim(trim(value, CharSet::WhiteSpace), CharSet::Two('"', '\''));
                return if inner.len() > 0 {
                    Some(text_of(inner))
                } else {
                    None
                };
            }
        }
        i += 1;
    }
    None
}

/// The target of a link: what stands before the first bar, without white space at its ends.
pub open spec fn link_target(inner: Seq<char>) -> Seq<char> {
    trimmed(split_spec(inner, CharSet::One('|'))[0])
}

/// The targets of the links of a page, in order: each link is what stands between two
/// opening brackets and the next two closing ones, and blank targets are left out.
pub open spec fn links_spec(content: Seq<char>) -> Seq<Seq<char>>
    decreases content.len(),
{
    proof {
        reveal_strlit("[[");
        reveal_strlit("]]");
        lemma_find(content, "[["@);
        if let Some(start) = find_spec(content, "[["@) {
            lemma_find(content.skip(start + 2), "]]"@);
        }
    }
    match find_spec(content, "[["@) {
        Some(start) => {
            let rest = content.skip(start + 2);
            match find_spec(rest, "]]"@) {
                Some(end) => {
                    let target = link_target(rest.take(end));
                    let more = links_spec(rest.skip(end + 2));
                    if target.len() > 0 {
                        seq![target] + more
                    } else {
                        more
                    }
                },
                None => seq![],
            }
        },
        None => seq![],
    }
}

/// What stands before the first bar.
fn before_bar<'a>(inner: &'a [char]) -> (r: &'a [char])
    ensures
        r@ == split_spec(inner@, CharSet::One('|'))[0],
{
    match split_once(inner, '|') {
        Some((head, _)) => head,
        None => inner,
    }
}

/// The targets of the links of a page.
pub fn wiki_links(content: &str) -> (r: Vec<String>)
    ensures
        texts(r@) == links_spec(content@),
{
    let chars = chars_of(content);
    let opening = chars_of("[[");
    let closing = chars_of("]]");
    proof {
        reveal_strlit("[[");
        reveal_strlit("]]");
    }
    let mut out: Vec<String> = Vec::new();
    let mut rest: &[char] = chars.as_slice();
    assert(texts(out@) + links_spec(rest@) =~= links_spec(content@));
    loop
        invariant
            opening@ == "[["@,
            closing@ == "]]"@,
            opening@.len() == 2,
            closing@.len() == 2,
            texts(out@) + links_spec(rest@) == links_spec(content@),
        decreases rest@.len(),
    {
        let ghost before = rest@;
        proof {
            lemma_find(rest@, opening@);
        }
        let end: usize = rest.len();
        let start: usize = match find(rest, opening.as_slice()) {
            Some(start) => start,
            None => {
                assert(texts(out@) + links_spec(before) =~= texts(out@));
                return out;
            },
        };
        let inside = vstd::slice::slice_subrange(rest, start + 2, end);
        assert(inside@ =~= before.skip(start + 2));
        proof {
            lemma_find(inside@, closing@);
        }
        let close: usize = match find(inside, closing.as_slice()) {
            Some(close) => close,
            None => {
                assert(texts(out@) + links_spec(before) =~= texts(out@));
                return out;
            },
        };
        let inner = vstd::slice::slice_subrange(inside, 0, close);
        assert(inner@ =~= inside@.take(close as int));
        let target = trim(before_bar(inner), CharSet::WhiteSpace);
        let tail = vstd::slice::slice_subrange(inside, close + 2, inside.len());
        assert(tail@ =~= inside@.skip(close + 2));
        let ghost found = texts(out@);
        if target.len() > 0 {
            out.push(text_of(target));
            assert(texts(out@) =~= found.push(target@));
            assert(links_spec(before) =~= seq![target@] + links_spec(tail@));
            assert(texts(out@) + links_spec(tail@) =~= found + links_spec(before));
        }
        rest = tail;
    }
}

/// A text in which every line feed follows a carriage return: those that follow none get one.
pub open spec fn with_returns(s: Seq<char>) -> Seq<char>
    decreases s.len(),
{
    if s.len() == 0 {
        s
    } else if s.last() == '\n' && !(s.len() > 1 && s[s.len() - 2] == '\r') {
        with_returns(s.drop_last()).push('\r').push('\n')
    } else {
        with_returns(s.drop_last()).push(s.last())
    }
}

/// A text in which lines end with a line feed alone.
spec fn without_returns(s: Seq<char>) -> Seq<char> {
    replace_spec(s, "\r\n"@, "\n"@)
}

/// Whether a character ends a line together with the text before it.
spec fn closes_line(s: Seq<char>, c: char) -> bool {
    c == '\n' && s.len() > 0 && s.last() == '\r'
}

/// The first place of a pattern is what [`find_spec`] finds.
proof fn lemma_find_is(s: Seq<char>, pattern: Seq<char>, i: int)
    requires
        occurs_at(s, pattern, i),
        forall|j: int| 0 <= j < i ==> !#[trigger] occurs_at(s, pattern, j),
    ensures
        find_spec(s, pattern) == Some(i),
{
    lemma_find(s, pattern);
}

/// A place of a pattern stays one when the text goes on, and what goes beyond is none before.
proof fn lemma_occurs_extended(s: Seq<char>, more: Seq<char>, pattern: Seq<char>, i: int)
    requires
        0 <= i,
        i + pattern.len() <= s.len(),
    ensures
        occurs_at(s + more, pattern, i) == occurs_at(s, pattern, i),
{
    assert((s + more).subrange(i, i + pattern.len()) =~= s.subrange(i, i + pattern.len()));
}

/// What the first place of a pattern is does not change when the text goes on.
proof fn lemma_find_extended(s: Seq<char>, more: Seq<char>, pattern: Seq<char>)
    requires
        find_spec(s, pattern) is Some,
    ensures
        find_spec(s + more, pattern) == find_spec(s, pattern),
{
    lemma_find(s, pattern);
    let i = find_spec(s, pattern)->0;
    lemma_occurs_extended(s, more, pattern, i);
    assert forall|j: int| 0 <= j < i implies !#[trigger] occurs_at(s + more, pattern, j) by {
        lemma_occurs_extended(s, more, pattern, j);
    }
    lemma_find_is(s + more, pattern, i);
}

/// Where a carriage return and a line feed stand.
proof fn lemma_return_at(s: Seq<char>, i: int)
    ensures
        occurs_at(s, "\r\n"@, i) <==> 0 <= i && i + 2 <= s.len() && s[i] == '\r' && s[i + 1]
            == '\n',
{
    reveal_strlit("\r\n");
    if 0 <= i && i + 2 <= s.len() {
        let part = s.subrange(i, i + 2);
        assert(part[0] == s[i] && part[1] == s[i + 1]);
        if s[i] == '\r' && s[i + 1] == '\n' {
            assert(part =~= "\r\n"@);
        }
    }
}

/// A character that ends no line stays when carriage returns go.
proof fn lemma_push_plain(s: Seq<char>, c: char)
    requires
        !closes_line(s, c),
    ensures
        without_returns(s.push(c)) == without_returns(s).push(c),
    decreases s.len(),
{
    reveal_strlit("\r\n");
    let t = s.push(c);
    assert(t =~= s + seq![c]);
    lemma_find(s, "\r\n"@);
    match find_spec(s, "\r\n"@) {
        Some(i) => {
            lemma_find_extended(s, seq![c], "\r\n"@);
            let rest = s.skip(i + 2);
            assert(t.skip(i + 2) =~= rest.push(c));
            assert(t.take(i) =~= s.take(i));
            lemma_push_plain(rest, c);
            assert(without_returns(t) =~= without_returns(s).push(c));
        },
        None => {
            lemma_find(t, "\r\n"@);
            if let Some(i) = find_spec(t, "\r\n"@) {
                lemma_return_at(t, i);
                lemma_return_at(s, i);
            }
        },
    }
}

/// A carriage return and a line feed become a line feed.
proof fn lemma_push_line_end(s: Seq<char>)
    ensures
        without_returns(s.push('\r').push('\n')) == without_returns(s).push('\n'),
    decreases s.len(),
{
    reveal_strlit("\r\n");
    reveal_strlit("\n");
    let end = seq!['\r', '\n'];
    let t = s.push('\r').push('\n');
    assert(t =~= s + end);
    lemma_find(s, "\r\n"@);
    match find_spec(s, "\r\n"@) {
        Some(i) => {
            lemma_find_extended(s, end, "\r\n"@);
            let rest = s.skip(i + 2);
            assert(t.skip(i + 2) =~= rest.push('\r').push('\n'));
            assert(t.take(i) =~= s.take(i));
            lemma_push_line_end(rest);
            assert(without_returns(t) =~= without_returns(s).push('\n'));
        },
        None => {
            let n = s.len() as int;
            lemma_return_at(t, n);
            assert forall|j: int| 0 <= j < n implies !#[trigger] occurs_at(t, "\r\n"@, j) by {
                lemma_return_at(t, j);
                lemma_return_at(s, j);
            }
            lemma_find_is(t, "\r\n"@, n);
            let nothing = t.skip(n + 2);
            assert(nothing =~= seq![]);
            lemma_find(nothing, "\r\n"@);
            assert(without_returns(nothing) =~= seq![]);
            assert(t.take(n) =~= s);
            assert(without_returns(t) =~= s.push('\n'));
        },
    }
}

/// Carriage returns that are put in before line feeds go again.
proof fn lemma_returns_go(s: Seq<char>)
    ensures
        without_returns(with_returns(s)) == without_returns(s),
    decreases s.len(),
{
    if s.len() > 0 {
        let before = s.drop_last();
        let c = s.last();
        assert(before.push(c) =~= s);
        if closes_line(before, c) {
            let line = before.drop_last();
            assert(line.push('\r') =~= before);
            assert(with_returns(before) == with_returns(line).push('\r'));
            lemma_returns_go(line);
            lemma_push_line_end(line);
            lemma_push_line_end(with_returns(line));
        } else {
            lemma_returns_go(before);
            lemma_push_plain(before, c);
            if c == '\n' {
                lemma_push_line_end(with_returns(before));
            } else {
                lemma_push_plain(with_returns(before), c);
            }
        }
    }
}

/// The front matter of a page is the same whether its lines end with a line feed or with a
/// carriage return and a line feed.
pub proof fn law_line_ends_do_not_matter(content: Seq<char>, key: Seq<char>)
    ensures
        front_matter(with_returns(content)) == front_matter(content),
        frontmatter_spec(with_returns(content), key) == frontmatter_spec(content, key),
{
    lemma_returns_go(content);
}

/// What a text without a carriage return at its end becomes without returns, it becomes at the
/// beginning of any longer text.
proof fn lemma_prefix_stays(s: Seq<char>, more: Seq<char>) -> (rest: Seq<char>)
    requires
        s.len() > 0 ==> s.last() != '\r',
    ensures
        without_returns(s + more) == without_returns(s) + rest,
    decreases more.len(),
{
    let normal = without_returns(s);
    if more.len() == 0 {
        assert(s + more =~= s);
        assert(normal + seq![] =~= normal);
        seq![]
    } else {
        let before = more.drop_last();
        let c = more.last();
        assert(s + more =~= (s + before).push(c));
        if closes_line(s + before, c) {
            let line = before.drop_last();
            assert(s + before =~= (s + line).push('\r'));
            let rest = lemma_prefix_stays(s, line);
            lemma_push_line_end(s + line);
            assert(normal + rest.push('\n') =~= (normal + rest).push('\n'));
            rest.push('\n')
        } else {
            let rest = lemma_prefix_stays(s, before);
            lemma_push_plain(s + before, c);
            assert(normal + rest.push(c) =~= (normal + rest).push(c));
            rest.push(c)
        }
    }
}

/// What is fenced stays so when the text goes on.
proof fn lemma_fenced_extended(s: Seq<char>, more: Seq<char>)
    requires
        fenced(s) is Some,
    ensures
        fenced(s + more) == fenced(s),
{
    reveal_strlit("---\n");
    let rest = s.skip(4);
    assert("---\n"@.is_prefix_of(s + more));
    assert((s + more).skip(4) =~= rest + more);
    lemma_find(rest, "\n---"@);
    lemma_find_extended(rest, more, "\n---"@);
    let i = find_spec(rest, "\n---"@)->0;
    assert((rest + more).take(i) =~= rest.take(i));
}

/// What is fenced ends before a carriage return.
proof fn lemma_fenced_before_return(s: Seq<char>)
    requires
        fenced(s.push('\r')) is Some,
    ensures
        fenced(s) == fenced(s.push('\r')),
{
    reveal_strlit("---\n");
    reveal_strlit("\n---");
    let t = s.push('\r');
    assert("---\n"@[3] == '\n');
    assert(t[3] == '\n');
    assert(s.len() >= 4);
    assert("---\n"@.is_prefix_of(s));
    let rest = s.skip(4);
    assert(t.skip(4) =~= rest + seq!['\r']);
    lemma_find(t.skip(4), "\n---"@);
    let i = find_spec(t.skip(4), "\n---"@)->0;
    assert(t.skip(4).subrange(i, i + 4)[3] == '-');
    assert(i + 4 <= rest.len());
    lemma_occurs_extended(rest, seq!['\r'], "\n---"@, i);
    assert forall|j: int| 0 <= j < i implies !#[trigger] occurs_at(rest, "\n---"@, j) by {
        lemma_occurs_extended(rest, seq!['\r'], "\n---"@, j);
    }
    lemma_find_is(rest, "\n---"@, i);
    assert(t.skip(4).take(i) =~= rest.take(i));
}

/// What follows the front matter of a page does not change it.
pub proof fn law_body_does_not_change_front_matter(
    content: Seq<char>,
    more: Seq<char>,
    key: Seq<char>,
)
    requires
        front_matter(content) is Some,
    ensures
        front_matter(content + more) == front_matter(content),
        frontmatter_spec(content + more, key) == frontmatter_spec(content, key),
    decreases content.len(),
{
    if content.len() > 0 && content.last() == '\r' {
        let front = content.drop_last();
        assert(front.push('\r') =~= content);
        lemma_push_plain(front, '\r');
        lemma_fenced_before_return(without_returns(front));
        law_body_does_not_change_front_matter(front, seq!['\r'] + more, key);
        assert(content + more =~= front + (seq!['\r'] + more));
    } else {
        let rest = lemma_prefix_stays(content, more);
        lemma_fenced_extended(without_returns(content), rest);
    }
}

/// Two brackets stand first where they are put after a text that holds none and does not end
/// with one.
proof fn lemma_find_brackets(before: Seq<char>, c: char, after: Seq<char>)
    requires
        !contains_spec(before, seq![c, c]),
        before.len() > 0 ==> before.last() != c,
    ensures
        find_spec(before + (seq![c, c] + after), seq![c, c]) == Some(before.len() as int),
{
    let mark = seq![c, c];
    let whole = before + (mark + after);
    let n = before.len() as int;
    assert(whole.subrange(n, n + 2) =~= mark);
    assert forall|j: int| 0 <= j < n implies !#[trigger] occurs_at(whole, mark, j) by {
        if j + 2 <= n {
            lemma_occurs_extended(before, mark + after, mark, j);
        } else if occurs_at(whole, mark, j) {
            assert(whole.subrange(j, j + 2)[0] == before.last());
            assert(mark[0] == c);
        }
    }
    lemma_find_is(whole, mark, n);
}

/// The targets of the links of a page come one after the other: text without a link gives none,
/// and the first link gives its target, unless that is blank, before those of the rest.
#[verifier::spinoff_prover]
#[verifier::rlimit(50)]
pub proof fn law_links_come_in_order(before: Seq<char>, inner: Seq<char>, after: Seq<char>)
    requires
        !contains_spec(before, "[["@),
        before.len() > 0 ==> before.last() != '[',
        !contains_spec(inner, "]]"@),
        inner.len() > 0 ==> inner.last() != ']',
    ensures
        links_spec(before) == Seq::<Seq<char>>::empty(),
        links_spec(before + "[["@ + inner + "]]"@ + after) == if link_target(inner).len() > 0 {
            seq![link_target(inner)] + links_spec(after)
        } else {
            links_spec(after)
        },
{
    let rest = inner + "]]"@ + after;
    let whole = before + "[["@ + inner + "]]"@ + after;
    let start = before.len() as int;
    let end = inner.len() as int;
    assert(find_spec(whole, "[["@) == Some(start) && whole.skip(start + 2) == rest) by {
        reveal_strlit("[[");
        assert("[["@ =~= seq!['[', '[']);
        lemma_find_brackets(before, '[', rest);
        assert(whole =~= before + (seq!['[', '['] + rest));
        assert(whole.skip(start + 2) =~= rest);
    }
    assert(find_spec(rest, "]]"@) == Some(end) && rest.take(end) == inner && rest.skip(end + 2)
        == after) by {
        reveal_strlit("]]");
        assert("]]"@ =~= seq![']', ']']);
        lemma_find_brackets(inner, ']', after);
        assert(rest =~= inner + (seq![']', ']'] + after));
        assert(rest.take(end) =~= inner);
        assert(rest.skip(end + 2) =~= after);
    }
    lemma_find(before, "[["@);
}

/// The title of a page is the text of the first line that begins with one number sign and a
/// space; a line that does not is passed over.
pub proof fn law_first_heading_is_the_title(line: Seq<char>, title: Seq<char>, rest: Seq<char>)
    requires
        !line.contains('\n'),
        line.len() > 0 ==> line.last() != '\r',
        !title.contains('\n'),
        title.len() > 0 && !white_space(title[0]) && !white_space(title.last()),
    ensures
        title_spec("# "@ + title + "\n"@ + rest) == Some(title),
        !"# "@.is_prefix_of(trimmed(line)) ==> title_spec(line + "\n"@ + rest) == title_spec(rest),
        title_spec(seq![]) is None,
{
    reveal_strlit("# ");
    reveal_strlit("\n");
    assert("\n"@ =~= seq!['\n']);
    let none = Seq::<char>::empty();
    let heading = "# "@ + title;
    assert(!heading.contains('\n')) by {
        if heading.contains('\n') {
            let i = heading.index_of('\n');
            assert(i >= 2);
            assert(title.contains(title[i - 2]));
        }
    }
    assert(heading[0] == '#' && heading.last() == title.last());
    law_lines_end_at_line_feeds(heading, rest);
    law_lines_end_at_line_feeds(line, rest);
    law_lines_end_at_line_feeds(none, rest);
    law_trimming_takes_white_space_alone(none, heading, none);
    assert(none + heading + none =~= heading);
    law_trimming_takes_white_space_alone(none, title, none);
    assert(none + title + none =~= title);
    law_prefix_is_taken_away("# "@, title, title);
    assert((seq![heading] + lines_spec(rest))[0] == heading);
    let lines = seq![line] + lines_spec(rest);
    assert(lines[0] == line);
    assert(lines.drop_first() =~= lines_spec(rest));
}

/// The front matter of a page is what stands between the first line of dashes and the next.
pub proof fn law_front_matter_is_fenced(body: Seq<char>)
    requires
        !contains_spec(body, "\n---"@),
        !body.contains('\r'),
    ensures
        front_matter("---\n"@ + body + "\n---"@) == Some(body),
{
    let whole = "---\n"@ + body + "\n---"@;
    let rest = body + "\n---"@;
    assert(find_spec(whole, "\r\n"@) is None) by {
        lemma_find(whole, "\r\n"@);
        if let Some(i) = find_spec(whole, "\r\n"@) {
            reveal_strlit("---\n");
            reveal_strlit("\n---");
            lemma_return_at(whole, i);
            if 4 <= i < 4 + body.len() {
                assert(body.contains(body[i - 4]));
            }
        }
    }
    assert(without_returns(whole) == whole) by {
        reveal_strlit("\r\n");
    }
    assert(whole =~= "---\n"@ + rest);
    law_prefix_is_taken_away("---\n"@, rest, rest);
    lemma_fence_after(body);
    assert(rest.take(body.len() as int) =~= body);
}

/// A fence stands first behind a text that holds none.
proof fn lemma_fence_after(body: Seq<char>)
    requires
        !contains_spec(body, "\n---"@),
    ensures
        find_spec(body + "\n---"@, "\n---"@) == Some(body.len() as int),
{
    let fence = "\n---"@;
    let text = body + fence;
    let n = body.len() as int;
    assert(text.subrange(n, n + fence.len()) =~= fence);
    assert forall|j: int| 0 <= j < n implies !#[trigger] occurs_at(text, fence, j) by {
        if j + fence.len() <= n {
            lemma_occurs_extended(body, fence, fence, j);
        } else if occurs_at(text, fence, j) {
            reveal_strlit("\n---");
            let part = text.subrange(j, j + 4);
            assert(part[n - j] == text[n]);
            assert(part[n - j] == fence[n - j]);
        }
    }
    law_first_place_is_found(text, fence, n);
}

/// A page that does not begin with dashes has no front matter.
pub proof fn law_front_matter_begins_with_dashes(content: Seq<char>)
    requires
        front_matter(content) is Some,
    ensures
        "---"@.is_prefix_of(content),
{
    reveal_strlit("---\n");
    reveal_strlit("---");
    reveal_strlit("\n");
    let normal = without_returns(content);
    assert(normal[0] == '-' && normal[1] == '-' && normal[2] == '-' && normal.len() >= 4) by {
        law_prefix_is_taken_away("---\n"@, normal, normal);
        assert("---\n"@.is_prefix_of(normal));
        assert(normal.subrange(0, 4) == "---\n"@);
        assert(normal.subrange(0, 4)[0] == normal[0]);
        assert(normal.subrange(0, 4)[1] == normal[1]);
        assert(normal.subrange(0, 4)[2] == normal[2]);
    }
    lemma_find(content, "\r\n"@);
    if let Some(i) = find_spec(content, "\r\n"@) {
        lemma_return_at(content, i);
        let tail = without_returns(content.skip(i + 2));
        assert(normal == content.take(i) + "\n"@ + tail) by {
            reveal_strlit("\r\n");
        }
        if i < 3 {
            assert(normal[i] == '\n');
        }
        assert(normal[0] == content[0] && normal[1] == content[1] && normal[2] == content[2]);
    } else {
        assert(normal == content) by {
            reveal_strlit("\r\n");
        }
    }
    assert(content.subrange(0, 3) =~= "---"@);
}

/// A line of front matter gives a key what follows the colon, without white space and quotes
/// around it; a line that gives it nothing is passed over.
pub proof fn law_first_line_of_a_key_counts(
    first: Seq<char>,
    second: Seq<char>,
    line: Seq<char>,
    more: Seq<char>,
    key: Seq<char>,
    value: Seq<char>,
)
    requires
        front_matter(first) == Some(line + "\n"@ + more),
        front_matter(second) == Some(more),
        !line.contains('\n'),
        line.len() > 0 ==> line.last() != '\r',
        !key.contains(':'),
        key.len() > 0 ==> !white_space(key[0]) && !white_space(key.last()),
        value.len() > 0 && !white_space(value[0]) && !white_space(value.last()),
        value[0] != '"' && value[0] != '\'' && value.last() != '"' && value.last() != '\'',
    ensures
        line == key + ":"@ + value ==> frontmatter_spec(first, key) == Some(value),
        line == key + ": "@ + value ==> frontmatter_spec(first, key) == Some(value),
        line == key + ": \""@ + value + "\""@ ==> frontmatter_spec(first, key) == Some(value),
        line == key + ":"@ ==> frontmatter_spec(first, key) is None,
        !line.contains(':') ==> frontmatter_spec(first, key) == frontmatter_spec(second, key),
{
    reveal_strlit("\n");
    reveal_strlit(":");
    reveal_strlit(": ");
    reveal_strlit("\"");
    reveal_strlit(": \"");
    assert("\n"@ =~= seq!['\n']);
    let none = Seq::<char>::empty();
    let quotes = CharSet::Two('"', '\'');
    law_lines_end_at_line_feeds(line, more);
    let lines = seq![line] + lines_spec(more);
    assert(lines[0] == line);
    assert(lines.drop_first() =~= lines_spec(more));
    law_trimming_takes_white_space_alone(none, key, none);
    assert(none + key + none =~= key);
    law_trimming_takes_white_space_alone(none, value, none);
    assert(none + value + none =~= value);
    law_trimming_takes_white_space_alone(seq![' '], value, none);
    assert(seq![' '] + value + none =~= seq![' '] + value);
    law_trimming_takes_white_space_alone(none, none, none);
    assert(none + none + none =~= none);
    let mark = seq!['"'];
    let whole = mark + value + mark;
    assert(whole[0] == '"' && whole.last() == '"');
    law_trimming_takes_white_space_alone(seq![' '], whole, none);
    assert(seq![' '] + whole + none =~= seq![' '] + whole);
    lemma_trim_start(none, value, quotes);
    lemma_trim_end(value, none, quotes);
    assert(none + value =~= value && value + none =~= value);
    lemma_trim_start(mark, value + mark, quotes);
    lemma_trim_end(value, mark, quotes);
    assert(mark + (value + mark) =~= whole);
    law_text_is_parted_once(key, ':', value);
    law_text_is_parted_once(key, ':', seq![' '] + value);
    law_text_is_parted_once(key, ':', seq![' '] + whole);
    law_text_is_parted_once(key, ':', none);
    assert(key + ":"@ + value =~= key + seq![':'] + value);
    assert(key + ": "@ + value =~= key + seq![':'] + (seq![' '] + value));
    assert(key + ": \""@ + value + "\""@ =~= key + seq![':'] + (seq![' '] + whole));
    assert(key + ":"@ =~= key + seq![':'] + none);
    assert(trim_spec(none, quotes) =~= none);
    if !line.contains(':') {
        law_text_is_parted_once(line, ':', none);
    }
}

/// The target of a link ends at its first bar.
pub proof fn law_target_ends_at_the_bar(target: Seq<char>, label: Seq<char>)
    requires
        !target.contains('|'),
    ensures
        link_target(target) == trimmed(target),
        link_target(target + "|"@ + label) == trimmed(target),
{
    reveal_strlit("|");
    assert("|"@ =~= seq!['|']);
    law_text_is_parted_once(target, '|', label);
}

} // verus!
