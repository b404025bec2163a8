//! Paths: which ones a request may name, and what they are made of.
//!
//! A path is a text whose parts are separated by slashes.

use vstd::prelude::*;

use crate::error::{ApiError, ErrorView, optional, outcome, plain_error, verdict};
use crate::text::{
    CharSet, chars_of, contains_spec, has_char, index_in, is_blank, join_parts, joined,
    law_blank_text_is_white_space, law_parts_are_joined, law_text_is_parted_once, lemma_index_in,
    lemma_joined_concat, lemma_joined_split, lemma_split_joined, lemma_split_lengths,
    lemma_split_pieces, lemma_split_push, occurs_at, replace_char, replace_char_spec, same,
    same_chars, split, split_spec, text_of, texts, trimmed, views, white_space,
};

verus! {

/// A part of a path.
pub enum Component {
    /// The slash at the start of an absolute path.
    Root,
    /// A single dot at the start.
    Current,
    /// Two dots.
    Parent,
    /// A name.
    Normal(String),
}

/// The view of a [`Component`].
pub enum ComponentView {
    Root,
    Current,
    Parent,
    Normal(Seq<char>),
}

impl View for Component {
    type V = ComponentView;

    open spec fn view(&self) -> ComponentView {
        match self {
            Component::Root => ComponentView::Root,
            Component::Current => ComponentView::Current,
            Component::Parent => ComponentView::Parent,
            Component::Normal(name) => ComponentView::Normal(name@),
        }
    }
}

/// The views of components.
pub open spec fn component_views(components: Seq<Component>) -> Seq<ComponentView> {
    Seq::new(components.len(), |i: int| components[i]@)
}

/// Whether a path starts at the root of the file system.
pub open spec fn absolute(path: Seq<char>) -> bool {
    path.len() > 0 && path[0] == '/'
}

/// What a piece between slashes stands for: nothing if it is empty, or a single dot that
/// is not the first piece.
pub open spec fn piece_components(piece: Seq<char>, first: bool) -> Seq<ComponentView> {
    if piece.len() == 0 {
        seq![]
    } else if piece == "."@ {
        if first {
            seq![ComponentView::Current]
        } else {
            seq![]
        }
    } else if piece == ".."@ {
        seq![ComponentView::Parent]
    } else {
        seq![ComponentView::Normal(piece)]
    }
}

/// What the pieces between slashes stand for.
pub open spec fn pieces_components(pieces: Seq<Seq<char>>) -> Seq<ComponentView>
    decreases pieces.len(),
{
    if pieces.len() == 0 {
        seq![]
    } else {
        pieces_components(pieces.drop_last()) + piece_components(pieces.last(), pieces.len() == 1)
    }
}

/// The components of a path.
pub open spec fn components_spec(path: Seq<char>) -> Seq<ComponentView> {
    let named = pieces_components(split_spec(path, CharSet::One('/')));
    if absolute(path) {
        seq![ComponentView::Root] + named
    } else {
        named
    }
}

/// The components of a path.
pub fn components(path: &str) -> (r: Vec<Component>)
    ensures
        component_views(r@) == components_spec(path@),
{
    let chars = chars_of(path);
    let pieces = split(chars.as_slice(), CharSet::One('/'));
    let mut r: Vec<Component> = Vec::new();
    let ghost start: Seq<ComponentView> = if absolute(path@) {
        seq![ComponentView::Root]
    } else {
        seq![]
    };
    if chars.len() > 0 && chars[0] == '/' {
        r.push(Component::Root);
    }
    assert(component_views(r@) =~= start);
    let dot = chars_of(".");
    let dots = chars_of("..");
    let mut i: usize = 0;
    assert(views(pieces@).take(0) =~= Seq::<Seq<char>>::empty());
    assert(start + pieces_components(views(pieces@).take(0)) =~= start);
    while i < pieces.len()
        invariant
            i <= pieces@.len(),
            dot@ == "."@,
            dots@ == ".."@,
            component_views(r@) == start + pieces_components(views(pieces@).take(i as int)),
        decreases pieces@.len() - i,
    {
        let piece = pieces[i];
        let ghost before = component_views(r@);
        proof {
            let all = views(pieces@);
            assert(all.take(i + 1).drop_last() =~= all.take(i as int));
            assert(all.take(i + 1).last() == piece@);
        }
        if piece.len() == 0 {
        } else if same_chars(piece, dot.as_slice()) {
            if i == 0 {
                r.push(Component::Current);
            }
        } else if same_chars(piece, dots.as_slice()) {
            r.push(Component::Parent);
        } else {
            r.push(Component::Normal(text_of(piece)));
        }
        assert(component_views(r@) =~= before + piece_components(piece@, i == 0));
        assert(component_views(r@) =~= start + pieces_components(views(pieces@).take(i + 1)));
        i += 1;
    }
    assert(views(pieces@).take(i as int) =~= views(pieces@));
    assert(component_views(r@) =~= components_spec(path@));
    r
}

/// The refusal of a path.
pub open spec fn path_escape_spec() -> ErrorView {
    plain_error(
        400,
        "INVALID_PATH"@,
        "path must remain inside the project and may not contain hidden or symlink components"@,
    )
}

/// The refusal of a path.
pub fn path_escape() -> (e: ApiError)
    ensures
        e@ == path_escape_spec(),
{
    ApiError::new(
        400,
        "INVALID_PATH",
        "path must remain inside the project and may not contain hidden or symlink components",
    )
}

/// Whether a component is a name that is not hidden.
pub open spec fn visible(component: ComponentView) -> bool {
    component matches ComponentView::Normal(name) && name[0] != '.'
}

/// Whether a request may name the path: it holds no NUL, is not blank unless `allow_empty`,
/// is not absolute, and every component is a name that is not hidden.
pub open spec fn safe_relative(relative: Seq<char>, allow_empty: bool) -> bool {
    &&& !relative.contains('\0')
    &&& allow_empty || trimmed(relative).len() > 0
    &&& !absolute(relative)
    &&& forall|i: int|
        0 <= i < components_spec(relative).len() ==> visible(#[trigger] components_spec(relative)[i])
}

/// The names that a path is made of.
pub open spec fn names_of(components: Seq<ComponentView>) -> Seq<Seq<char>> {
    Seq::new(components.len(), |i: int| components[i]->Normal_0)
}

/// The names that a path is made of, if a request may name it.
pub open spec fn relative_names(relative: Seq<char>, allow_empty: bool) -> Result<
    Seq<Seq<char>>,
    ErrorView,
> {
    if safe_relative(relative, allow_empty) {
        Ok(names_of(components_spec(relative)))
    } else {
        Err(path_escape_spec())
    }
}

/// Every name is the name of some component, so none is empty.
proof fn lemma_names_not_empty(pieces: Seq<Seq<char>>)
    ensures
        forall|i: int|
            0 <= i < pieces_components(pieces).len() ==> (#[trigger] pieces_components(
                pieces,
            )[i] matches ComponentView::Normal(name) ==> name.len() > 0),
    decreases pieces.len(),
{
    if pieces.len() > 0 {
        lemma_names_not_empty(pieces.drop_last());
    }
}

/// The view of the outcome of [`split_relative`].
pub open spec fn names_outcome(r: Result<Vec<String>, ApiError>) -> Result<
    Seq<Seq<char>>,
    ErrorView,
> {
    match r {
        Ok(names) => Ok(texts(names@)),
        Err(error) => Err(error@),
    }
}

/// The names that a path is made of, if a request may name it.
pub fn split_relative(relative: &str, allow_empty: bool) -> (r: Result<Vec<String>, ApiError>)
    ensures
        names_outcome(r) == relative_names(relative@, allow_empty),
{
    let chars = chars_of(relative);
    if has_char(chars.as_slice(), '\0') || (!allow_empty && is_blank(relative)) || (chars.len() > 0
        && chars[0] == '/') {
        return Err(path_escape());
    }
    let parts = components(relative);
    let ghost all = components_spec(relative@);
    proof {
        lemma_names_not_empty(split_spec(relative@, CharSet::One('/')));
    }
    let mut names: Vec<String> = Vec::new();
    let mut i: usize = 0;
    while i < parts.len()
        invariant
            i <= parts@.len(),
            all == components_spec(relative@),
            component_views(parts@) == all,
            forall|j: int|
                0 <= j < all.len() ==> (#[trigger] all[j] matches ComponentView::Normal(name)
                    ==> name.len() > 0),
            forall|j: int| 0 <= j < i ==> visible(#[trigger] all[j]),
            texts(names@) == names_of(all).take(i as int),
        decreases parts@.len() - i,
    {
        assert(all[i as int] == parts@[i as int]@);
        match &parts[i] {
            Component::Normal(name) => {
                if chars_of(name.as_str())[0] == '.' {
                    assert(!visible(all[i as int]));
                    return Err(path_escape());
                }
                let ghost before = texts(names@);
                names.push(name.clone());
                assert(texts(names@) =~= before.push(name@));
                assert(names_of(all).take(i + 1) =~= names_of(all).take(i as int).push(name@));
            },
            _ => {
                assert(!visible(all[i as int]));
                return Err(path_escape());
            },
        }
        i += 1;
    }
    assert(texts(names@) =~= names_of(all));
    Ok(names)
}

/// Refuses a path that a request may not name.
pub fn validate_relative(relative: &str, allow_empty: bool) -> (r: Result<(), ApiError>)
    ensures
        verdict(r) == if safe_relative(relative@, allow_empty) {
            Ok::<(), ErrorView>(())
        } else {
            Err(path_escape_spec())
        },
{
    match split_relative(relative, allow_empty) {
        Ok(_) => Ok(()),
        Err(error) => Err(error),
    }
}

/// The path that is given, unless it is missing or blank.
pub open spec fn required_path_spec(path: Option<Seq<char>>) -> Result<Seq<char>, ErrorView> {
    match path {
        Some(path) => if trimmed(path).len() == 0 {
            Err(path_escape_spec())
        } else {
            Ok(path)
        },
        None => Err(path_escape_spec()),
    }
}

/// The path that is given, unless it is missing or blank.
pub fn required_path(path: Option<String>) -> (r: Result<String, ApiError>)
    ensures
        outcome(r) == required_path_spec(optional(path)),
{
    match path {
        Some(path) => if is_blank(path.as_str()) {
            Err(path_escape())
        } else {
            Ok(path)
        },
        None => Err(path_escape()),
    }
}

/// `base` followed by one more part.
pub open spec fn join_spec(base: Seq<char>, part: Seq<char>) -> Seq<char> {
    if absolute(part) {
        part
    } else if base.len() == 0 || base.last() == '/' {
        base + part
    } else {
        base + "/"@ + part
    }
}

/// `base` followed by one more part.
pub fn join(base: &str, part: &str) -> (r: String)
    ensures
        r@ == join_spec(base@, part@),
{
    let head = chars_of(base);
    let tail = chars_of(part);
    if tail.len() > 0 && tail[0] == '/' {
        return part.to_owned();
    }
    if head.len() == 0 || head[head.len() - 1] == '/' {
        return base.to_owned().concat(part);
    }
    base.to_owned().concat("/").concat(part)
}

/// `base` followed by parts.
pub open spec fn join_all(base: Seq<char>, parts: Seq<Seq<char>>) -> Seq<char>
    decreases parts.len(),
{
    if parts.len() == 0 {
        base
    } else {
        join_spec(join_all(base, parts.drop_last()), parts.last())
    }
}

/// Whether `path` lies at or below `base`: its components begin with those of `base`.
pub open spec fn below(path: Seq<char>, base: Seq<char>) -> bool {
    components_spec(base).is_prefix_of(components_spec(path))
}

/// Whether two components are equal.
fn same_component(a: &Component, b: &Component) -> (r: bool)
    ensures
        r == (a@ == b@),
{
    match (a, b) {
        (Component::Root, Component::Root) => true,
        (Component::Current, Component::Current) => true,
        (Component::Parent, Component::Parent) => true,
        (Component::Normal(x), Component::Normal(y)) => same(x.as_str(), y.as_str()),
        _ => false,
    }
}

/// Whether the first components of `path` are those of `base`.
fn components_start_with(path: &Vec<Component>, base: &Vec<Component>) -> (r: bool)
    ensures
        r == component_views(base@).is_prefix_of(component_views(path@)),
{
    let ghost all = component_views(path@);
    let ghost head = component_views(base@);
    if base.len() > path.len() {
        return false;
    }
    let mut i: usize = 0;
    while i < base.len()
        invariant
            i <= base@.len() <= path@.len(),
            all == component_views(path@),
            head == component_views(base@),
            forall|j: int| 0 <= j < i ==> #[trigger] all[j] == head[j],
        decreases base@.len() - i,
    {
        if !same_component(&path[i], &base[i]) {
            assert(all[i as int] != head[i as int]);
            return false;
        }
        assert(all[i as int] == head[i as int]);
        i += 1;
    }
    assert(head =~= all.subrange(0, head.len() as int));
    true
}

/// Decides [`below`].
pub fn path_starts_with(path: &str, base: &str) -> (r: bool)
    ensures
        r == below(path@, base@),
{
    let all = components(path);
    let head = components(base);
    components_start_with(&all, &head)
}

/// Whether two paths have the same components.
pub open spec fn same_place(a: Seq<char>, b: Seq<char>) -> bool {
    components_spec(a) == components_spec(b)
}

/// Whether two paths have the same components.
pub fn same_path(a: &str, b: &str) -> (r: bool)
    ensures
        r == same_place(a@, b@),
{
    let left = components(a);
    let right = components(b);
    let r = left.len() == right.len() && components_start_with(&left, &right);
    proof {
        let x = component_views(left@);
        let y = component_views(right@);
        if r {
            assert(x.subrange(0, y.len() as int) =~= x);
        } else if x == y {
            assert(x.subrange(0, y.len() as int) =~= x);
        }
    }
    r
}

/// The components of `path` that come after those of `base`.
pub open spec fn rest_below(path: Seq<char>, base: Seq<char>) -> Seq<ComponentView> {
    components_spec(path).skip(components_spec(base).len() as int)
}

/// The pieces without those at the end that stand for nothing.
pub open spec fn cut_end(pieces: Seq<Seq<char>>) -> Seq<Seq<char>>
    decreases pieces.len(),
{
    if pieces.len() > 0 && piece_components(pieces.last(), pieces.len() == 1).len() == 0 {
        cut_end(pieces.drop_last())
    } else {
        pieces
    }
}

/// The pieces from the one on that stands for the component at place `n`.
pub open spec fn pieces_from(pieces: Seq<Seq<char>>, n: int) -> Seq<Seq<char>>
    decreases pieces.len(),
{
    if pieces_components(pieces).len() <= n || pieces.len() == 0 {
        seq![]
    } else {
        pieces_from(pieces.drop_last(), n).push(pieces.last())
    }
}

/// How many components of a path are pieces between slashes.
pub open spec fn named_components(path: Seq<char>) -> int {
    components_spec(path).len() - if absolute(path) {
        1int
    } else {
        0
    }
}

/// The text of a path below another, if it lies there: what comes after the components of the
/// other, as it is written. Slashes and single dots are cut off at its ends alone. Below the empty
/// path it is the path, cut off at its end.
pub open spec fn text_below(path: Seq<char>, base: Seq<char>) -> Option<Seq<char>> {
    let pieces = split_spec(path, CharSet::One('/'));
    if !below(path, base) {
        None
    } else if base.len() > 0 {
        Some(joined(cut_end(pieces_from(pieces, named_components(base))), "/"@))
    } else if absolute(path) && cut_end(pieces).len() == 0 {
        Some("/"@)
    } else {
        Some(joined(cut_end(pieces), "/"@))
    }
}

/// Whether a piece between slashes stands for nothing.
fn stands_for_nothing(piece: &[char], first: bool) -> (r: bool)
    ensures
        r == (piece_components(piece@, first).len() == 0),
{
    piece.len() == 0 || (!first && same_chars(piece, chars_of(".").as_slice()))
}

/// What comes before the component at place `n` is left out, and all that follows is kept.
proof fn lemma_pieces_from(pieces: Seq<Seq<char>>, n: int, start: int)
    requires
        0 <= start <= pieces.len(),
        pieces_components(pieces.take(start)).len() <= n,
        start < pieces.len() ==> pieces_components(pieces.take(start + 1)).len() > n,
    ensures
        pieces_from(pieces, n) == pieces.skip(start),
        start < pieces.len() ==> pieces_components(pieces).len() > n,
    decreases pieces.len(),
{
    if pieces.len() == start {
        assert(pieces.take(start) =~= pieces);
        assert(pieces_from(pieces, n) =~= pieces.skip(start));
    } else if pieces.len() == start + 1 {
        assert(pieces.take(start + 1) =~= pieces);
        assert(pieces.drop_last() =~= pieces.take(start));
        assert(pieces_from(pieces.drop_last(), n) =~= seq![]);
        assert(pieces_from(pieces, n) =~= pieces.skip(start));
    } else {
        let fewer = pieces.drop_last();
        assert(fewer.take(start) =~= pieces.take(start));
        assert(fewer.take(start + 1) =~= pieces.take(start + 1));
        lemma_pieces_from(fewer, n, start);
        assert(pieces_from(pieces, n) =~= pieces.skip(start));
    }
}

/// The place of the piece that stands for the component at place `n`, or the number of pieces.
fn find_piece(pieces: &Vec<&[char]>, n: usize) -> (start: usize)
    ensures
        start <= pieces@.len(),
        pieces_from(views(pieces@), n as int) == views(pieces@).skip(start as int),
{
    let ghost all = views(pieces@);
    let mut passed: usize = 0;
    let mut i: usize = 0;
    assert(all.take(0) =~= Seq::<Seq<char>>::empty());
    while i < pieces.len()
        invariant
            i <= pieces@.len(),
            all == views(pieces@),
            passed == pieces_components(all.take(i as int)).len(),
            passed <= n,
        decreases pieces@.len() - i,
    {
        proof {
            assert(all.take(i + 1).drop_last() =~= all.take(i as int));
            assert(all.take(i + 1).last() == pieces@[i as int]@);
        }
        if !stands_for_nothing(pieces[i], i == 0) {
            if passed == n {
                proof {
                    lemma_pieces_from(all, n as int, i as int);
                }
                return i;
            }
            passed += 1;
        }
        i += 1;
    }
    proof {
        lemma_pieces_from(all, n as int, i as int);
    }
    i
}

/// The text of the pieces from `start` on, without those at the end that stand for nothing, and
/// whether there are any.
fn join_from(pieces: &Vec<&[char]>, start: usize) -> (r: (String, bool))
    requires
        start <= pieces@.len(),
    ensures
        r.0@ == joined(cut_end(views(pieces@).skip(start as int)), "/"@),
        r.1 == (cut_end(views(pieces@).skip(start as int)).len() > 0),
{
    let ghost all = views(pieces@);
    let mut end: usize = pieces.len();
    assert(all.subrange(start as int, end as int) =~= all.skip(start as int));
    while end > start && stands_for_nothing(pieces[end - 1], end - start == 1)
        invariant
            start <= end <= pieces@.len(),
            all == views(pieces@),
            cut_end(all.skip(start as int)) == cut_end(all.subrange(start as int, end as int)),
        decreases end,
    {
        let ghost part = all.subrange(start as int, end as int);
        assert(part.last() == pieces@[end - 1]@);
        assert(part.drop_last() =~= all.subrange(start as int, end - 1));
        end -= 1;
    }
    let ghost part = all.subrange(start as int, end as int);
    assert(end > start ==> part.last() == pieces@[end - 1]@);
    assert(cut_end(part) == part);
    let mut kept: Vec<&[char]> = Vec::new();
    let mut i: usize = start;
    while i < end
        invariant
            start <= i <= end <= pieces@.len(),
            all == views(pieces@),
            views(kept@) == all.subrange(start as int, i as int),
        decreases end - i,
    {
        let ghost before = views(kept@);
        let piece = pieces[i];
        kept.push(piece);
        assert(views(kept@) =~= before.push(piece@));
        assert(views(kept@) =~= all.subrange(start as int, i + 1));
        i += 1;
    }
    proof {
        reveal_strlit("/");
        assert("/"@ =~= seq!['/']);
        assert(views(kept@) =~= part);
    }
    (text_of(join_parts(&kept, '/').as_slice()), end > start)
}

/// The text of a path below another, if it lies there.
pub fn strip_base(path: &str, base: &str) -> (r: Option<String>)
    ensures
        optional(r) == text_below(path@, base@),
{
    let all = components(path);
    let head = components(base);
    if !components_start_with(&all, &head) {
        return None;
    }
    let chars = chars_of(path);
    let pieces = split(chars.as_slice(), CharSet::One('/'));
    let ghost whole = split_spec(path@, CharSet::One('/'));
    let other = chars_of(base);
    if other.len() > 0 {
        let named: usize = if other[0] == '/' {
            head.len() - 1
        } else {
            head.len()
        };
        let start: usize = find_piece(&pieces, named);
        return Some(join_from(&pieces, start).0);
    }
    assert(whole.skip(0) =~= whole);
    let (text, any) = join_from(&pieces, 0);
    if !any && chars.len() > 0 && chars[0] == '/' {
        Some("/".to_owned())
    } else {
        Some(text)
    }
}

/// A path relative to a root: what comes after the root, with slashes for backslashes.
pub open spec fn relative_spec(root: Seq<char>, path: Seq<char>) -> Result<Seq<char>, ErrorView> {
    match text_below(path, root) {
        Some(text) => Ok(replace_char_spec(text, '\\', '/')),
        None => Err(path_escape_spec()),
    }
}

/// A path relative to a root.
pub fn relative_string(root: &str, path: &str) -> (r: Result<String, ApiError>)
    ensures
        outcome(r) == relative_spec(root@, path@),
{
    match strip_base(path, root) {
        Some(text) => {
            let chars = chars_of(text.as_str());
            Ok(text_of(replace_char(chars.as_slice(), '\\', '/').as_slice()))
        },
        None => Err(path_escape()),
    }
}

/// Whether a component is a hidden name.
pub open spec fn hidden(component: ComponentView) -> bool {
    component matches ComponentView::Normal(name) && name.len() > 0 && name[0] == '.'
}

/// Whether a path is hidden below a root: it does not lie there, or a part of it is hidden.
pub open spec fn hidden_below(root: Seq<char>, path: Seq<char>) -> bool {
    ||| !below(path, root)
    ||| exists|i: int|
        0 <= i < rest_below(path, root).len() && hidden(#[trigger] rest_below(path, root)[i])
}

/// Whether a path is hidden below a root.
pub fn is_hidden_relative(root: &str, path: &str) -> (r: bool)
    ensures
        r == hidden_below(root@, path@),
{
    let all = components(path);
    let head = components(root);
    if !components_start_with(&all, &head) {
        return true;
    }
    let ghost rest = rest_below(path@, root@);
    let start: usize = head.len();
    let mut i: usize = start;
    while i < all.len()
        invariant
            start <= i <= all@.len(),
            start == components_spec(root@).len(),
            component_views(all@) == components_spec(path@),
            rest == rest_below(path@, root@),
            below(path@, root@),
            forall|j: int| 0 <= j < i - start ==> !hidden(#[trigger] rest[j]),
        decreases all@.len() - i,
    {
        assert(component_views(all@)[i as int] == all@[i as int]@);
        assert(rest[i - start] == all@[i as int]@);
        if let Component::Normal(name) = &all[i] {
            let chars = chars_of(name.as_str());
            if chars.len() > 0 && chars[0] == '.' {
                assert(hidden(rest[i - start]));
                return true;
            }
        }
        i += 1;
    }
    false
}

/// The last name of a path, if it ends with one.
pub open spec fn file_name_spec(path: Seq<char>) -> Option<Seq<char>> {
    let all = components_spec(path);
    if all.len() > 0 && all.last() is Normal {
        Some(all.last()->Normal_0)
    } else {
        None
    }
}

/// The last name of a path, if it ends with one.
pub fn file_name(path: &str) -> (r: Option<String>)
    ensures
        optional(r) == file_name_spec(path@),
{
    let all = components(path);
    if all.len() == 0 {
        return None;
    }
    let last: usize = all.len() - 1;
    assert(component_views(all@)[last as int] == all@[last as int]@);
    match &all[last] {
        Component::Normal(name) => Some(name.clone()),
        _ => None,
    }
}

/// The kinds of failures of the file system that answers tell apart.
pub enum IoKind {
    /// There is no such file.
    NotFound,
    /// There is such a file already.
    AlreadyExists,
    /// Anything else.
    Other,
}

/// What went wrong with a file.
pub struct IoFailure {
    pub kind: IoKind,
    pub message: String,
}

/// The view of an [`IoFailure`].
pub struct FailureView {
    pub kind: IoKind,
    pub message: Seq<char>,
}

impl View for IoFailure {
    type V = FailureView;

    open spec fn view(&self) -> FailureView {
        FailureView { kind: self.kind, message: self.message@ }
    }
}

/// The answer to a failure of the file system.
pub open spec fn io_error_spec(failure: FailureView) -> ErrorView {
    plain_error(500, "IO_ERROR"@, failure.message)
}

/// The answer to a failure of the file system.
pub fn io_error(failure: &IoFailure) -> (e: ApiError)
    ensures
        e@ == io_error_spec(failure@),
{
    ApiError::new(500, "IO_ERROR", failure.message.as_str())
}

/// The answer to a failure of the file system where the file may be missing.
pub open spec fn not_found_io_spec(failure: FailureView) -> ErrorView {
    if failure.kind is NotFound {
        plain_error(404, "FILE_NOT_FOUND"@, "file not found"@)
    } else {
        io_error_spec(failure)
    }
}

/// The answer to a failure of the file system where the file may be missing.
pub fn not_found_io(failure: &IoFailure) -> (e: ApiError)
    ensures
        e@ == not_found_io_spec(failure@),
{
    match failure.kind {
        IoKind::NotFound => ApiError::new(404, "FILE_NOT_FOUND", "file not found"),
        _ => io_error(failure),
    }
}

/// The view of what the file system answered with a path.
pub open spec fn resolved(r: Result<String, IoFailure>) -> Result<Seq<char>, FailureView> {
    match r {
        Ok(path) => Ok(path@),
        Err(failure) => Err(failure@),
    }
}

/// The directory of an existing project: its canonical path, if it lies in the workspace.
pub open spec fn workspace_relative_spec(
    root: Seq<char>,
    relative: Seq<char>,
    canonical: Result<Seq<char>, FailureView>,
) -> Result<Seq<char>, ErrorView> {
    if !safe_relative(relative, false) {
        Err(path_escape_spec())
    } else {
        match canonical {
            Err(failure) => Err(not_found_io_spec(failure)),
            Ok(path) => if below(path, root) {
                Ok(path)
            } else {
                Err(path_escape_spec())
            },
        }
    }
}

/// The directory of an existing project. `canonical` is how the file system resolved
/// `root` followed by `relative`.
pub fn workspace_relative(
    root: &str,
    relative: &str,
    canonical: Result<String, IoFailure>,
) -> (r: Result<String, ApiError>)
    ensures
        outcome(r) == workspace_relative_spec(root@, relative@, resolved(canonical)),
{
    match validate_relative(relative, false) {
        Ok(()) => {},
        Err(error) => {
            return Err(error);
        },
    }
    match canonical {
        Err(failure) => Err(not_found_io(&failure)),
        Ok(path) => if path_starts_with(path.as_str(), root) {
            Ok(path)
        } else {
            Err(path_escape())
        },
    }
}

/// What the file system says of the parts of a path.
pub struct PathFacts {
    /// Whether each directory on the way to the target, and the target, is a symbolic link.
    pub links: Vec<bool>,
    /// Whether the root, each directory on the way to the target, and the target exist.
    pub exists: Vec<bool>,
    /// The canonical path of the last of them that exists.
    pub canonical: Result<String, IoFailure>,
}

/// The path that a request names inside a project: the root followed by the names, unless
/// a symbolic link is on the way, nothing on the way exists, or what exists leads outside.
pub open spec fn safe_path_spec(
    root: Seq<char>,
    relative: Seq<char>,
    allow_empty: bool,
    links: Seq<bool>,
    exists: Seq<bool>,
    canonical: Result<Seq<char>, FailureView>,
) -> Result<Seq<char>, ErrorView> {
    match relative_names(relative, allow_empty) {
        Err(error) => Err(error),
        Ok(names) => if relative.len() == 0 {
            Ok(root)
        } else if links.contains(true) || !exists.contains(true) {
            Err(path_escape_spec())
        } else {
            match canonical {
                Err(failure) => Err(io_error_spec(failure)),
                Ok(path) => if below(path, root) {
                    Ok(join_all(root, names))
                } else {
                    Err(path_escape_spec())
                },
            }
        },
    }
}

/// Whether any of the flags is set.
fn any(flags: &Vec<bool>) -> (r: bool)
    ensures
        r == flags@.contains(true),
{
    let mut i: usize = 0;
    while i < flags.len()
        invariant
            i <= flags@.len(),
            forall|j: int| 0 <= j < i ==> !#[trigger] flags@[j],
        decreases flags@.len() - i,
    {
        if flags[i] {
            assert(flags@[i as int] == true);
            return true;
        }
        i += 1;
    }
    false
}

/// The place of the last flag that is set.
pub fn nearest_existing(exists: &Vec<bool>) -> (r: Option<usize>)
    ensures
        match r {
            Some(at) => at < exists@.len() && exists@[at as int] && forall|j: int|
                at < j < exists@.len() ==> !#[trigger] exists@[j],
            None => !exists@.contains(true),
        },
{
    let mut i: usize = exists.len();
    while i > 0
        invariant
            i <= exists@.len(),
            forall|j: int| i <= j < exists@.len() ==> !#[trigger] exists@[j],
        decreases i,
    {
        i -= 1;
        if exists[i] {
            return Some(i);
        }
    }
    None
}

/// The root, each directory on the way to the target, and the target.
pub fn path_prefixes(root: &str, names: &Vec<String>) -> (r: Vec<String>)
    ensures
        r@.len() == names@.len() + 1,
        forall|k: int|
            0 <= k < r@.len() ==> (#[trigger] r@[k])@ == join_all(root@, texts(names@).take(k)),
{
    let mut r: Vec<String> = Vec::new();
    let mut current: String = root.to_owned();
    assert(texts(names@).take(0) =~= Seq::<Seq<char>>::empty());
    r.push(current.clone());
    let mut i: usize = 0;
    while i < names.len()
        invariant
            i <= names@.len(),
            r@.len() == i + 1,
            current@ == join_all(root@, texts(names@).take(i as int)),
            forall|k: int|
                0 <= k < r@.len() ==> (#[trigger] r@[k])@ == join_all(
                    root@,
                    texts(names@).take(k),
                ),
        decreases names@.len() - i,
    {
        proof {
            let all = texts(names@);
            assert(all.take(i + 1).drop_last() =~= all.take(i as int));
        }
        current = join(current.as_str(), names[i].as_str());
        r.push(current.clone());
        i += 1;
    }
    r
}

/// The path that a request names inside a project. `facts` speaks of the parts of the path
/// in the order of [`path_prefixes`].
pub fn safe_project_path(
    root: &str,
    relative: &str,
    allow_empty: bool,
    facts: &PathFacts,
) -> (r: Result<String, ApiError>)
    ensures
        outcome(r) == safe_path_spec(
            root@,
            relative@,
            allow_empty,
            facts.links@,
            facts.exists@,
            resolved(facts.canonical),
        ),
{
    let names = match split_relative(relative, allow_empty) {
        Ok(names) => names,
        Err(error) => {
            return Err(error);
        },
    };
    if chars_of(relative).len() == 0 {
        return Ok(root.to_owned());
    }
    if any(&facts.links) || !any(&facts.exists) {
        return Err(path_escape());
    }
    match &facts.canonical {
        Err(failure) => Err(io_error(failure)),
        Ok(path) => if path_starts_with(path.as_str(), root) {
            let prefixes = path_prefixes(root, &names);
            assert(texts(names@).take(names@.len() as int) =~= texts(names@));
            Ok(prefixes[names.len()].clone())
        } else {
            Err(path_escape())
        },
    }
}

/// A name that holds no slash and is not made of dots adds itself to the components.
proof fn lemma_join_components(base: Seq<char>, name: Seq<char>)
    requires
        name.len() > 0,
        name[0] != '.',
        !name.contains('/'),
    ensures
        components_spec(join_spec(base, name)) == components_spec(base).push(
            ComponentView::Normal(name),
        ),
{
    reveal_strlit(".");
    reveal_strlit("..");
    reveal_strlit("/");
    let set = CharSet::One('/');
    assert(name.contains(name[0]));
    assert(!absolute(name));
    let joined = join_spec(base, name);
    assert(piece_components(name, false) =~= seq![ComponentView::Normal(name)]);
    assert(piece_components(name, true) =~= seq![ComponentView::Normal(name)]);
    if base.len() == 0 {
        assert(joined =~= name);
        assert(split_spec(base, set) =~= seq![base]);
        lemma_index_in(name, set);
        if let Some(i) = index_in(name, set) {
            assert(name.contains(name[i]));
        }
        assert(split_spec(name, set) =~= seq![name]);
        let one = seq![base];
        assert(one.drop_last() =~= Seq::<Seq<char>>::empty());
        assert(pieces_components(one.drop_last()) =~= Seq::<ComponentView>::empty());
        assert(pieces_components(one) =~= Seq::<ComponentView>::empty());
        let only = seq![name];
        assert(only.drop_last() =~= Seq::<Seq<char>>::empty());
        assert(pieces_components(only) =~= seq![ComponentView::Normal(name)]);
    } else if base.last() == '/' {
        let head = base.drop_last();
        assert(base =~= head + seq!['/'] + Seq::<char>::empty());
        assert(joined =~= head + seq!['/'] + name);
        lemma_split_push(head, '/', Seq::<char>::empty());
        lemma_split_push(head, '/', name);
        lemma_push_piece(split_spec(head, set), Seq::<char>::empty());
        lemma_split_pieces(head, set);
        lemma_push_piece(split_spec(head, set), name);
        assert(joined[0] == base[0]);
    } else {
        assert(joined =~= base + seq!['/'] + name);
        lemma_split_push(base, '/', name);
        lemma_split_pieces(base, set);
        lemma_push_piece(split_spec(base, set), name);
        assert(joined[0] == base[0]);
    }
    assert(components_spec(joined) =~= components_spec(base).push(ComponentView::Normal(name)));
}

/// One more piece adds what it stands for.
proof fn lemma_push_piece(pieces: Seq<Seq<char>>, piece: Seq<char>)
    ensures
        pieces_components(pieces.push(piece)) == pieces_components(pieces) + piece_components(
            piece,
            pieces.len() == 0,
        ),
{
    assert(pieces.push(piece).drop_last() =~= pieces);
}

/// Every name comes from a piece of the path.
proof fn lemma_names_are_pieces(pieces: Seq<Seq<char>>)
    ensures
        forall|i: int|
            0 <= i < pieces_components(pieces).len() ==> (#[trigger] pieces_components(
                pieces,
            )[i] matches ComponentView::Normal(name) ==> pieces.contains(name)),
    decreases pieces.len(),
{
    if pieces.len() > 0 {
        let rest = pieces.drop_last();
        lemma_names_are_pieces(rest);
        assert forall|i: int| 0 <= i < pieces_components(pieces).len() implies (
        #[trigger] pieces_components(pieces)[i] matches ComponentView::Normal(name)
            ==> pieces.contains(name)) by {
            if i < pieces_components(rest).len() {
                assert(pieces_components(pieces)[i] == pieces_components(rest)[i]);
                if let ComponentView::Normal(name) = pieces_components(rest)[i] {
                    assert(rest.contains(name));
                    let at = choose|at: int| 0 <= at < rest.len() && rest[at] == name;
                    assert(pieces[at] == name);
                }
            } else {
                assert(pieces[pieces.len() - 1] == pieces.last());
            }
        }
    }
}

/// The last name of a path is no longer than the path.
pub proof fn lemma_file_name_fits(path: Seq<char>)
    ensures
        file_name_spec(path) matches Some(name) ==> name.len() <= path.len(),
{
    let set = CharSet::One('/');
    let pieces = split_spec(path, set);
    let named = pieces_components(pieces);
    if let Some(name) = file_name_spec(path) {
        lemma_names_are_pieces(pieces);
        lemma_split_lengths(path, set);
        assert(components_spec(path).last() == named[named.len() - 1]);
        assert(pieces.contains(name));
        let at = choose|at: int| 0 <= at < pieces.len() && pieces[at] == name;
        assert(pieces[at].len() <= path.len());
    }
}

/// Every name of a path that a request may use is visible, and holds neither a slash nor
/// a NUL.
pub proof fn law_names_are_plain(relative: Seq<char>, allow_empty: bool)
    requires
        safe_relative(relative, allow_empty),
    ensures
        relative_names(relative, allow_empty) matches Ok(names) && forall|i: int|
            0 <= i < names.len() ==> {
                let name = #[trigger] names[i];
                name.len() > 0 && name[0] != '.' && !name.contains('/') && !name.contains('\0')
            },
{
    let set = CharSet::One('/');
    let pieces = split_spec(relative, set);
    let all = components_spec(relative);
    let names = names_of(all);
    lemma_split_pieces(relative, set);
    lemma_names_not_empty(pieces);
    lemma_names_are_pieces(pieces);
    assert forall|i: int| 0 <= i < names.len() implies {
        let name = #[trigger] names[i];
        name.len() > 0 && name[0] != '.' && !name.contains('/') && !name.contains('\0')
    } by {
        assert(visible(all[i]));
        let name = all[i]->Normal_0;
        assert(pieces.contains(name));
        let at = choose|at: int| 0 <= at < pieces.len() && pieces[at] == name;
        if name.contains('/') {
            let j = choose|j: int| 0 <= j < name.len() && name[j] == '/';
            assert(!set.has(pieces[at][j]));
        }
        if name.contains('\0') {
            let j = choose|j: int| 0 <= j < name.len() && name[j] == '\0';
            assert(relative.contains(pieces[at][j]));
        }
    }
}

/// The components of a path below a root are those of the root and then the names.
proof fn lemma_join_all_components(root: Seq<char>, names: Seq<Seq<char>>)
    requires
        forall|i: int|
            0 <= i < names.len() ==> {
                let name = #[trigger] names[i];
                name.len() > 0 && name[0] != '.' && !name.contains('/')
            },
    ensures
        components_spec(join_all(root, names)) == components_spec(root) + Seq::new(
            names.len(),
            |i: int| ComponentView::Normal(names[i]),
        ),
    decreases names.len(),
{
    let tail = Seq::new(names.len(), |i: int| ComponentView::Normal(names[i]));
    if names.len() == 0 {
        assert(components_spec(root) + tail =~= components_spec(root));
    } else {
        let rest = names.drop_last();
        assert forall|i: int| 0 <= i < rest.len() implies {
            let name = #[trigger] rest[i];
            name.len() > 0 && name[0] != '.' && !name.contains('/')
        } by {
            assert(rest[i] == names[i]);
        }
        lemma_join_all_components(root, rest);
        lemma_join_components(join_all(root, rest), names[names.len() - 1]);
        let head = Seq::new(rest.len(), |i: int| ComponentView::Normal(rest[i]));
        assert(tail =~= head.push(ComponentView::Normal(names.last())));
        assert(components_spec(root) + tail =~= (components_spec(root) + head).push(
            ComponentView::Normal(names.last()),
        ));
    }
}

/// A path that is granted to a request lies at or below the root, whatever the file system
/// says, and what follows the root is what the request named.
pub proof fn law_granted_path_is_inside(
    root: Seq<char>,
    relative: Seq<char>,
    allow_empty: bool,
    links: Seq<bool>,
    exists: Seq<bool>,
    canonical: Result<Seq<char>, FailureView>,
)
    requires
        safe_path_spec(root, relative, allow_empty, links, exists, canonical) is Ok,
    ensures
        safe_path_spec(root, relative, allow_empty, links, exists, canonical) matches Ok(path)
            && below(path, root) && components_spec(path) == components_spec(root)
            + components_spec(relative),
{
    law_names_are_plain(relative, allow_empty);
    let all = components_spec(relative);
    let names = names_of(all);
    lemma_join_all_components(root, names);
    assert forall|i: int| 0 <= i < all.len() implies all[i] == ComponentView::Normal(
        #[trigger] names[i],
    ) by {
        assert(visible(all[i]));
    }
    assert(Seq::new(names.len(), |i: int| ComponentView::Normal(names[i])) =~= all);
    if relative.len() == 0 {
        let set = CharSet::One('/');
        assert(split_spec(relative, set) =~= seq![relative]);
        let one = seq![relative];
        assert(one.drop_last() =~= Seq::<Seq<char>>::empty());
        assert(pieces_components(one.drop_last()) =~= Seq::<ComponentView>::empty());
        assert(all =~= Seq::<ComponentView>::empty());
        assert(components_spec(root) + all =~= components_spec(root));
    }
    let path = safe_path_spec(root, relative, allow_empty, links, exists, canonical)->Ok_0;
    assert(components_spec(root) =~= components_spec(path).subrange(
        0,
        components_spec(root).len() as int,
    ));
}

/// A request that names a symbolic link, or anything below one, is refused.
pub proof fn law_links_are_refused(
    root: Seq<char>,
    relative: Seq<char>,
    allow_empty: bool,
    links: Seq<bool>,
    exists: Seq<bool>,
    canonical: Result<Seq<char>, FailureView>,
)
    requires
        relative.len() > 0,
        links.contains(true),
    ensures
        safe_path_spec(root, relative, allow_empty, links, exists, canonical) == Err::<
            Seq<char>,
            ErrorView,
        >(path_escape_spec()),
{
}

/// The directory of a registered project lies in the workspace.
pub proof fn law_project_is_in_workspace(
    root: Seq<char>,
    relative: Seq<char>,
    canonical: Result<Seq<char>, FailureView>,
)
    ensures
        workspace_relative_spec(root, relative, canonical) matches Ok(path) ==> below(path, root),
{
}

/// Pieces at the end that stand for nothing add nothing.
proof fn lemma_cut_end(pieces: Seq<Seq<char>>)
    ensures
        pieces_components(cut_end(pieces)) == pieces_components(pieces),
        cut_end(pieces).len() <= pieces.len(),
        cut_end(pieces) == pieces.take(cut_end(pieces).len() as int),
        cut_end(pieces).len() > 0 ==> piece_components(
            cut_end(pieces).last(),
            cut_end(pieces).len() == 1,
        ).len() > 0,
    decreases pieces.len(),
{
    if pieces.len() > 0 && piece_components(pieces.last(), pieces.len() == 1).len() == 0 {
        let fewer = pieces.drop_last();
        lemma_cut_end(fewer);
        assert(pieces_components(pieces) =~= pieces_components(fewer));
        assert(cut_end(pieces) =~= pieces.take(cut_end(pieces).len() as int));
    } else {
        assert(pieces =~= pieces.take(pieces.len() as int));
    }
}

/// The first piece that is kept stands for the component at place `n`.
proof fn lemma_start_of_rest(pieces: Seq<Seq<char>>, n: int) -> (start: int)
    requires
        0 <= n <= pieces_components(pieces).len(),
    ensures
        0 <= start <= pieces.len(),
        pieces_from(pieces, n) == pieces.skip(start),
        pieces_components(pieces.take(start)).len() == n,
        start < pieces.len() ==> piece_components(pieces[start], start == 0).len() == 1,
    decreases pieces.len(),
{
    if pieces_components(pieces).len() <= n || pieces.len() == 0 {
        let start = pieces.len() as int;
        assert(pieces.take(start) =~= pieces);
        assert(pieces.skip(start) =~= seq![]);
        start
    } else {
        let fewer = pieces.drop_last();
        assert(piece_components(pieces.last(), pieces.len() == 1).len() <= 1);
        let start = lemma_start_of_rest(fewer, n);
        assert(pieces.take(start) =~= fewer.take(start));
        assert(pieces_from(pieces, n) =~= pieces.skip(start));
        if start == fewer.len() {
            assert(fewer.take(start) =~= fewer);
            assert(pieces[start] == pieces.last());
        } else {
            assert(pieces[start] == fewer[start]);
        }
        start
    }
}

/// The components of a path are those of its first pieces and then those of the others, if the
/// others do not begin with a single dot.
proof fn lemma_components_parted(pieces: Seq<Seq<char>>, start: int)
    requires
        0 <= start <= pieces.len(),
        0 < start < pieces.len() ==> pieces[start] != "."@,
    ensures
        pieces_components(pieces) == pieces_components(pieces.take(start)) + pieces_components(
            pieces.skip(start),
        ),
    decreases pieces.len(),
{
    if pieces.len() == start {
        assert(pieces.take(start) =~= pieces);
        assert(pieces_components(pieces.skip(start)) =~= seq![]);
        assert(pieces_components(pieces) =~= pieces_components(pieces.take(start))
            + pieces_components(pieces.skip(start)));
    } else {
        let fewer = pieces.drop_last();
        let rest = pieces.skip(start);
        lemma_components_parted(fewer, start);
        assert(fewer.take(start) =~= pieces.take(start));
        assert(rest.drop_last() =~= fewer.skip(start));
        assert(rest.last() == pieces.last());
        assert(piece_components(rest.last(), rest.len() == 1) == piece_components(
            pieces.last(),
            pieces.len() == 1,
        ));
        assert(pieces_components(pieces) =~= pieces_components(pieces.take(start))
            + pieces_components(rest));
    }
}

/// The empty path has no components.
proof fn lemma_nothing_alone()
    ensures
        split_spec(seq![], CharSet::One('/')) == seq![Seq::<char>::empty()],
        pieces_components(seq![Seq::<char>::empty()]) == Seq::<ComponentView>::empty(),
        components_spec(seq![]) == Seq::<ComponentView>::empty(),
{
    let one = seq![Seq::<char>::empty()];
    assert(split_spec(seq![], CharSet::One('/')) =~= one);
    assert(one.drop_last() =~= seq![]);
    assert(pieces_components(one.drop_last()) =~= seq![]);
    assert(pieces_components(one) =~= seq![]);
}

/// Parts begin with their first, if that is not empty.
proof fn lemma_joined_begins(parts: Seq<Seq<char>>)
    requires
        parts.len() > 0,
    ensures
        parts[0].len() > 0 ==> joined(parts, seq!['/']).len() > 0 && joined(parts, seq!['/'])[0]
            == parts[0][0],
        parts[0].len() == 0 && parts.len() > 1 ==> absolute(joined(parts, seq!['/'])),
    decreases parts.len(),
{
    if parts.len() > 1 {
        let fewer = parts.drop_last();
        lemma_joined_begins(fewer);
        assert(fewer[0] == parts[0]);
        assert(fewer.len() == 1 ==> joined(fewer, seq!['/']) == parts[0]);
    }
}

/// The text of pieces has their components.
proof fn lemma_joined_components(path: Seq<char>, pieces: Seq<Seq<char>>)
    requires
        forall|i: int|
            0 <= i < pieces.len() ==> split_spec(path, CharSet::One('/')).contains(
                #[trigger] pieces[i],
            ),
        pieces.len() == 1 ==> pieces[0].len() > 0,
    ensures
        components_spec(joined(pieces, seq!['/'])) == if pieces.len() > 1 && pieces[0].len() == 0 {
            seq![ComponentView::Root] + pieces_components(pieces)
        } else {
            pieces_components(pieces)
        },
{
    let set = CharSet::One('/');
    let all = split_spec(path, set);
    let text = joined(pieces, seq!['/']);
    lemma_split_pieces(path, set);
    assert forall|i: int| 0 <= i < pieces.len() implies !(#[trigger] pieces[i]).contains('/') by {
        let at = choose|at: int| 0 <= at < all.len() && all[at] == pieces[i];
        if pieces[i].contains('/') {
            let j = choose|j: int| 0 <= j < pieces[i].len() && pieces[i][j] == '/';
            assert(!set.has(all[at][j]));
        }
    }
    if pieces.len() == 0 {
        lemma_nothing_alone();
        assert(text =~= seq![]);
    } else {
        lemma_split_joined(pieces, '/');
        lemma_joined_begins(pieces);
        assert(!pieces[0].contains('/'));
        if pieces[0].len() > 0 {
            assert(pieces[0].contains(pieces[0][0]));
        }
    }
}

/// The first piece of a path is empty exactly if it is empty or absolute.
proof fn lemma_first_piece(path: Seq<char>)
    ensures
        split_spec(path, CharSet::One('/')).len() > 0,
        split_spec(path, CharSet::One('/'))[0].len() == 0 <==> path.len() == 0 || absolute(path),
        absolute(path) ==> split_spec(path, CharSet::One('/')).len() > 1,
{
    let set = CharSet::One('/');
    lemma_index_in(path, set);
    if let Some(i) = index_in(path, set) {
        lemma_split_pieces(path.skip(i + 1), set);
    }
}

/// The root of the file system is one component.
proof fn lemma_root_alone()
    ensures
        components_spec("/"@) == seq![ComponentView::Root],
{
    reveal_strlit("/");
    let nothing = Seq::<char>::empty();
    let pieces = seq![nothing, nothing];
    assert("/"@ =~= nothing + seq!['/'] + nothing);
    lemma_split_push(nothing, '/', nothing);
    lemma_nothing_alone();
    assert(split_spec("/"@, CharSet::One('/')) =~= pieces);
    assert(pieces.drop_last() =~= seq![nothing]);
    assert(pieces_components(pieces) =~= seq![]);
    assert(components_spec("/"@) =~= seq![ComponentView::Root]);
}

/// A path below another is absolute exactly if that is, and has its components.
proof fn lemma_same_start(path: Seq<char>, base: Seq<char>)
    requires
        below(path, base),
        base.len() > 0,
    ensures
        absolute(path) == absolute(base),
        0 <= named_components(base) <= pieces_components(split_spec(path, CharSet::One('/'))).len(),
{
    let all = components_spec(path);
    let head = components_spec(base);
    let set = CharSet::One('/');
    lemma_no_root_among_pieces(split_spec(path, set));
    lemma_no_root_among_pieces(split_spec(base, set));
    lemma_first_piece(base);
    if !absolute(base) {
        lemma_first_piece_counts(split_spec(base, set));
    }
    assert(head.len() > 0);
    assert(head[0] == all[0]);
}

/// No piece stands for the root.
proof fn lemma_no_root_among_pieces(pieces: Seq<Seq<char>>)
    ensures
        forall|i: int|
            0 <= i < pieces_components(pieces).len() ==> !(#[trigger] pieces_components(
                pieces,
            )[i] is Root),
    decreases pieces.len(),
{
    if pieces.len() > 0 {
        lemma_no_root_among_pieces(pieces.drop_last());
    }
}

/// A first piece that is not empty stands for something.
proof fn lemma_first_piece_counts(pieces: Seq<Seq<char>>)
    requires
        pieces.len() > 0,
        pieces[0].len() > 0,
    ensures
        pieces_components(pieces).len() > 0,
    decreases pieces.len(),
{
    if pieces.len() > 1 {
        lemma_first_piece_counts(pieces.drop_last());
    }
}

/// A path that lies below another is that and its text below: the components of the text are
/// those that follow the components of the other.
pub proof fn law_text_below_keeps_components(path: Seq<char>, base: Seq<char>)
    ensures
        text_below(path, base) matches Some(text) ==> components_spec(text) == rest_below(
            path,
            base,
        ),
{
    reveal_strlit("/");
    assert("/"@ =~= seq!['/']);
    if below(path, base) {
        let set = CharSet::One('/');
        let pieces = split_spec(path, set);
        lemma_split_pieces(path, set);
        if base.len() > 0 {
            let n = named_components(base);
            let named = pieces_components(pieces);
            lemma_same_start(path, base);
            let start = lemma_start_of_rest(pieces, n);
            let rest = pieces.skip(start);
            assert(start > 0 && start < pieces.len() ==> pieces[start] != "."@);
            lemma_components_parted(pieces, start);
            assert(pieces_components(rest) =~= rest_below(path, base));
            let kept = cut_end(rest);
            lemma_cut_end(rest);
            assert forall|i: int| 0 <= i < kept.len() implies pieces.contains(
                #[trigger] kept[i],
            ) by {
                assert(kept[i] == pieces[start + i]);
            }
            if kept.len() > 0 {
                assert(kept[0] == pieces[start]);
                assert(kept[0].len() > 0);
            }
            lemma_joined_components(path, kept);
        } else {
            let kept = cut_end(pieces);
            lemma_cut_end(pieces);
            lemma_nothing_alone();
            assert(base =~= seq![]);
            assert(rest_below(path, base) =~= components_spec(path));
            lemma_first_piece(path);
            assert forall|i: int| 0 <= i < kept.len() implies pieces.contains(
                #[trigger] kept[i],
            ) by {
                assert(kept[i] == pieces[i]);
            }
            if kept.len() == 0 && absolute(path) {
                lemma_root_alone();
                assert(components_spec("/"@) =~= components_spec(path));
            } else {
                if kept.len() > 0 {
                    assert(kept[0] == pieces[0]);
                }
                lemma_joined_components(path, kept);
                assert(components_spec(joined(kept, seq!['/'])) =~= components_spec(path));
            }
        }
    }
}

/// The text of pieces that follow each other stands in the text of all.
#[verifier::spinoff_prover]
#[verifier::rlimit(40)]
proof fn lemma_part_stands(pieces: Seq<Seq<char>>, start: int, end: int)
    requires
        0 <= start < end <= pieces.len(),
    ensures
        contains_spec(joined(pieces, seq!['/']), joined(pieces.subrange(start, end), seq!['/'])),
{
    let slash = seq!['/'];
    let whole = joined(pieces, slash);
    let part = joined(pieces.subrange(start, end), slash);
    let front = pieces.take(end);
    let at: int = if start > 0 {
        joined(pieces.take(start), slash).len() + 1int
    } else {
        0
    };
    if start > 0 {
        assert(front =~= pieces.take(start) + pieces.subrange(start, end));
        lemma_joined_concat(pieces.take(start), pieces.subrange(start, end), slash);
    } else {
        assert(front =~= pieces.subrange(start, end));
    }
    if end < pieces.len() {
        assert(pieces =~= front + pieces.skip(end));
        lemma_joined_concat(front, pieces.skip(end), slash);
    } else {
        assert(pieces =~= front);
    }
    assert(whole.subrange(at, at + part.len()) =~= part);
    assert(occurs_at(whole, part, at));
}

/// The text of a path below another stands in the path as it is.
pub proof fn law_text_below_is_as_written(path: Seq<char>, base: Seq<char>)
    ensures
        text_below(path, base) matches Some(text) ==> contains_spec(path, text),
{
    reveal_strlit("/");
    assert("/"@ =~= seq!['/']);
    if let Some(text) = text_below(path, base) {
        let pieces = split_spec(path, CharSet::One('/'));
        lemma_joined_split(path, '/');
        let start = if base.len() > 0 {
            lemma_same_start(path, base);
            lemma_start_of_rest(pieces, named_components(base))
        } else {
            assert(pieces.skip(0) =~= pieces);
            0
        };
        let kept = cut_end(pieces.skip(start));
        lemma_cut_end(pieces.skip(start));
        if kept.len() > 0 {
            assert(kept =~= pieces.subrange(start, start + kept.len()));
            lemma_part_stands(pieces, start, start + kept.len());
        } else {
            assert(text =~= path.subrange(0, text.len() as int));
            assert(occurs_at(path, text, 0));
        }
    }
}

/// The components of a path are what stands between its slashes: a name stands for itself, two
/// dots for the parent, and a single dot, or nothing between two slashes, for no component. Before
/// the first slash a single dot is a component, and a slash at the start is the root.
pub proof fn law_components_stand_between_slashes(path: Seq<char>, name: Seq<char>)
    requires
        path.len() > 0,
        name.len() > 0 && !name.contains('/'),
        name != "."@ && name != ".."@,
    ensures
        components_spec(path + "/"@ + name) == components_spec(path).push(
            ComponentView::Normal(name),
        ),
        components_spec(path + "/"@ + ".."@) == components_spec(path).push(ComponentView::Parent),
        components_spec(path + "/"@ + "."@) == components_spec(path),
        components_spec(path + "/"@) == components_spec(path),
        components_spec(name) == seq![ComponentView::Normal(name)],
        components_spec("/"@ + name) == seq![ComponentView::Root, ComponentView::Normal(name)],
        components_spec("."@) == seq![ComponentView::Current],
        components_spec(".."@) == seq![ComponentView::Parent],
        components_spec("/"@) == seq![ComponentView::Root],
        components_spec(seq![]) == Seq::<ComponentView>::empty(),
{
    reveal_strlit(".");
    reveal_strlit("..");
    reveal_strlit("/");
    let none = Seq::<char>::empty();
    assert("/"@ =~= seq!['/']);
    lemma_one_more_piece(path, name);
    lemma_one_more_piece(path, ".."@);
    lemma_one_more_piece(path, "."@);
    lemma_one_more_piece(path, none);
    assert(path + "/"@ =~= path + "/"@ + none);
    assert(components_spec(path) + Seq::<ComponentView>::empty() =~= components_spec(path));
    assert(components_spec(path) + seq![ComponentView::Parent] =~= components_spec(path).push(
        ComponentView::Parent,
    ));
    assert(components_spec(path) + seq![ComponentView::Normal(name)] =~= components_spec(path).push(
        ComponentView::Normal(name),
    ));
    lemma_one_piece(name);
    lemma_one_piece("."@);
    lemma_one_piece(".."@);
    lemma_one_piece(none);
    assert(name.contains(name[0]));
    lemma_behind_the_root(name);
    lemma_behind_the_root(none);
    assert("/"@ + none =~= "/"@);
    assert(components_spec("/"@ + name) =~= seq![ComponentView::Root, ComponentView::Normal(name)]);
    assert(components_spec("/"@) =~= seq![ComponentView::Root]);
}

/// One more piece behind a path that is not empty adds what it stands for.
proof fn lemma_one_more_piece(path: Seq<char>, piece: Seq<char>)
    requires
        path.len() > 0,
        !piece.contains('/'),
    ensures
        components_spec(path + "/"@ + piece) == components_spec(path) + piece_components(
            piece,
            false,
        ),
{
    reveal_strlit("/");
    let set = CharSet::One('/');
    assert("/"@ =~= seq!['/']);
    lemma_split_push(path, '/', piece);
    lemma_split_pieces(path, set);
    lemma_push_piece(split_spec(path, set), piece);
    assert((path + "/"@ + piece)[0] == path[0]);
    assert(components_spec(path + "/"@ + piece) =~= components_spec(path) + piece_components(
        piece,
        false,
    ));
}

/// A path without a slash is a single piece.
proof fn lemma_one_piece(piece: Seq<char>)
    requires
        !piece.contains('/'),
    ensures
        components_spec(piece) == piece_components(piece, true),
{
    law_text_is_parted_once(piece, '/', piece);
    let one = seq![piece];
    assert(one.drop_last() =~= Seq::<Seq<char>>::empty());
    assert(pieces_components(one.drop_last()) =~= Seq::<ComponentView>::empty());
    assert(pieces_components(one) =~= piece_components(piece, true));
    if piece.len() > 0 {
        assert(piece.contains(piece[0]));
    }
}

/// A piece behind a slash at the start comes after the root.
proof fn lemma_behind_the_root(piece: Seq<char>)
    requires
        !piece.contains('/'),
    ensures
        components_spec("/"@ + piece) == seq![ComponentView::Root] + piece_components(piece, false),
{
    reveal_strlit("/");
    let none = Seq::<char>::empty();
    let path = "/"@ + piece;
    assert(path =~= none + seq!['/'] + piece);
    law_text_is_parted_once(none, '/', piece);
    law_text_is_parted_once(piece, '/', none);
    let two = seq![none] + seq![piece];
    assert(two =~= seq![none].push(piece));
    lemma_push_piece(seq![none], piece);
    let one = seq![none];
    assert(one.drop_last() =~= Seq::<Seq<char>>::empty());
    assert(pieces_components(one.drop_last()) =~= Seq::<ComponentView>::empty());
    assert(pieces_components(one) =~= Seq::<ComponentView>::empty());
    assert(components_spec(path) =~= seq![ComponentView::Root] + piece_components(piece, false));
}

/// Whether a piece between slashes may stand in a path that a request names: it does not begin
/// with a dot, unless it is a single dot behind a slash.
pub open spec fn plain_piece(piece: Seq<char>, first: bool) -> bool {
    piece.len() == 0 || piece[0] != '.' || (piece.len() == 1 && !first)
}

/// A request may name a path exactly if it holds no NUL, does not begin with a slash, is not
/// blank unless it may be, and no piece between its slashes is hidden or leads out of it.
pub proof fn law_which_paths_may_be_named(relative: Seq<char>, allow_empty: bool)
    ensures
        safe_relative(relative, allow_empty) <==> {
            &&& forall|i: int| 0 <= i < relative.len() ==> #[trigger] relative[i] as int != 0
            &&& relative.len() > 0 ==> relative[0] != '/'
            &&& !allow_empty ==> exists|i: int|
                0 <= i < relative.len() && !white_space(#[trigger] relative[i])
            &&& forall|i: int|
                0 <= i < split_spec(relative, CharSet::One('/')).len() ==> plain_piece(
                    #[trigger] split_spec(relative, CharSet::One('/'))[i],
                    i == 0,
                )
        },
        relative_names(relative, allow_empty) is Ok <==> safe_relative(relative, allow_empty),
        relative_names(relative, allow_empty) matches Err(error) ==> error.status == 400
            && error.code == "INVALID_PATH"@,
{
    law_blank_text_is_white_space(relative);
    lemma_plain_pieces(split_spec(relative, CharSet::One('/')));
    if relative.contains('\0') {
        let i = relative.index_of('\0');
        assert(relative[i] as int == 0);
    } else {
        assert forall|i: int| 0 <= i < relative.len() implies
            #[trigger] relative[i] as int != 0 by {
            assert(relative.contains(relative[i]));
        }
    }
}

/// Every component is a visible name exactly if every piece is plain.
proof fn lemma_plain_pieces(pieces: Seq<Seq<char>>)
    ensures
        (forall|i: int|
            0 <= i < pieces_components(pieces).len() ==> visible(
                #[trigger] pieces_components(pieces)[i],
            )) <==> (forall|i: int|
            0 <= i < pieces.len() ==> plain_piece(#[trigger] pieces[i], i == 0)),
    decreases pieces.len(),
{
    reveal_strlit(".");
    reveal_strlit("..");
    if pieces.len() > 0 {
        let rest = pieces.drop_last();
        let last = pieces.last();
        let first = pieces.len() == 1;
        let before = pieces_components(rest);
        let added = piece_components(last, first);
        let all = pieces_components(pieces);
        lemma_plain_pieces(rest);
        if last.len() == 1 && last[0] == '.' {
            assert(last =~= "."@);
        }
        assert((added.len() > 0 ==> visible(added[0])) <==> plain_piece(last, first));
        if forall|i: int| 0 <= i < all.len() ==> visible(#[trigger] all[i]) {
            assert forall|i: int| 0 <= i < before.len() implies visible(#[trigger] before[i]) by {
                assert(visible(all[i]));
            }
            if added.len() > 0 {
                assert(visible(all[before.len() as int]));
            }
            assert forall|i: int| 0 <= i < pieces.len() implies plain_piece(
                #[trigger] pieces[i],
                i == 0,
            ) by {
                if i < rest.len() {
                    assert(plain_piece(rest[i], i == 0));
                }
            }
        }
        if forall|i: int| 0 <= i < pieces.len() ==> plain_piece(#[trigger] pieces[i], i == 0) {
            assert forall|i: int| 0 <= i < rest.len() implies plain_piece(
                #[trigger] rest[i],
                i == 0,
            ) by {
                assert(plain_piece(pieces[i], i == 0));
            }
            assert(plain_piece(pieces[pieces.len() - 1], first));
            assert forall|i: int| 0 <= i < all.len() implies visible(#[trigger] all[i]) by {
                if i < before.len() {
                    assert(visible(before[i]));
                } else {
                    assert(all[i] == added[0]);
                }
            }
        }
    }
}

/// A part is put behind a path with one slash between them; a part that begins at the root
/// replaces the path.
pub proof fn law_parts_are_put_behind_a_path(base: Seq<char>, part: Seq<char>)
    requires
        part.len() > 0 ==> part[0] != '/',
    ensures
        base.len() > 0 && base.last() != '/' ==> join_spec(base, part) == base + "/"@ + part,
        base.len() > 0 && base.last() == '/' ==> join_spec(base, part) == base + part,
        join_spec(seq![], part) == part,
        join_spec(base, "/"@ + part) == "/"@ + part,
{
    reveal_strlit("/");
    assert(Seq::<char>::empty() + part =~= part);
}

/// A path lies below another exactly if the components of the other are the first of its own, and
/// two paths are the same place exactly if all their components are the same.
pub proof fn law_below_goes_by_components(path: Seq<char>, base: Seq<char>)
    ensures
        below(path, base) <==> {
            let all = components_spec(path);
            let head = components_spec(base);
            head.len() <= all.len() && forall|i: int|
                0 <= i < head.len() ==> all[i] == #[trigger] head[i]
        },
        same_place(path, base) <==> below(path, base) && below(base, path),
{
    let all = components_spec(path);
    let head = components_spec(base);
    if head.len() <= all.len() && forall|i: int|
        0 <= i < head.len() ==> all[i] == #[trigger] head[i] {
        assert(all.subrange(0, head.len() as int) =~= head);
    }
    if below(path, base) {
        assert(all.subrange(0, head.len() as int) == head);
    }
    if below(base, path) {
        assert(head.subrange(0, all.len() as int) == all);
    }
    if below(path, base) && below(base, path) {
        assert(all.subrange(0, head.len() as int) =~= all);
    }
    if all == head {
        assert(all.subrange(0, all.len() as int) =~= all);
    }
}

/// A name behind a path is the last name of the whole, and is hidden exactly if it begins with a
/// dot or what comes before it is hidden.
#[verifier::spinoff_prover]
#[verifier::rlimit(40)]
pub proof fn law_last_name_of_a_path(root: Seq<char>, path: Seq<char>, name: Seq<char>)
    requires
        path.len() > 0,
        name.len() > 0 && !name.contains('/'),
        name != "."@ && name != ".."@,
        below(path, root),
    ensures
        file_name_spec(path + "/"@ + name) == Some(name),
        file_name_spec(path + "/"@ + ".."@) is None,
        hidden_below(root, path + "/"@ + name) <==> hidden_below(root, path) || name[0] == '.',
        !hidden_below(root, root),
{
    law_components_stand_between_slashes(path, name);
    let whole = path + "/"@ + name;
    let n = components_spec(root).len() as int;
    let short = rest_below(path, root);
    let long = rest_below(whole, root);
    let all = components_spec(path);
    assert(components_spec(root) == all.subrange(0, n));
    assert(long =~= short.push(ComponentView::Normal(name)));
    assert(components_spec(whole).subrange(0, n) =~= all.subrange(0, n));
    assert(below(whole, root));
    if hidden_below(root, path) {
        let i = choose|i: int| 0 <= i < short.len() && hidden(#[trigger] short[i]);
        assert(hidden(long[i]));
    }
    if name[0] == '.' {
        assert(hidden(long[short.len() as int]));
    }
    if hidden_below(root, whole) {
        let i = choose|i: int| 0 <= i < long.len() && hidden(#[trigger] long[i]);
        if i < short.len() {
            assert(hidden(short[i]));
        }
    }
    assert(components_spec(root).subrange(0, n) =~= components_spec(root));
}

/// What is outside of a root is hidden.
pub proof fn law_outside_is_hidden(root: Seq<char>, path: Seq<char>)
    requires
        !below(path, root),
    ensures
        hidden_below(root, path),
        relative_spec(root, path) matches Err(error) && error.status == 400 && error.code
            == "INVALID_PATH"@,
{
}

/// A request is granted the path that it names whenever it may name it, no link is on the way,
/// and what exists of the way leads nowhere else. The empty path is the root.
pub proof fn law_plain_path_is_granted(
    root: Seq<char>,
    relative: Seq<char>,
    links: Seq<bool>,
    exists: Seq<bool>,
    canonical: Seq<char>,
    failure: FailureView,
)
    requires
        safe_relative(relative, false),
        !links.contains(true),
        exists.contains(true),
    ensures
        below(canonical, root) <==> safe_path_spec(
            root,
            relative,
            false,
            links,
            exists,
            Ok(canonical),
        ) is Ok,
        safe_path_spec(root, relative, false, links, exists, Err(failure)) matches Err(error)
            && error.status == 500 && error.code == "IO_ERROR"@ && error.message == failure.message,
        safe_path_spec(root, relative, false, links, seq![false], Ok(canonical)) is Err,
        safe_path_spec(root, seq![], true, links, exists, Ok(canonical)) == Ok::<
            Seq<char>,
            ErrorView,
        >(root),
        safe_path_spec(root, seq![], false, links, exists, Ok(canonical)) is Err,
{
    assert(trimmed(seq![]) =~= seq![]);
    assert(relative.len() > 0) by {
        if relative.len() == 0 {
            assert(relative =~= seq![]);
        }
    }
    assert(!seq![false].contains(true));
    lemma_one_piece(seq![]);
}

/// The directory of a project is its canonical path, whenever it may be named and lies in the
/// workspace; one that is missing is not found.
pub proof fn law_project_directory_is_found(
    root: Seq<char>,
    relative: Seq<char>,
    path: Seq<char>,
    failure: FailureView,
)
    ensures
        workspace_relative_spec(root, relative, Ok(path)) is Ok <==> safe_relative(relative, false)
            && below(path, root),
        workspace_relative_spec(root, relative, Ok(path)) matches Ok(found) ==> found == path,
        workspace_relative_spec(root, relative, Ok(path)) matches Err(error) ==> error.status
            == 400,
        safe_relative(relative, false) ==> match workspace_relative_spec(
            root,
            relative,
            Err(failure),
        ) {
            Ok(_) => false,
            Err(error) => if failure.kind is NotFound {
                error.status == 404 && error.code == "FILE_NOT_FOUND"@
            } else {
                error.status == 500 && error.code == "IO_ERROR"@ && error.message
                    == failure.message
            },
        },
{
}

/// A path is required: it is there, and not blank.
pub proof fn law_path_is_required(path: Seq<char>)
    ensures
        match required_path_spec(Some(path)) {
            Ok(given) => given == path && exists|i: int|
                0 <= i < path.len() && !white_space(#[trigger] path[i]),
            Err(error) => error.status == 400 && forall|i: int|
                0 <= i < path.len() ==> white_space(#[trigger] path[i]),
        },
        required_path_spec(None) matches Err(error) && error.status == 400,
{
    law_blank_text_is_white_space(path);
}

/// The text of a path below another is made of the names that come after it, with slashes between
/// them: of the path itself it is empty, one name below it is that name, and every further name
/// is put behind a slash.
#[verifier::spinoff_prover]
#[verifier::rlimit(40)]
pub proof fn law_text_below_is_made_of_names(
    root: Seq<char>,
    path: Seq<char>,
    first: Seq<char>,
    second: Seq<char>,
)
    requires
        root.len() > 0 && path.len() > 0,
        first.len() > 0 && !first.contains('/') && first != "."@ && first != ".."@,
        second.len() > 0 && !second.contains('/') && second != "."@ && second != ".."@,
    ensures
        text_below(root, root) == Some(Seq::<char>::empty()),
        text_below(root + "/"@ + first, root) == Some(first),
        below(path + "/"@ + first, root) && components_spec(path + "/"@ + first).len()
            > components_spec(root).len() ==> (text_below(path + "/"@ + first, root) matches Some(
            text,
        ) && text_below(path + "/"@ + first + "/"@ + second, root) == Some(text + "/"@ + second)),
{
    reveal_strlit("/");
    let set = CharSet::One('/');
    let none = Seq::<Seq<char>>::empty();
    let slash = seq!['/'];
    assert("/"@ =~= slash);
    let n = named_components(root);
    let pieces = split_spec(root, set);
    lemma_split_pieces(root, set);
    law_components_stand_between_slashes(root, first);
    law_components_stand_between_slashes(path, first);
    assert(components_spec(root).subrange(0, components_spec(root).len() as int)
        =~= components_spec(root));
    assert(pieces_components(pieces).len() == n);
    assert(pieces_from(pieces, n) =~= none);
    assert(joined(cut_end(none), slash) =~= Seq::<char>::empty());
    let child = root + "/"@ + first;
    let more = pieces.push(first);
    lemma_split_push(root, '/', first);
    lemma_push_piece(pieces, first);
    assert(components_spec(child).subrange(0, components_spec(root).len() as int)
        =~= components_spec(root));
    assert(more.drop_last() =~= pieces);
    assert(pieces_from(more, n) =~= seq![first]);
    assert(piece_components(first, true).len() == 1);
    assert(cut_end(seq![first]) == seq![first]);
    let parent = path + "/"@ + first;
    let whole = parent + "/"@ + second;
    if below(parent, root) && components_spec(parent).len() > components_spec(root).len() {
        let long = split_spec(path, set).push(first);
        lemma_split_pieces(path, set);
        lemma_split_push(path, '/', first);
        lemma_push_piece(split_spec(path, set), first);
        assert(split_spec(parent, set) == long);
        lemma_split_push(parent, '/', second);
        lemma_push_piece(long, second);
        law_components_stand_between_slashes(parent, second);
        let m = components_spec(root).len() as int;
        assert(components_spec(root) == components_spec(parent).subrange(0, m));
        assert(components_spec(whole).subrange(0, m) =~= components_spec(parent).subrange(0, m));
        assert(below(whole, root));
        lemma_same_start(parent, root);
        assert(long.push(second).drop_last() =~= long);
        let part = pieces_from(long, n);
        assert(long.drop_last() =~= split_spec(path, set));
        assert(part.len() > 0 && part.last() == first);
        assert(cut_end(part) == part);
        assert(pieces_from(long.push(second), n) == part.push(second));
        assert(cut_end(part.push(second)) == part.push(second));
        law_parts_are_joined(part, second, slash);
    }
}

/// Contracts speak of whole values: every part of a value is in its view, in its place, and nothing
/// else is.
pub proof fn law_views_of_paths_are_whole(
    failure: IoFailure,
    components: Seq<Component>,
    component: Component,
    names: Result<Vec<String>, ApiError>,
    found: Result<String, IoFailure>,
)
    ensures
        failure@.kind == failure.kind,
        failure@.message == failure.message@,
        component_views(components).len() == components.len(),
        forall|i: int|
            0 <= i < components.len() ==> #[trigger] component_views(components)[i]
                == components[i]@,
        match component {
            Component::Root => component@ is Root,
            Component::Current => component@ is Current,
            Component::Parent => component@ is Parent,
            Component::Normal(name) => component@ matches ComponentView::Normal(shown) && shown
                == name@,
        },
        match names {
            Ok(all) => names_outcome(names) matches Ok(shown) && shown == texts(all@),
            Err(error) => names_outcome(names) matches Err(shown) && shown == error@,
        },
        match found {
            Ok(path) => resolved(found) matches Ok(shown) && shown == path@,
            Err(told) => resolved(found) matches Err(shown) && shown == told@,
        },
{
}

} // verus!
