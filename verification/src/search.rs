//! Searching the pages of a wiki by keywords.

use vstd::prelude::*;

use crate::error::{ApiError, ErrorView, optional, plain_error};
use crate::markdown::{markdown_title, title_spec};
use crate::order::{
    KeyView, SortKey, is_arrangement, is_stable_order, item_before, key_views,
    lemma_arrangement_is_onto, lemma_order_exists, lemma_precedes_irreflexive, order_of,
    sort_by_keys, sorted,
};
use crate::pages::{PageFile, PageView, is_page, page_path, page_views, path_stem, stem_of_path};
use crate::paths::{below, relative_spec, relative_string};
use crate::text::{
    chars_of, contains, contains_spec, count, count_spec, head, law_count_goes_from_place_to_place,
    law_words_are_parted_at_white_space, lines, lines_spec, lowercase, occurs_at, take_chars,
    text_of, texts, to_lower, views, white_space, words, words_spec,
};

verus! {

/// The terms of a query: its words in lower case.
pub open spec fn terms_spec(query: Seq<char>) -> Seq<Seq<char>> {
    Seq::new(words_spec(query).len(), |i: int| lowercase(words_spec(query)[i]))
}

/// The terms of a query.
pub fn search_terms(query: &str) -> (r: Vec<String>)
    ensures
        texts(r@) == terms_spec(query@),
{
    let chars = chars_of(query);
    let all = words(chars.as_slice());
    let mut r: Vec<String> = Vec::new();
    let mut i: usize = 0;
    while i < all.len()
        invariant
            i <= all@.len(),
            views(all@) == words_spec(query@),
            r@.len() == i,
            forall|j: int| 0 <= j < i ==> (#[trigger] r@[j])@ == terms_spec(query@)[j],
        decreases all@.len() - i,
    {
        let word = text_of(all[i]);
        assert(word@ == views(all@)[i as int]);
        r.push(to_lower(word.as_str()));
        i += 1;
    }
    assert(texts(r@) =~= terms_spec(query@));
    r
}

/// How often the terms stand in a text, together.
pub open spec fn score_spec(terms: Seq<Seq<char>>, lower: Seq<char>) -> nat
    decreases terms.len(),
{
    if terms.len() == 0 {
        0
    } else {
        score_spec(terms.drop_last(), lower) + count_spec(lower, terms.last())
    }
}

/// How often the terms stand in a text, together.
pub fn score_of(terms: &Vec<String>, lower: &[char]) -> (n: u128)
    ensures
        n == score_spec(texts(terms@), lower@),
{
    let length: usize = lower.len();
    let mut n: u128 = 0;
    let mut i: usize = 0;
    assert(texts(terms@).take(0) =~= Seq::<Seq<char>>::empty());
    while i < terms.len()
        invariant
            i <= terms@.len(),
            length == lower@.len(),
            n == score_spec(texts(terms@).take(i as int), lower@),
            n <= i * (length + 1),
        decreases terms@.len() - i,
    {
        proof {
            let all = texts(terms@);
            assert(all.take(i + 1).drop_last() =~= all.take(i as int));
            assert(all.take(i + 1).last() == terms@[i as int]@);
        }
        let found: u128 = count(lower, chars_of(terms[i].as_str()).as_slice());
        assert(i * (length + 1) + (length + 1) == (i + 1) * (length + 1)) by (nonlinear_arith);
        assert((i + 1) * (length + 1) <= 0xffff_ffff_ffff_ffff * 0x1_0000_0000_0000_0000)
            by (nonlinear_arith)
            requires
                i + 1 <= 0xffff_ffff_ffff_ffff,
                length + 1 <= 0x1_0000_0000_0000_0000,
        ;
        n = n + found;
        i += 1;
    }
    assert(texts(terms@).take(i as int) =~= texts(terms@));
    n
}

/// Whether any of the terms stands in a text.
pub open spec fn any_term(lower: Seq<char>, terms: Seq<Seq<char>>) -> bool {
    exists|i: int| 0 <= i < terms.len() && contains_spec(lower, #[trigger] terms[i])
}

/// Whether any of the terms stands in a text.
fn has_any_term(lower: &[char], terms: &Vec<String>) -> (r: bool)
    ensures
        r == any_term(lower@, texts(terms@)),
{
    let ghost all = texts(terms@);
    let mut i: usize = 0;
    while i < terms.len()
        invariant
            i <= terms@.len(),
            all == texts(terms@),
            forall|j: int| 0 <= j < i ==> !contains_spec(lower@, #[trigger] all[j]),
        decreases terms@.len() - i,
    {
        assert(all[i as int] == terms@[i as int]@);
        if contains(lower, chars_of(terms[i].as_str()).as_slice()) {
            return true;
        }
        i += 1;
    }
    false
}

/// The first line in which a term stands. `lower` holds the lines in lower case.
pub open spec fn first_match(
    lines: Seq<Seq<char>>,
    lower: Seq<Seq<char>>,
    terms: Seq<Seq<char>>,
) -> Seq<char>
    decreases lines.len(),
{
    if lines.len() == 0 || lower.len() == 0 {
        seq![]
    } else if any_term(lower[0], terms) {
        lines[0]
    } else {
        first_match(lines.drop_first(), lower.drop_first(), terms)
    }
}

/// How many characters a snippet has at most.
pub const SNIPPET_CHARS: usize = 300;

/// A snippet of a page: the beginning of the first line in which a term stands. `lower` holds
/// its lines in lower case.
pub open spec fn snippet_spec(
    content: Seq<char>,
    lower: Seq<Seq<char>>,
    terms: Seq<Seq<char>>,
) -> Seq<char> {
    head(first_match(lines_spec(content), lower, terms), SNIPPET_CHARS as int)
}

/// A snippet of a page whose lines are given in lower case too.
pub fn snippet_of(content: &str, lower: &Vec<String>, terms: &Vec<String>) -> (r: String)
    ensures
        r@ == snippet_spec(content@, texts(lower@), texts(terms@)),
{
    let chars = chars_of(content);
    let all = lines(chars.as_slice());
    let ghost low = texts(lower@);
    let ghost found = first_match(lines_spec(content@), low, texts(terms@));
    let mut i: usize = 0;
    assert(views(all@).skip(0) =~= views(all@));
    assert(low.skip(0) =~= low);
    while i < all.len() && i < lower.len()
        invariant
            i <= all@.len(),
            i <= lower@.len(),
            low == texts(lower@),
            found == first_match(lines_spec(content@), low, texts(terms@)),
            found == first_match(views(all@).skip(i as int), low.skip(i as int), texts(terms@)),
        decreases all@.len() - i,
    {
        proof {
            assert(views(all@).skip(i as int)[0] == all@[i as int]@);
            assert(views(all@).skip(i as int).drop_first() =~= views(all@).skip(i + 1));
            assert(low.skip(i as int)[0] == lower@[i as int]@);
            assert(low.skip(i as int).drop_first() =~= low.skip(i + 1));
        }
        if has_any_term(chars_of(lower[i].as_str()).as_slice(), terms) {
            return text_of(take_chars(all[i], SNIPPET_CHARS));
        }
        i += 1;
    }
    assert(head(found, SNIPPET_CHARS as int) =~= Seq::<char>::empty());
    String::new()
}

/// The lines of a text in lower case.
pub open spec fn lower_lines_spec(content: Seq<char>) -> Seq<Seq<char>> {
    Seq::new(lines_spec(content).len(), |i: int| lowercase(lines_spec(content)[i]))
}

/// The lines of a text in lower case.
fn lower_lines(content: &str) -> (r: Vec<String>)
    ensures
        texts(r@) == lower_lines_spec(content@),
{
    let chars = chars_of(content);
    let all = lines(chars.as_slice());
    let mut r: Vec<String> = Vec::new();
    let mut i: usize = 0;
    while i < all.len()
        invariant
            i <= all@.len(),
            views(all@) == lines_spec(content@),
            r@.len() == i,
            forall|j: int| 0 <= j < i ==> (#[trigger] r@[j])@ == lower_lines_spec(content@)[j],
        decreases all@.len() - i,
    {
        let line = text_of(all[i]);
        assert(line@ == views(all@)[i as int]);
        r.push(to_lower(line.as_str()));
        i += 1;
    }
    assert(texts(r@) =~= lower_lines_spec(content@));
    r
}

/// A snippet of a page.
pub fn search_snippet(content: &str, terms: &Vec<String>) -> (r: String)
    ensures
        r@ == snippet_spec(content@, lower_lines_spec(content@), texts(terms@)),
{
    let lower = lower_lines(content);
    snippet_of(content, &lower, terms)
}

/// A file to search, with its content and the lines of that in lower case.
pub struct LoweredPage<'a> {
    pub page: &'a PageFile,
    pub lower: String,
    pub lower_lines: Vec<String>,
}

/// The view of a [`LoweredPage`].
pub struct LoweredView {
    pub page: PageView,
    pub lower: Seq<char>,
    pub lower_lines: Seq<Seq<char>>,
}

impl<'a> View for LoweredPage<'a> {
    type V = LoweredView;

    open spec fn view(&self) -> LoweredView {
        LoweredView {
            page: self.page@,
            lower: self.lower@,
            lower_lines: texts(self.lower_lines@),
        }
    }
}

/// The views of files to search.
pub open spec fn lowered_views<'a>(pages: Seq<LoweredPage<'a>>) -> Seq<LoweredView> {
    Seq::new(pages.len(), |i: int| pages[i]@)
}

/// A file with its content and the lines of that in lower case.
pub open spec fn lowered(page: PageView) -> LoweredView {
    LoweredView {
        page,
        lower: lowercase(page.content),
        lower_lines: lower_lines_spec(page.content),
    }
}

/// Files with their contents and the lines of those in lower case.
pub open spec fn all_lowered(pages: Seq<PageView>) -> Seq<LoweredView> {
    Seq::new(pages.len(), |i: int| lowered(pages[i]))
}

/// A page in which a term stands.
pub struct SearchHit {
    pub path: String,
    pub title: String,
    pub score: u128,
    pub snippet: String,
    pub content: Option<String>,
}

/// The view of a [`SearchHit`].
pub struct HitView {
    pub path: Seq<char>,
    pub title: Seq<char>,
    pub score: nat,
    pub snippet: Seq<char>,
    pub content: Option<Seq<char>>,
}

impl View for SearchHit {
    type V = HitView;

    open spec fn view(&self) -> HitView {
        HitView {
            path: self.path@,
            title: self.title@,
            score: self.score as nat,
            snippet: self.snippet@,
            content: optional(self.content),
        }
    }
}

/// The views of hits.
pub open spec fn hit_views(hits: Seq<SearchHit>) -> Seq<HitView> {
    Seq::new(hits.len(), |i: int| hits[i]@)
}

/// The title of a page, or the name of its file.
pub open spec fn page_title(page: PageView) -> Seq<char> {
    match title_spec(page.content) {
        Some(title) => title,
        None => path_stem(page.path),
    }
}

/// What a search says of a file: nothing unless it is a page in which a term stands.
pub open spec fn hit_spec(
    root: Seq<char>,
    terms: Seq<Seq<char>>,
    include_content: bool,
    file: LoweredView,
) -> Option<HitView> {
    let page = file.page;
    let score = score_spec(terms, file.lower);
    if page_path(root, page.path) && score > 0 {
        Some(
            HitView {
                path: relative_spec(root, page.path)->Ok_0,
                title: page_title(page),
                score,
                snippet: snippet_spec(page.content, file.lower_lines, terms),
                content: if include_content {
                    Some(page.content)
                } else {
                    None
                },
            },
        )
    } else {
        None
    }
}

/// What a search says of files.
pub open spec fn hits_spec(
    root: Seq<char>,
    terms: Seq<Seq<char>>,
    include_content: bool,
    files: Seq<LoweredView>,
) -> Seq<HitView>
    decreases files.len(),
{
    if files.len() == 0 {
        seq![]
    } else {
        let before = hits_spec(root, terms, include_content, files.drop_last());
        match hit_spec(root, terms, include_content, files.last()) {
            Some(hit) => before.push(hit),
            None => before,
        }
    }
}

/// What hits are sorted by: the highest score comes first.
pub open spec fn hit_keys(hits: Seq<HitView>) -> Seq<KeyView> {
    Seq::new(hits.len(), |i: int| KeyView { rank: u128::MAX - hits[i].score, text: seq![] })
}

/// How many hits a search gives at most.
pub open spec fn hit_limit(top_k: Option<usize>) -> int {
    match top_k {
        Some(n) => if n < 1 {
            1
        } else if n > 100 {
            100
        } else {
            n as int
        },
        None => 20,
    }
}

/// The outcome of a search for terms: the hits with the highest scores, highest first, equal
/// ones as the files stood.
pub open spec fn found_spec(
    root: Seq<char>,
    terms: Seq<Seq<char>>,
    top_k: Option<usize>,
    include_content: bool,
    files: Seq<LoweredView>,
) -> Result<Seq<HitView>, ErrorView> {
    if terms.len() == 0 {
        Err(plain_error(400, "QUERY_REQUIRED"@, "query is required"@))
    } else {
        let hits = hits_spec(root, terms, include_content, files);
        let ranked = sorted(hits, hit_keys(hits));
        if ranked.len() <= hit_limit(top_k) {
            Ok(ranked)
        } else {
            Ok(ranked.take(hit_limit(top_k)))
        }
    }
}

/// The outcome of a search: of one for the terms of the query, in lower case.
pub open spec fn search_spec(
    root: Seq<char>,
    query: Seq<char>,
    top_k: Option<usize>,
    include_content: bool,
    pages: Seq<PageView>,
) -> Result<Seq<HitView>, ErrorView> {
    found_spec(root, terms_spec(query), top_k, include_content, all_lowered(pages))
}

/// The view of the outcome of a search.
pub open spec fn search_outcome(r: Result<Vec<SearchHit>, ApiError>) -> Result<
    Seq<HitView>,
    ErrorView,
> {
    match r {
        Ok(hits) => Ok(hit_views(hits@)),
        Err(error) => Err(error@),
    }
}

/// What a search says of a file.
fn search_page<'a>(
    root: &str,
    terms: &Vec<String>,
    include_content: bool,
    file: &LoweredPage<'a>,
) -> (r: Option<SearchHit>)
    ensures
        match r {
            Some(hit) => hit_spec(root@, texts(terms@), include_content, file@) == Some(hit@),
            None => hit_spec(root@, texts(terms@), include_content, file@) is None,
        },
{
    let page = file.page;
    if !is_page(root, page.path.as_str()) {
        return None;
    }
    let score: u128 = score_of(terms, chars_of(file.lower.as_str()).as_slice());
    if score == 0 {
        return None;
    }
    assert(below(page.path@, root@));
    let path = match relative_string(root, page.path.as_str()) {
        Ok(path) => path,
        Err(_) => {
            return None;
        },
    };
    let title = match markdown_title(page.content.as_str()) {
        Some(title) => title,
        None => stem_of_path(page.path.as_str()),
    };
    let content = if include_content {
        Some(page.content.clone())
    } else {
        None
    };
    let snippet = snippet_of(page.content.as_str(), &file.lower_lines, terms);
    Some(SearchHit { path, title, score, snippet, content })
}

/// Searches files for terms. Terms and files are given in lower case, the files as they stand
/// in the directory tree of the project.
pub fn search_lowered<'a>(
    root: &str,
    terms: &Vec<String>,
    top_k: Option<usize>,
    include_content: bool,
    files: &Vec<LoweredPage<'a>>,
) -> (r: Result<Vec<SearchHit>, ApiError>)
    ensures
        search_outcome(r) == found_spec(
            root@,
            texts(terms@),
            top_k,
            include_content,
            lowered_views(files@),
        ),
{
    if terms.len() == 0 {
        return Err(ApiError::new(400, "QUERY_REQUIRED", "query is required"));
    }
    let mut hits: Vec<SearchHit> = Vec::new();
    let mut keys: Vec<SortKey> = Vec::new();
    let ghost all = lowered_views(files@);
    let mut i: usize = 0;
    assert(all.take(0) =~= Seq::<LoweredView>::empty());
    assert(hit_views(hits@) =~= Seq::<HitView>::empty());
    while i < files.len()
        invariant
            i <= files@.len(),
            all == lowered_views(files@),
            hit_views(hits@) == hits_spec(
                root@,
                texts(terms@),
                include_content,
                all.take(i as int),
            ),
            key_views(keys@) == hit_keys(hit_views(hits@)),
        decreases files@.len() - i,
    {
        proof {
            assert(all.take(i + 1).drop_last() =~= all.take(i as int));
            assert(all.take(i + 1).last() == files@[i as int]@);
        }
        let ghost before = hit_views(hits@);
        let ghost before_keys = key_views(keys@);
        if let Some(hit) = search_page(root, terms, include_content, &files[i]) {
            let key = SortKey { rank: u128::MAX - hit.score, text: Vec::new() };
            assert(key@.text =~= Seq::<char>::empty());
            keys.push(key);
            hits.push(hit);
            assert(hit_views(hits@) =~= before.push(hit@));
            assert(key_views(keys@) =~= before_keys.push(key@));
            assert(hit_keys(hit_views(hits@)) =~= hit_keys(before).push(key@));
        }
        i += 1;
    }
    assert(all.take(i as int) =~= all);
    let ghost found = hit_views(hits@);
    let ghost items = hits@;
    assert(hits@.len() == found.len() && keys@.len() == key_views(keys@).len());
    let mut ranked = sort_by_keys(hits, &keys);
    let ghost order = order_of(hit_keys(found));
    assert(is_stable_order(hit_keys(found), order));
    assert(hit_views(ranked@) =~= sorted(found, hit_keys(found))) by {
        assert forall|j: int| 0 <= j < order.len() implies hit_views(ranked@)[j]
            == found[#[trigger] order[j] as int] by {
            assert(ranked@[j] == items[order[j] as int]);
        }
    }
    let limit: usize = match top_k {
        Some(n) => if n < 1 {
            1
        } else if n > 100 {
            100
        } else {
            n
        },
        None => 20,
    };
    if ranked.len() > limit {
        let ghost full = hit_views(ranked@);
        ranked.truncate(limit);
        assert(hit_views(ranked@) =~= full.take(limit as int));
    }
    Ok(ranked)
}

/// Files with their contents and the lines of those in lower case.
fn lower_pages<'a>(pages: &'a Vec<PageFile>) -> (r: Vec<LoweredPage<'a>>)
    ensures
        lowered_views(r@) == all_lowered(page_views(pages@)),
{
    let mut r: Vec<LoweredPage<'a>> = Vec::new();
    let mut i: usize = 0;
    while i < pages.len()
        invariant
            i <= pages@.len(),
            r@.len() == i,
            forall|j: int| 0 <= j < i ==> (#[trigger] r@[j])@ == lowered(pages@[j]@),
        decreases pages@.len() - i,
    {
        let page = &pages[i];
        let lower = to_lower(page.content.as_str());
        let lower_lines = lower_lines(page.content.as_str());
        r.push(LoweredPage { page, lower, lower_lines });
        i += 1;
    }
    assert(lowered_views(r@) =~= all_lowered(page_views(pages@)));
    r
}

/// Searches files. They are given as they stand in the directory tree of the project.
pub fn search_pages(
    root: &str,
    query: &str,
    top_k: Option<usize>,
    include_content: bool,
    pages: &Vec<PageFile>,
) -> (r: Result<Vec<SearchHit>, ApiError>)
    ensures
        search_outcome(r) == search_spec(
            root@,
            query@,
            top_k,
            include_content,
            page_views(pages@),
        ),
{
    let terms = search_terms(query);
    let files = lower_pages(pages);
    search_lowered(root, &terms, top_k, include_content, &files)
}

/// Every hit comes from a file.
proof fn lemma_hits_come_from_files(
    root: Seq<char>,
    terms: Seq<Seq<char>>,
    include_content: bool,
    files: Seq<LoweredView>,
)
    ensures
        hits_spec(root, terms, include_content, files).len() <= files.len(),
        forall|i: int|
            0 <= i < hits_spec(root, terms, include_content, files).len() ==> exists|j: int|
                0 <= j < files.len() && hit_spec(root, terms, include_content, #[trigger] files[j])
                    == Some(#[trigger] hits_spec(root, terms, include_content, files)[i]),
    decreases files.len(),
{
    if files.len() > 0 {
        let rest = files.drop_last();
        lemma_hits_come_from_files(root, terms, include_content, rest);
        let before = hits_spec(root, terms, include_content, rest);
        let hits = hits_spec(root, terms, include_content, files);
        assert forall|i: int| 0 <= i < hits.len() implies exists|j: int|
            0 <= j < files.len() && hit_spec(root, terms, include_content, #[trigger] files[j])
                == Some(#[trigger] hits[i]) by {
            if i < before.len() {
                assert(hits[i] == before[i]);
                let j = choose|j: int|
                    0 <= j < rest.len() && hit_spec(root, terms, include_content, #[trigger] rest[j])
                        == Some(before[i]);
                assert(files[j] == rest[j]);
            } else {
                assert(files[files.len() - 1] == files.last());
            }
        }
    }
}

/// A search gives no more hits than its limit, each is what it says of a file in which a term
/// stands, and none has a lower score than the next.
pub proof fn law_hits_are_ranked(
    root: Seq<char>,
    terms: Seq<Seq<char>>,
    top_k: Option<usize>,
    include_content: bool,
    files: Seq<LoweredView>,
)
    requires
        files.len() <= usize::MAX,
    ensures
        found_spec(root, terms, top_k, include_content, files) matches Ok(hits) ==> {
            &&& hits.len() <= hit_limit(top_k) <= 100
            &&& forall|i: int, j: int|
                0 <= i < j < hits.len() ==> (#[trigger] hits[i]).score >= (
                #[trigger] hits[j]).score
            &&& forall|i: int|
                0 <= i < hits.len() ==> (#[trigger] hits[i]).score > 0 && exists|j: int|
                    0 <= j < files.len() && hit_spec(
                        root,
                        terms,
                        include_content,
                        #[trigger] files[j],
                    ) == Some(hits[i])
        },
{
    let found = hits_spec(root, terms, include_content, files);
    let keys = hit_keys(found);
    lemma_hits_come_from_files(root, terms, include_content, files);
    lemma_order_exists(keys);
    let order = order_of(keys);
    let ranked = sorted(found, keys);
    assert forall|i: int, j: int| 0 <= i < j < ranked.len() implies (#[trigger] ranked[i]).score
        >= (#[trigger] ranked[j]).score by {
        assert(item_before(keys, order[i] as int, order[j] as int));
    }
    assert forall|i: int| 0 <= i < ranked.len() implies (#[trigger] ranked[i]).score > 0 && exists|
        j: int,
    |
        0 <= j < files.len() && hit_spec(root, terms, include_content, #[trigger] files[j]) == Some(
            ranked[i],
        ) by {
        let at = order[i] as int;
        assert(ranked[i] == found[at]);
        let j = choose|j: int|
            0 <= j < files.len() && hit_spec(root, terms, include_content, #[trigger] files[j])
                == Some(found[at]);
        assert(hit_spec(root, terms, include_content, files[j]) == Some(ranked[i]));
    }
}

/// What is said of a file is among the hits.
proof fn lemma_file_is_hit(
    root: Seq<char>,
    terms: Seq<Seq<char>>,
    include_content: bool,
    files: Seq<LoweredView>,
    j: int,
) -> (i: int)
    requires
        0 <= j < files.len(),
        hit_spec(root, terms, include_content, files[j]) is Some,
    ensures
        0 <= i < hits_spec(root, terms, include_content, files).len(),
        hit_spec(root, terms, include_content, files[j]) == Some(
            hits_spec(root, terms, include_content, files)[i],
        ),
    decreases files.len(),
{
    let rest = files.drop_last();
    if j < rest.len() {
        lemma_file_is_hit(root, terms, include_content, rest, j)
    } else {
        hits_spec(root, terms, include_content, rest).len() as int
    }
}

/// No file in which a term stands is passed over: what the search says of it is among the hits,
/// unless there are as many as the limit allows and none has a lower score.
pub proof fn law_no_better_hit_is_left_out(
    root: Seq<char>,
    terms: Seq<Seq<char>>,
    top_k: Option<usize>,
    include_content: bool,
    files: Seq<LoweredView>,
    j: int,
)
    requires
        files.len() <= usize::MAX,
        0 <= j < files.len(),
    ensures
        found_spec(root, terms, top_k, include_content, files) matches Ok(hits) ==> (hit_spec(
            root,
            terms,
            include_content,
            files[j],
        ) matches Some(hit) ==> hits.contains(hit) || (hits.len() == hit_limit(top_k) && forall|
            i: int,
        |
            0 <= i < hits.len() ==> (#[trigger] hits[i]).score >= hit.score)),
{
    if let Some(hit) = hit_spec(root, terms, include_content, files[j]) {
        let found = hits_spec(root, terms, include_content, files);
        let keys = hit_keys(found);
        let at = lemma_file_is_hit(root, terms, include_content, files, j);
        lemma_hits_come_from_files(root, terms, include_content, files);
        lemma_order_exists(keys);
        lemma_arrangement_is_onto(order_of(keys), keys.len(), at);
        let order = order_of(keys);
        let ranked = sorted(found, keys);
        let place = choose|place: int| 0 <= place < keys.len() && #[trigger] order[place] == at;
        assert(ranked[place] == hit);
        if let Ok(hits) = found_spec(root, terms, top_k, include_content, files) {
            if place < hits.len() {
                assert(hits[place] == hit);
            } else {
                assert forall|i: int| 0 <= i < hits.len() implies (#[trigger] hits[i]).score
                    >= hit.score by {
                    assert(hits[i] == ranked[i]);
                    assert(item_before(keys, order[i] as int, order[place] as int));
                }
            }
        }
    }
}

/// The score of a page is the sum over the words that are searched for, each counted as often as
/// it stands in the page: parting the words parts the score.
pub proof fn law_scores_add_up(a: Seq<Seq<char>>, b: Seq<Seq<char>>, lower: Seq<char>)
    ensures
        score_spec(a + b, lower) == score_spec(a, lower) + score_spec(b, lower),
        score_spec(b + a, lower) == score_spec(a + b, lower),
        a.len() == 0 ==> score_spec(a, lower) == 0,
        a.len() == 1 ==> score_spec(a, lower) == count_spec(lower, a[0]),
    decreases a.len() + b.len(),
{
    lemma_score_concat(a, b, lower);
    lemma_score_concat(b, a, lower);
    if a.len() == 1 {
        assert(a.drop_last() =~= Seq::<Seq<char>>::empty());
        assert(score_spec(a.drop_last(), lower) == 0);
    }
}

/// The score of more words is the sum of the scores.
proof fn lemma_score_concat(a: Seq<Seq<char>>, b: Seq<Seq<char>>, lower: Seq<char>)
    ensures
        score_spec(a + b, lower) == score_spec(a, lower) + score_spec(b, lower),
    decreases b.len(),
{
    if b.len() == 0 {
        assert(a + b =~= a);
    } else {
        lemma_score_concat(a, b.drop_last(), lower);
        assert((a + b).drop_last() =~= a + b.drop_last());
        assert((a + b).last() == b.last());
    }
}

/// A page has a score exactly if one of the words stands in it, whichever it is.
pub proof fn law_any_word_is_enough(terms: Seq<Seq<char>>, lower: Seq<char>)
    requires
        forall|i: int| 0 <= i < terms.len() ==> (#[trigger] terms[i]).len() > 0,
    ensures
        score_spec(terms, lower) > 0 <==> exists|i: int, k: int|
            0 <= i < terms.len() && #[trigger] occurs_at(lower, terms[i], k),
    decreases terms.len(),
{
    if terms.len() > 0 {
        let fewer = terms.drop_last();
        let n = terms.len() - 1;
        assert forall|i: int| 0 <= i < fewer.len() implies (#[trigger] fewer[i]).len() > 0 by {
            assert(fewer[i] == terms[i]);
        }
        law_any_word_is_enough(fewer, lower);
        law_count_goes_from_place_to_place(lower, terms[n], 0);
        assert(terms.last() == terms[n]);
        if score_spec(fewer, lower) > 0 {
            let (i, k) = choose|i: int, k: int|
                0 <= i < fewer.len() && #[trigger] occurs_at(lower, fewer[i], k);
            assert(occurs_at(lower, terms[i], k));
        }
        if count_spec(lower, terms[n]) > 0 {
            let k = choose|k: int| #[trigger] occurs_at(lower, terms[n], k);
            assert(occurs_at(lower, terms[n], k));
        }
        if exists|i: int, k: int| 0 <= i < terms.len() && #[trigger] occurs_at(lower, terms[i], k) {
            let (i, k) = choose|i: int, k: int|
                0 <= i < terms.len() && #[trigger] occurs_at(lower, terms[i], k);
            if i < n {
                assert(occurs_at(lower, fewer[i], k));
            } else {
                assert(contains_spec(lower, terms[n]));
            }
        }
    }
}

/// Every word of a query is searched for, in lower case: words that are put together give the
/// terms of both.
pub proof fn law_every_word_is_searched_for(a: Seq<char>, b: Seq<char>, word: Seq<char>)
    requires
        word.len() > 0,
        forall|i: int| 0 <= i < word.len() ==> !white_space(#[trigger] word[i]),
    ensures
        terms_spec(a + seq![' '] + b) == terms_spec(a) + terms_spec(b),
        terms_spec(word) == seq![lowercase(word)],
        terms_spec(seq![]) == Seq::<Seq<char>>::empty(),
{
    law_words_are_parted_at_white_space(a, ' ', b);
    law_words_are_parted_at_white_space(word, ' ', b);
    law_words_are_parted_at_white_space(seq![], ' ', b);
    assert(terms_spec(a + seq![' '] + b) =~= terms_spec(a) + terms_spec(b));
    assert(terms_spec(word) =~= seq![lowercase(word)]);
    assert(terms_spec(seq![]) =~= Seq::<Seq<char>>::empty());
}

/// The place of the first line in which a word stands decides what is shown of a page.
proof fn lemma_first_match(
    lines: Seq<Seq<char>>,
    lower: Seq<Seq<char>>,
    terms: Seq<Seq<char>>,
    at: int,
)
    requires
        lines.len() == lower.len(),
        0 <= at <= lines.len(),
        forall|j: int| 0 <= j < at ==> !any_term(#[trigger] lower[j], terms),
        at < lines.len() ==> any_term(lower[at], terms),
    ensures
        first_match(lines, lower, terms) == if at < lines.len() {
            lines[at]
        } else {
            seq![]
        },
    decreases lines.len(),
{
    if lines.len() > 0 && at > 0 {
        assert(!any_term(lower[0], terms));
        let rest = lower.drop_first();
        assert forall|j: int| 0 <= j < at - 1 implies !any_term(#[trigger] rest[j], terms) by {
            assert(rest[j] == lower[j + 1]);
        }
        lemma_first_match(lines.drop_first(), rest, terms, at - 1);
    }
}

/// What is shown of a page is the beginning, of at most three hundred characters, of the first
/// line in which one of the words stands, and nothing if there is none.
pub proof fn law_snippet_shows_first_match(
    content: Seq<char>,
    lower: Seq<Seq<char>>,
    terms: Seq<Seq<char>>,
    at: int,
)
    requires
        lower.len() == lines_spec(content).len(),
        0 <= at <= lower.len(),
        forall|j: int, i: int, k: int|
            0 <= j < at && 0 <= i < terms.len() ==> !#[trigger] occurs_at(lower[j], terms[i], k),
        at < lower.len() ==> exists|i: int, k: int|
            0 <= i < terms.len() && #[trigger] occurs_at(lower[at], terms[i], k),
    ensures
        ({
            let shown = snippet_spec(content, lower, terms);
            if at == lower.len() {
                shown.len() == 0
            } else if lines_spec(content)[at].len() <= 300 {
                shown == lines_spec(content)[at]
            } else {
                shown == lines_spec(content)[at].take(300)
            }
        }),
{
    assert forall|j: int| 0 <= j < at implies !any_term(#[trigger] lower[j], terms) by {
        if any_term(lower[j], terms) {
            let i = choose|i: int|
                0 <= i < terms.len() && contains_spec(lower[j], #[trigger] terms[i]);
            let k = choose|k: int| occurs_at(lower[j], terms[i], k);
            assert(!occurs_at(lower[j], terms[i], k));
        }
    }
    if at < lower.len() {
        let (i, k) = choose|i: int, k: int|
            0 <= i < terms.len() && #[trigger] occurs_at(lower[at], terms[i], k);
        assert(contains_spec(lower[at], terms[i]));
        assert(any_term(lower[at], terms));
    }
    lemma_first_match(lines_spec(content), lower, terms, at);
}

/// What a search says of a page: its path below the root, its score, its title, and its content
/// if that is asked for. A file that is no page, or has no score, is not a hit.
pub proof fn law_hit_describes_its_page(
    root: Seq<char>,
    terms: Seq<Seq<char>>,
    include_content: bool,
    file: LoweredView,
)
    ensures
        hit_spec(root, terms, include_content, file) is Some <==> page_path(root, file.page.path)
            && score_spec(terms, file.lower) > 0,
        hit_spec(root, terms, include_content, file) matches Some(hit) ==> {
            &&& hit.score == score_spec(terms, file.lower)
            &&& relative_spec(root, file.page.path) == Ok::<Seq<char>, ErrorView>(hit.path)
            &&& include_content ==> hit.content == Some(file.page.content)
            &&& !include_content ==> hit.content is None
            &&& match title_spec(file.page.content) {
                Some(title) => hit.title == title,
                None => hit.title == path_stem(file.page.path),
            }
        },
{
}

/// A search gives at most as many hits as are asked for, at least one and at most a hundred, and
/// twenty if nothing is asked for.
pub proof fn law_limit_is_kept(n: usize)
    ensures
        hit_limit(None) == 20,
        hit_limit(Some(n)) == if n == 0 {
            1int
        } else if n <= 100 {
            n as int
        } else {
            100
        },
{
}

/// A search without words is refused, and every other is answered.
pub proof fn law_search_needs_words(
    root: Seq<char>,
    query: Seq<char>,
    top_k: Option<usize>,
    include_content: bool,
    pages: Seq<PageView>,
)
    ensures
        search_spec(root, query, top_k, include_content, pages) is Ok <==> terms_spec(query).len()
            > 0,
        search_spec(root, query, top_k, include_content, pages) matches Err(error) ==> error.status
            == 400 && error.code == "QUERY_REQUIRED"@,
        search_spec(root, query, top_k, include_content, pages) == found_spec(
            root,
            terms_spec(query),
            top_k,
            include_content,
            all_lowered(pages),
        ),
        all_lowered(pages).len() == pages.len(),
        forall|i: int|
            0 <= i < pages.len() ==> (#[trigger] all_lowered(pages)[i]).page == pages[i]
                && all_lowered(pages)[i].lower == lowercase(pages[i].content)
                && all_lowered(pages)[i].lower_lines.len() == lines_spec(pages[i].content).len(),
        forall|i: int, j: int|
            0 <= i < pages.len() && 0 <= j < lines_spec(pages[i].content).len() ==> #[trigger]
                all_lowered(pages)[i].lower_lines[j] == lowercase(lines_spec(pages[i].content)[j]),
{
}

/// Contracts speak of whole values: every part of a value is in its view, in its place, and nothing
/// else is.
pub proof fn law_views_of_search_are_whole<'a>(
    page: LoweredPage<'a>,
    hit: SearchHit,
    pages: Seq<LoweredPage<'a>>,
    all_pages: Seq<PageView>,
    hits: Seq<SearchHit>,
    found: Result<Vec<SearchHit>, ApiError>,
)
    ensures
        page@.page == page.page@,
        page@.lower == page.lower@,
        page@.lower_lines == texts(page.lower_lines@),
        hit@.path == hit.path@,
        hit@.title == hit.title@,
        hit@.score == hit.score as nat,
        hit@.snippet == hit.snippet@,
        hit@.content == optional(hit.content),
        lowered_views(pages).len() == pages.len(),
        forall|i: int|
            0 <= i < pages.len() ==> #[trigger] lowered_views(pages)[i] == pages[i]@,
        all_lowered(all_pages).len() == all_pages.len(),
        forall|i: int|
            0 <= i < all_pages.len() ==> #[trigger] all_lowered(all_pages)[i]
                == lowered(all_pages[i]),
        hit_views(hits).len() == hits.len(),
        forall|i: int|
            0 <= i < hits.len() ==> #[trigger] hit_views(hits)[i] == hits[i]@,
        match found {
            Ok(all) => search_outcome(found) matches Ok(shown) && shown == hit_views(all@),
            Err(error) => search_outcome(found) matches Err(shown) && shown == error@,
        },
{
}

/// Every file is looked at once, in order, and gives its hit or none; hits of the same score stay
/// in that order.
pub proof fn law_every_file_is_looked_at(
    root: Seq<char>,
    terms: Seq<Seq<char>>,
    include_content: bool,
    files: Seq<LoweredView>,
    file: LoweredView,
    i: int,
    j: int,
)
    requires
        files.len() <= usize::MAX,
        0 <= i < j < hits_spec(root, terms, include_content, files).len(),
    ensures
        hits_spec(root, terms, include_content, seq![]) == Seq::<HitView>::empty(),
        hits_spec(root, terms, include_content, files.push(file)) == match hit_spec(
            root,
            terms,
            include_content,
            file,
        ) {
            Some(hit) => hits_spec(root, terms, include_content, files).push(hit),
            None => hits_spec(root, terms, include_content, files),
        },
        ({
            let hits = hits_spec(root, terms, include_content, files);
            let order = order_of(hit_keys(hits));
            &&& is_arrangement(order, hits.len())
            &&& sorted(hits, hit_keys(hits))[i] == hits[order[i] as int]
            &&& hits[order[i] as int].score == hits[order[j] as int].score ==> order[i] < order[j]
        }),
{
    assert(files.push(file).drop_last() =~= files);
    let hits = hits_spec(root, terms, include_content, files);
    let keys = hit_keys(hits);
    lemma_hits_come_from_files(root, terms, include_content, files);
    lemma_order_exists(keys);
    let order = order_of(keys);
    assert(item_before(keys, order[i] as int, order[j] as int));
    lemma_precedes_irreflexive(seq![]);
}



} // verus!
