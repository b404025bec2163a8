//! The index of a wiki: its pages by kind and title.

use vstd::prelude::*;

use crate::error::{ApiError, ErrorView, outcome, plain_error};
use crate::markdown::{frontmatter_spec, frontmatter_value, markdown_title, title_spec};
use crate::names::{
    extension, extension_spec, file_stem, law_extension_follows_the_last_dot,
    law_stem_and_extension, stem_spec,
};
use crate::order::{
    KeyView, SortKey, is_stable_order, key_less, key_views, law_sorting_keeps_items,
    lemma_order_exists, lemma_precedes_asymmetric, order_of, precedes, sort_by_keys, sorted,
};
use crate::pages::{
    PageFile, PageView, is_markdown, law_markdown_files_are_pages, markdown_path, page_views,
    path_stem, stem_of_path,
};
use crate::paths::{
    components_spec, file_name, file_name_spec, law_components_stand_between_slashes,
    lemma_file_name_fits, path_escape, path_escape_spec, strip_base, text_below,
};
use crate::table::{Table, ascending, keys_of, law_ascending_is_unique, lemma_keys_exist};
use crate::text::{
    append_chars, chars_of, lower_ascii, lower_ascii_spec, lowercase, replace_char,
    replace_char_spec, same, same_chars, same_ignoring_case, text_of, to_lower,
};

verus! {

/// Whether the index lists the file at a path: a Markdown file that is not the index, the
/// overview or the log.
pub open spec fn indexed_path(path: Seq<char>) -> bool {
    let stem = lower_ascii_spec(path_stem(path));
    markdown_path(path) && stem != "index"@ && stem != "overview"@ && stem != "log"@
}

/// Whether the index lists the file at a path.
pub fn is_indexed(path: &str) -> (r: bool)
    ensures
        r == indexed_path(path@),
{
    if !is_markdown(path) {
        return false;
    }
    let stem = lower_ascii(chars_of(stem_of_path(path).as_str()).as_slice());
    !same_chars(stem.as_slice(), chars_of("index").as_slice()) && !same_chars(
        stem.as_slice(),
        chars_of("overview").as_slice(),
    ) && !same_chars(stem.as_slice(), chars_of("log").as_slice())
}

/// The answer when the pages cannot be looked through.
pub fn scan_failed(message: &str) -> (e: ApiError)
    ensures
        e@ == plain_error(500, "INDEX_SCAN_FAILED"@, message@),
{
    ApiError::new(500, "INDEX_SCAN_FAILED", message)
}

/// A page in the index: its kind, the target of its link, and its title, which is given in
/// lower case too.
pub struct IndexEntry {
    pub page_type: String,
    pub target: String,
    pub title: String,
    pub lower_title: String,
}

/// The view of an [`IndexEntry`].
pub struct EntryView {
    pub page_type: Seq<char>,
    pub target: Seq<char>,
    pub title: Seq<char>,
    pub lower_title: Seq<char>,
}

impl View for IndexEntry {
    type V = EntryView;

    open spec fn view(&self) -> EntryView {
        EntryView {
            page_type: self.page_type@,
            target: self.target@,
            title: self.title@,
            lower_title: self.lower_title@,
        }
    }
}

/// The views of entries.
pub open spec fn entry_views(entries: Seq<IndexEntry>) -> Seq<EntryView> {
    Seq::new(entries.len(), |i: int| entries[i]@)
}

/// The text of a path that ends with the name of a file, without the extension of that. Of a
/// name that would be left with a single dot, the dot of the extension stays.
pub open spec fn without_extension(text: Seq<char>) -> Seq<char> {
    match file_name_spec(text) {
        Some(name) => match extension_spec(name) {
            Some(extension) => if stem_spec(name) == "."@ {
                text.take(text.len() - extension.len())
            } else {
                text.take(text.len() - extension.len() - 1)
            },
            None => text,
        },
        None => text,
    }
}

/// The extension of a file, with its dot, is no longer than the path.
proof fn lemma_extension_fits(text: Seq<char>)
    ensures
        file_name_spec(text) matches Some(name) ==> (extension_spec(name) matches Some(extension)
            ==> extension.len() + 1 <= text.len()),
{
    lemma_file_name_fits(text);
    if let Some(name) = file_name_spec(text) {
        law_stem_and_extension(name);
    }
}

/// A path that ends with the name of a file, without the extension of that.
fn drop_extension(text: &str) -> (r: Vec<char>)
    ensures
        r@ == without_extension(text@),
{
    let mut chars = chars_of(text);
    proof {
        lemma_extension_fits(text@);
    }
    if let Some(name) = file_name(text) {
        if let Some(extension) = extension(name.as_str()) {
            let n: usize = chars_of(extension.as_str()).len();
            let kept: usize = if same(file_stem(name.as_str()).as_str(), ".") {
                chars.len() - n
            } else {
                chars.len() - n - 1
            };
            chars.truncate(kept);
            assert(chars@ =~= without_extension(text@));
        }
    }
    chars
}

/// The kind of a page: as its front matter says, or "other".
pub open spec fn entry_type(content: Seq<char>) -> Seq<char> {
    match frontmatter_spec(content, "type"@) {
        Some(value) => value,
        None => "other"@,
    }
}

/// The title of a page: as its front matter says, its first heading, or the name of its file.
pub open spec fn entry_title(page: PageView) -> Seq<char> {
    match frontmatter_spec(page.content, "title"@) {
        Some(title) => title,
        None => match title_spec(page.content) {
            Some(title) => title,
            None => path_stem(page.path),
        },
    }
}

/// The entry of a page that lies in the wiki.
pub open spec fn entry_spec(root: Seq<char>, page: PageView) -> Option<EntryView> {
    match text_below(page.path, root) {
        Some(text) => Some(
            EntryView {
                page_type: entry_type(page.content),
                target: replace_char_spec(without_extension(text), '\\', '/'),
                title: entry_title(page),
                lower_title: lowercase(entry_title(page)),
            },
        ),
        None => None,
    }
}

/// The entries of the files that the index lists, in order, if all lie in the wiki.
pub open spec fn entries_spec(root: Seq<char>, pages: Seq<PageView>) -> Option<Seq<EntryView>>
    decreases pages.len(),
{
    if pages.len() == 0 {
        Some(seq![])
    } else {
        match entries_spec(root, pages.drop_last()) {
            None => None,
            Some(before) => if !indexed_path(pages.last().path) {
                Some(before)
            } else {
                match entry_spec(root, pages.last()) {
                    Some(entry) => Some(before.push(entry)),
                    None => None,
                }
            },
        }
    }
}

/// A file outside the wiki spoils every longer list of files.
proof fn lemma_entries_spoiled(root: Seq<char>, pages: Seq<PageView>, n: int)
    requires
        0 <= n <= pages.len(),
        entries_spec(root, pages.take(n)) is None,
    ensures
        entries_spec(root, pages) is None,
    decreases pages.len() - n,
{
    if n == pages.len() {
        assert(pages.take(n) =~= pages);
    } else {
        assert(pages.take(n + 1).drop_last() =~= pages.take(n));
        lemma_entries_spoiled(root, pages, n + 1);
    }
}

/// The test that an entry is of a kind.
pub open spec fn of_type(page_type: Seq<char>) -> spec_fn(EntryView) -> bool {
    |entry: EntryView| entry.page_type == page_type
}

/// What entries of one kind are sorted by: the title in lower case.
pub open spec fn title_keys(entries: Seq<EntryView>) -> Seq<KeyView> {
    Seq::new(entries.len(), |i: int| KeyView { rank: 0, text: entries[i].lower_title })
}

/// The entries of one kind by title.
pub open spec fn group_spec(entries: Seq<EntryView>, page_type: Seq<char>) -> Seq<EntryView> {
    let group = entries.filter(of_type(page_type));
    sorted(group, title_keys(group))
}

/// The line of an entry.
pub open spec fn entry_line(entry: EntryView) -> Seq<char> {
    "- [["@ + entry.target + "|"@ + entry.title + "]]\n"@
}

/// The lines of entries.
pub open spec fn entry_lines(entries: Seq<EntryView>) -> Seq<char>
    decreases entries.len(),
{
    if entries.len() == 0 {
        seq![]
    } else {
        entry_lines(entries.drop_last()) + entry_line(entries.last())
    }
}

/// The section of one kind.
pub open spec fn section(entries: Seq<EntryView>, page_type: Seq<char>) -> Seq<char> {
    "## "@ + page_type + "\n\n"@ + entry_lines(group_spec(entries, page_type)) + "\n"@
}

/// The sections of the first `n` kinds.
pub open spec fn sections(entries: Seq<EntryView>, types: Seq<Seq<char>>, n: int) -> Seq<char>
    decreases n,
{
    if n <= 0 {
        "# Wiki Index\n\n"@
    } else {
        sections(entries, types, n - 1) + section(entries, types[n - 1])
    }
}

/// Whether `types` lists the kinds of the entries in ascending order.
pub open spec fn lists_types(types: Seq<Seq<char>>, entries: Seq<EntryView>) -> bool {
    &&& ascending(types)
    &&& forall|page_type: Seq<char>| #[trigger]
        types.contains(page_type) <==> exists|i: int|
            0 <= i < entries.len() && (#[trigger] entries[i]).page_type == page_type
}

/// The kinds of the entries in ascending order.
pub open spec fn types_of(entries: Seq<EntryView>) -> Seq<Seq<char>> {
    choose|types: Seq<Seq<char>>| lists_types(types, entries)
}

/// The text of the index: a section for each kind, in the order of the kinds.
pub open spec fn index_text(entries: Seq<EntryView>) -> Seq<char> {
    sections(entries, types_of(entries), types_of(entries).len() as int)
}

/// The kinds of entries are listed in one way.
proof fn lemma_types_unique(types: Seq<Seq<char>>, entries: Seq<EntryView>)
    requires
        lists_types(types, entries),
    ensures
        types == types_of(entries),
{
    let other = types_of(entries);
    assert(lists_types(other, entries));
    assert forall|key: Seq<char>| #[trigger] types.contains(key) <==> other.contains(key) by {
        assert(types.contains(key) <==> exists|i: int|
            0 <= i < entries.len() && (#[trigger] entries[i]).page_type == key);
        assert(other.contains(key) <==> exists|i: int|
            0 <= i < entries.len() && (#[trigger] entries[i]).page_type == key);
    }
    law_ascending_is_unique(types, other);
}

/// The index of a wiki: its text, and how many pages and kinds it lists.
pub struct WikiIndex {
    pub text: String,
    pub pages: usize,
    pub groups: usize,
}

/// The view of a [`WikiIndex`].
pub struct IndexView {
    pub text: Seq<char>,
    pub pages: nat,
    pub groups: nat,
}

impl View for WikiIndex {
    type V = IndexView;

    open spec fn view(&self) -> IndexView {
        IndexView { text: self.text@, pages: self.pages as nat, groups: self.groups as nat }
    }
}

/// The index of entries.
pub open spec fn index_of(entries: Seq<EntryView>) -> IndexView {
    IndexView {
        text: index_text(entries),
        pages: entries.len(),
        groups: types_of(entries).len(),
    }
}

/// The index of files, if all that it lists lie in the wiki.
pub open spec fn index_spec(root: Seq<char>, pages: Seq<PageView>) -> Result<IndexView, ErrorView> {
    match entries_spec(root, pages) {
        Some(entries) => Ok(index_of(entries)),
        None => Err(path_escape_spec()),
    }
}

/// The entry of a page that lies in the wiki.
fn index_entry(root: &str, page: &PageFile) -> (r: Option<IndexEntry>)
    ensures
        match r {
            Some(entry) => entry_spec(root@, page@) == Some(entry@),
            None => entry_spec(root@, page@) is None,
        },
{
    let content = page.content.as_str();
    let text = match strip_base(page.path.as_str(), root) {
        Some(text) => text,
        None => {
            return None;
        },
    };
    let kept = drop_extension(text.as_str());
    let target = text_of(replace_char(kept.as_slice(), '\\', '/').as_slice());
    let page_type = match frontmatter_value(content, "type") {
        Some(value) => value,
        None => "other".to_owned(),
    };
    let title = match frontmatter_value(content, "title") {
        Some(title) => title,
        None => match markdown_title(content) {
            Some(title) => title,
            None => stem_of_path(page.path.as_str()),
        },
    };
    let lower_title = to_lower(title.as_str());
    Some(IndexEntry { page_type, target, title, lower_title })
}

/// The entries of the files that the index lists, in order, if all lie in the wiki.
fn index_entries(root: &str, pages: &Vec<PageFile>) -> (r: Option<Vec<IndexEntry>>)
    ensures
        match r {
            Some(entries) => entries_spec(root@, page_views(pages@)) == Some(entry_views(entries@)),
            None => entries_spec(root@, page_views(pages@)) is None,
        },
{
    let ghost all = page_views(pages@);
    let mut entries: Vec<IndexEntry> = Vec::new();
    let mut i: usize = 0;
    assert(all.take(0) =~= Seq::<PageView>::empty());
    assert(entry_views(entries@) =~= Seq::<EntryView>::empty());
    while i < pages.len()
        invariant
            i <= pages@.len(),
            all == page_views(pages@),
            entries_spec(root@, all.take(i as int)) == Some(entry_views(entries@)),
        decreases pages@.len() - i,
    {
        proof {
            assert(all.take(i + 1).drop_last() =~= all.take(i as int));
            assert(all.take(i + 1).last() == pages@[i as int]@);
        }
        if is_indexed(pages[i].path.as_str()) {
            let ghost before = entry_views(entries@);
            match index_entry(root, &pages[i]) {
                Some(entry) => {
                    entries.push(entry);
                    assert(entry_views(entries@) =~= before.push(entry@));
                },
                None => {
                    proof {
                        lemma_entries_spoiled(root@, all, i + 1);
                    }
                    return None;
                },
            }
        }
        i += 1;
    }
    assert(all.take(i as int) =~= all);
    Some(entries)
}

/// The views of borrowed entries.
spec fn borrowed_views(entries: Seq<&IndexEntry>) -> Seq<EntryView> {
    Seq::new(entries.len(), |i: int| entries[i]@)
}

/// Adds the section of one kind.
fn add_section(out: &mut Vec<char>, entries: &Vec<IndexEntry>, page_type: &str)
    ensures
        final(out)@ == old(out)@ + section(entry_views(entries@), page_type@),
{
    let ghost all = entry_views(entries@);
    let ghost start = out@;
    let mut group: Vec<&IndexEntry> = Vec::new();
    let mut keys: Vec<SortKey> = Vec::new();
    let mut i: usize = 0;
    proof {
        reveal(Seq::filter);
        assert(all.take(0).filter(of_type(page_type@)) =~= Seq::<EntryView>::empty());
        assert(borrowed_views(group@) =~= Seq::<EntryView>::empty());
    }
    while i < entries.len()
        invariant
            i <= entries@.len(),
            all == entry_views(entries@),
            borrowed_views(group@) == all.take(i as int).filter(of_type(page_type@)),
            key_views(keys@) == title_keys(borrowed_views(group@)),
        decreases entries@.len() - i,
    {
        let entry = &entries[i];
        let ghost before = borrowed_views(group@);
        let ghost before_keys = key_views(keys@);
        proof {
            reveal(Seq::filter);
            assert(all.take(i + 1).drop_last() =~= all.take(i as int));
            assert(all.take(i + 1).last() == entry@);
        }
        if same(entry.page_type.as_str(), page_type) {
            let key = SortKey { rank: 0, text: chars_of(entry.lower_title.as_str()) };
            keys.push(key);
            group.push(entry);
            assert(borrowed_views(group@) =~= before.push(entry@));
            assert(key_views(keys@) =~= before_keys.push(key@));
            assert(title_keys(borrowed_views(group@)) =~= title_keys(before).push(key@));
        }
        i += 1;
    }
    assert(all.take(i as int) =~= all);
    let ghost found = borrowed_views(group@);
    let ghost items = group@;
    assert(group@.len() == found.len() && keys@.len() == key_views(keys@).len());
    let ranked = sort_by_keys(group, &keys);
    let ghost order = order_of(title_keys(found));
    assert(is_stable_order(title_keys(found), order));
    assert(borrowed_views(ranked@) =~= group_spec(all, page_type@)) by {
        assert forall|j: int| 0 <= j < order.len() implies borrowed_views(ranked@)[j]
            == found[#[trigger] order[j] as int] by {
            assert(ranked@[j] == items[order[j] as int]);
        }
    }
    append_chars(out, chars_of("## ").as_slice());
    append_chars(out, chars_of(page_type).as_slice());
    append_chars(out, chars_of("\n\n").as_slice());
    let ghost top = start + ("## "@ + page_type@ + "\n\n"@);
    assert(out@ =~= top);
    let ghost rows = borrowed_views(ranked@);
    let mut k: usize = 0;
    assert(rows.take(0) =~= Seq::<EntryView>::empty());
    assert(top + entry_lines(rows.take(0)) =~= top);
    while k < ranked.len()
        invariant
            k <= ranked@.len(),
            rows == borrowed_views(ranked@),
            out@ == top + entry_lines(rows.take(k as int)),
        decreases ranked@.len() - k,
    {
        let ghost before = out@;
        let entry = ranked[k];
        proof {
            assert(rows.take(k + 1).drop_last() =~= rows.take(k as int));
            assert(rows.take(k + 1).last() == entry@);
        }
        append_chars(out, chars_of("- [[").as_slice());
        append_chars(out, chars_of(entry.target.as_str()).as_slice());
        append_chars(out, chars_of("|").as_slice());
        append_chars(out, chars_of(entry.title.as_str()).as_slice());
        append_chars(out, chars_of("]]\n").as_slice());
        assert(out@ =~= before + entry_line(entry@));
        assert(out@ =~= top + entry_lines(rows.take(k + 1)));
        k += 1;
    }
    assert(rows.take(k as int) =~= rows);
    append_chars(out, chars_of("\n").as_slice());
    assert(out@ =~= start + section(all, page_type@));
}

/// The kinds of entries.
fn collect_types(entries: &Vec<IndexEntry>) -> (r: Table<String>)
    ensures
        forall|page_type: Seq<char>| #[trigger]
            r@.contains_key(page_type) <==> exists|i: int|
                0 <= i < entries@.len() && (#[trigger] entry_views(entries@)[i]).page_type
                    == page_type,
{
    let ghost all = entry_views(entries@);
    let mut r: Table<String> = Table::new();
    let mut i: usize = 0;
    while i < entries.len()
        invariant
            i <= entries@.len(),
            all == entry_views(entries@),
            forall|page_type: Seq<char>| #[trigger]
                r@.contains_key(page_type) <==> exists|j: int|
                    0 <= j < i && (#[trigger] all[j]).page_type == page_type,
        decreases entries@.len() - i,
    {
        let ghost before = r@;
        let entry = &entries[i];
        r.insert(entry.page_type.clone(), entry.page_type.clone());
        proof {
            assert(all[i as int] == entry@);
            assert forall|page_type: Seq<char>| #[trigger] r@.contains_key(page_type) <==> exists|
                j: int,
            |
                0 <= j < i + 1 && (#[trigger] all[j]).page_type == page_type by {
                assert(r@.contains_key(page_type) <==> before.contains_key(page_type) || page_type
                    == all[i as int].page_type);
                if before.contains_key(page_type) {
                    let j = choose|j: int| 0 <= j < i && (#[trigger] all[j]).page_type == page_type;
                    assert(0 <= j < i + 1 && all[j].page_type == page_type);
                }
            }
        }
        i += 1;
    }
    r
}

/// Writes the index of entries.
pub fn write_index(entries: &Vec<IndexEntry>) -> (r: WikiIndex)
    ensures
        r@ == index_of(entry_views(entries@)),
{
    let ghost all = entry_views(entries@);
    let types = collect_types(entries);
    let n: usize = types.len();
    let ghost kinds = types.keys();
    proof {
        assert forall|page_type: Seq<char>| #[trigger] kinds.contains(page_type) <==> exists|i: int|
            0 <= i < all.len() && (#[trigger] all[i]).page_type == page_type by {
            assert(types@.contains_key(page_type) <==> kinds.contains(page_type));
        }
        lemma_types_unique(kinds, all);
    }
    let mut out: Vec<char> = chars_of("# Wiki Index\n\n");
    let mut i: usize = 0;
    while i < n
        invariant
            i <= n,
            n == types.keys().len(),
            kinds == types.keys(),
            all == entry_views(entries@),
            out@ == sections(all, kinds, i as int),
        decreases n - i,
    {
        add_section(&mut out, entries, types.key_at(i).as_str());
        i += 1;
    }
    WikiIndex { text: text_of(out.as_slice()), pages: entries.len(), groups: n }
}

/// The index of files. They are given as they stand in the directory tree of the wiki.
pub fn build_index(root: &str, pages: &Vec<PageFile>) -> (r: Result<WikiIndex, ApiError>)
    ensures
        outcome(r) == index_spec(root@, page_views(pages@)),
{
    match index_entries(root, pages) {
        Some(entries) => Ok(write_index(&entries)),
        None => Err(path_escape()),
    }
}

/// The entries in the sections of the first `n` kinds, as they are listed there.
pub open spec fn section_entries(entries: Seq<EntryView>, types: Seq<Seq<char>>, n: int) -> Seq<
    EntryView,
>
    decreases n,
{
    if n <= 0 {
        seq![]
    } else {
        section_entries(entries, types, n - 1) + group_spec(entries, types[n - 1])
    }
}

/// The entries of one kind are as often among those of the kind as among all.
proof fn lemma_filter_counts(entries: Seq<EntryView>, kind: Seq<char>, entry: EntryView)
    ensures
        entries.filter(of_type(kind)).to_multiset().count(entry) == if entry.page_type == kind {
            entries.to_multiset().count(entry)
        } else {
            0
        },
    decreases entries.len(),
{
    reveal(Seq::filter);
    if entries.len() == 0 {
        assert(entries.filter(of_type(kind)) =~= entries);
        vstd::seq_lib::to_multiset_contains(entries, entry);
    } else {
        let rest = entries.drop_last();
        let last = entries.last();
        lemma_filter_counts(rest, kind, entry);
        assert(rest.push(last) =~= entries);
        vstd::seq_lib::to_multiset_build(rest, last);
        vstd::seq_lib::to_multiset_build(rest.filter(of_type(kind)), last);
    }
}

/// A section lists the entries of its kind, as often as they are there and no others, by their
/// titles in lower case.
pub proof fn law_section_is_sorted(entries: Seq<EntryView>, kind: Seq<char>)
    requires
        entries.len() <= usize::MAX,
    ensures
        group_spec(entries, kind).to_multiset() == entries.filter(of_type(kind)).to_multiset(),
        forall|i: int|
            0 <= i < group_spec(entries, kind).len() ==> (#[trigger] group_spec(
                entries,
                kind,
            )[i]).page_type == kind,
        forall|i: int, j: int|
            0 <= i < j < group_spec(entries, kind).len() ==> !precedes(
                (#[trigger] group_spec(entries, kind)[j]).lower_title,
                (#[trigger] group_spec(entries, kind)[i]).lower_title,
            ),
{
    let found = entries.filter(of_type(kind));
    let keys = title_keys(found);
    let group = group_spec(entries, kind);
    entries.lemma_filter_len(of_type(kind));
    law_sorting_keeps_items(found, keys);
    lemma_order_exists(keys);
    let order = order_of(keys);
    assert forall|i: int, j: int| 0 <= i < j < group.len() implies !precedes(
        (#[trigger] group[j]).lower_title,
        (#[trigger] group[i]).lower_title,
    ) by {
        assert(!key_less(keys[order[j] as int], keys[order[i] as int]));
    }
    assert forall|i: int| 0 <= i < group.len() implies (#[trigger] group[i]).page_type == kind by {
        lemma_filter_counts(entries, kind, group[i]);
        vstd::seq_lib::to_multiset_contains(group, group[i]);
        assert(group.contains(group[i]));
    }
}

/// The sections of the first kinds hold the entries of those kinds, each as often as it is there.
proof fn lemma_section_counts(
    entries: Seq<EntryView>,
    types: Seq<Seq<char>>,
    n: int,
    entry: EntryView,
)
    requires
        entries.len() <= usize::MAX,
        ascending(types),
        0 <= n <= types.len(),
    ensures
        section_entries(entries, types, n).to_multiset().count(entry) == if types.take(n).contains(
            entry.page_type,
        ) {
            entries.to_multiset().count(entry)
        } else {
            0
        },
    decreases n,
{
    let kind = entry.page_type;
    if n == 0 {
        vstd::seq_lib::to_multiset_contains(section_entries(entries, types, 0), entry);
    } else {
        let before = section_entries(entries, types, n - 1);
        let group = group_spec(entries, types[n - 1]);
        lemma_section_counts(entries, types, n - 1, entry);
        law_section_is_sorted(entries, types[n - 1]);
        lemma_filter_counts(entries, types[n - 1], entry);
        vstd::seq_lib::lemma_multiset_commutative(before, group);
        let fewer = types.take(n - 1);
        let more = types.take(n);
        assert(more[n - 1] == types[n - 1]);
        if fewer.contains(kind) {
            let i = choose|i: int| 0 <= i < fewer.len() && fewer[i] == kind;
            assert(more[i] == kind);
            assert(precedes(types[i], types[n - 1]));
            lemma_precedes_asymmetric(types[i], types[n - 1]);
        } else if more.contains(kind) {
            let i = choose|i: int| 0 <= i < more.len() && more[i] == kind;
            if i < n - 1 {
                assert(fewer[i] == kind);
            }
        }
    }
}

/// The kinds of entries can be listed.
proof fn lemma_types_exist(entries: Seq<EntryView>)
    ensures
        lists_types(types_of(entries), entries),
{
    let all = Seq::new(entries.len(), |i: int| entries[i].page_type);
    let kinds = Map::new(|kind: Seq<char>| all.contains(kind), |kind: Seq<char>| ());
    vstd::seq_lib::seq_to_set_is_finite(all);
    assert(kinds.dom() =~= all.to_set());
    lemma_keys_exist(kinds);
    let types = keys_of(kinds);
    assert forall|kind: Seq<char>| #[trigger] types.contains(kind) <==> exists|i: int|
        0 <= i < entries.len() && (#[trigger] entries[i]).page_type == kind by {
        assert(kinds.contains_key(kind) <==> types.contains(kind));
        if all.contains(kind) {
            let i = choose|i: int| 0 <= i < all.len() && all[i] == kind;
            assert(entries[i].page_type == kind);
        }
        if exists|i: int| 0 <= i < entries.len() && (#[trigger] entries[i]).page_type == kind {
            let i = choose|i: int|
                0 <= i < entries.len() && (#[trigger] entries[i]).page_type == kind;
            assert(all[i] == kind);
        }
    }
    assert(lists_types(types, entries));
}

/// The sections of the index ascend by kind, and every kind has one. Together they list every
/// entry, as often as it is there, and nothing else.
pub proof fn law_every_entry_is_listed_once(entries: Seq<EntryView>)
    requires
        entries.len() <= usize::MAX,
    ensures
        lists_types(types_of(entries), entries),
        section_entries(entries, types_of(entries), types_of(entries).len() as int).to_multiset()
            == entries.to_multiset(),
{
    let types = types_of(entries);
    let n = types.len() as int;
    lemma_types_exist(entries);
    let listed = section_entries(entries, types, n);
    assert(types.take(n) =~= types);
    assert forall|entry: EntryView| #[trigger] listed.to_multiset().count(entry)
        == entries.to_multiset().count(entry) by {
        lemma_section_counts(entries, types, n, entry);
        if !types.contains(entry.page_type) {
            vstd::seq_lib::to_multiset_contains(entries, entry);
            if entries.contains(entry) {
                let i = choose|i: int| 0 <= i < entries.len() && entries[i] == entry;
                assert(entries[i].page_type == entry.page_type);
            }
        }
    }
    assert(listed.to_multiset() =~= entries.to_multiset());
}

/// The index lists a Markdown file unless it is the index, the overview or the log, in whatever
/// case these are written.
pub proof fn law_which_files_are_listed(
    directory: Seq<char>,
    stem: Seq<char>,
    extension: Seq<char>,
)
    requires
        directory.len() > 0,
        stem.len() > 0 && stem[0] != '.' && !stem.contains('/'),
        !extension.contains('/') && !extension.contains('.'),
    ensures
        indexed_path(directory + "/"@ + (stem + "."@ + extension)) <==> extension == "md"@
            && !same_ignoring_case(stem, "index"@) && !same_ignoring_case(stem, "overview"@)
            && !same_ignoring_case(stem, "log"@),
{
    reveal_strlit("index");
    reveal_strlit("overview");
    reveal_strlit("log");
    assert(lower_ascii_spec("index"@) =~= "index"@);
    assert(lower_ascii_spec("overview"@) =~= "overview"@);
    assert(lower_ascii_spec("log"@) =~= "log"@);
    assert(components_spec(directory).subrange(0, components_spec(directory).len() as int)
        =~= components_spec(directory));
    law_markdown_files_are_pages(directory, directory, stem, extension);
}

/// A page is listed under the kind and the title that its front matter gives. Without these it is
/// of another kind, and is called by its first heading or by the name of its file.
pub proof fn law_page_is_listed_as_it_says(root: Seq<char>, page: PageView)
    ensures
        entry_spec(root, page) is Some <==> text_below(page.path, root) is Some,
        entry_spec(root, page) matches Some(entry) ==> {
            &&& entry.lower_title == lowercase(entry.title)
            &&& frontmatter_spec(page.content, "type"@) matches Some(kind) ==> entry.page_type
                == kind
            &&& frontmatter_spec(page.content, "type"@) is None ==> entry.page_type == "other"@
            &&& frontmatter_spec(page.content, "title"@) matches Some(title) ==> entry.title
                == title
            &&& frontmatter_spec(page.content, "title"@) is None ==> (title_spec(
                page.content,
            ) matches Some(title) ==> entry.title == title)
            &&& frontmatter_spec(page.content, "title"@) is None && title_spec(page.content) is None
                ==> entry.title == path_stem(page.path)
        },
{
}

/// A page is linked by its path in the wiki, without the extension.
pub proof fn law_page_is_linked_by_its_path(
    root: Seq<char>,
    page: PageView,
    directory: Seq<char>,
    stem: Seq<char>,
    extension: Seq<char>,
)
    requires
        directory.len() > 0 && !directory.contains('\\'),
        stem.len() > 0 && stem[0] != '.' && !stem.contains('/') && !stem.contains('\\'),
        !extension.contains('/') && !extension.contains('.'),
        text_below(page.path, root) == Some(directory + "/"@ + (stem + "."@ + extension)),
    ensures
        entry_spec(root, page) matches Some(entry) && entry.target == directory + "/"@ + stem,
{
    reveal_strlit(".");
    reveal_strlit("..");
    reveal_strlit("/");
    assert("."@ =~= seq!['.']);
    let name = stem + "."@ + extension;
    let text = directory + "/"@ + name;
    let target = directory + "/"@ + stem;
    assert(name[0] == stem[0] && name.len() >= 2);
    assert(!name.contains('/')) by {
        if name.contains('/') {
            let i = name.index_of('/');
            if i < stem.len() {
                assert(stem.contains(stem[i]));
            } else {
                assert(i > stem.len());
                assert(extension.contains(extension[i - stem.len() - 1]));
            }
        }
    }
    law_components_stand_between_slashes(directory, name);
    law_extension_follows_the_last_dot(stem, extension);
    assert(text.take(text.len() - extension.len() - 1) =~= target);
    assert forall|i: int| 0 <= i < target.len() implies #[trigger] target[i] != '\\' by {
        if i < directory.len() {
            assert(directory.contains(directory[i]));
        } else if i > directory.len() {
            assert(stem.contains(stem[i - directory.len() - 1]));
        }
    }
    assert(replace_char_spec(target, '\\', '/') =~= target);
}

/// Pages are listed in the order in which they were found, one entry for each that is listed at
/// all; one that does not lie in the wiki is refused.
pub proof fn law_every_listed_page_has_an_entry(
    root: Seq<char>,
    pages: Seq<PageView>,
    page: PageView,
)
    ensures
        entries_spec(root, seq![]) == Some(Seq::<EntryView>::empty()),
        entries_spec(root, pages) matches Some(entries) ==> {
            &&& !indexed_path(page.path) ==> entries_spec(root, pages.push(page)) == Some(entries)
            &&& indexed_path(page.path) ==> match entry_spec(root, page) {
                Some(entry) => entries_spec(root, pages.push(page)) == Some(entries.push(entry)),
                None => index_spec(root, pages.push(page)) matches Err(error) && error.status
                    == 400,
            }
        },
        entries_spec(root, pages) is None ==> index_spec(root, pages.push(page)) is Err,
{
    assert(pages.push(page).drop_last() =~= pages);
}

/// The text of the index begins with its heading. Every kind has a section with its name, and
/// every entry of the kind a line with its link and its title. It says how many entries and kinds
/// there are.
pub proof fn law_index_is_written_in_sections(
    entries: Seq<EntryView>,
    listed: Seq<EntryView>,
    entry: EntryView,
    types: Seq<Seq<char>>,
    n: int,
)
    requires
        0 <= n < types.len(),
    ensures
        sections(entries, types, 0) == "# Wiki Index\n\n"@,
        sections(entries, types, n + 1) == sections(entries, types, n) + ("## "@ + types[n]
            + "\n\n"@ + entry_lines(group_spec(entries, types[n])) + "\n"@),
        entry_lines(seq![]) == Seq::<char>::empty(),
        entry_lines(listed.push(entry)) == entry_lines(listed) + ("- [["@ + entry.target + "|"@
            + entry.title + "]]\n"@),
        index_of(entries).text == sections(
            entries,
            types_of(entries),
            types_of(entries).len() as int,
        ),
        index_of(entries).pages == entries.len(),
        index_of(entries).groups == types_of(entries).len(),
{
    assert(listed.push(entry).drop_last() =~= listed);
}

/// Contracts speak of whole values: every part of a value is in its view, in its place, and nothing
/// else is.
pub proof fn law_views_of_index_are_whole(
    entry: IndexEntry,
    index: WikiIndex,
    entries: Seq<IndexEntry>,
)
    ensures
        entry@.page_type == entry.page_type@,
        entry@.target == entry.target@,
        entry@.title == entry.title@,
        entry@.lower_title == entry.lower_title@,
        index@.text == index.text@,
        index@.pages == index.pages as nat,
        index@.groups == index.groups as nat,
        entry_views(entries).len() == entries.len(),
        forall|i: int|
            0 <= i < entries.len() ==> #[trigger] entry_views(entries)[i] == entries[i]@,
{
}

} // verus!
