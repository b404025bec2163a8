//! Listing the files of a project: one directory, or all of them.

use vstd::prelude::*;

use crate::assets::{essence_spec, mime_of_file, sent_mime};
use crate::error::{ApiError, ErrorView, optional, plain_error};
use crate::order::{
    KeyView, SortKey, is_arrangement, is_stable_order, key_less, key_views,
    law_sorting_keeps_items, lemma_arrangement_is_onto, lemma_order_exists, order_of, precedes,
    sort_by_keys, sorted,
};
use crate::paths::{join, join_spec, path_escape, path_escape_spec, relative_spec, relative_string};
use crate::text::chars_of;

verus! {

/// What the file system says of a file: its name, what it is, how many bytes it holds and
/// when it was changed.
pub struct DirEntry {
    pub name: String,
    pub is_symlink: bool,
    pub is_dir: bool,
    pub is_file: bool,
    pub size: u64,
    pub modified_at: u64,
}

/// The view of a [`DirEntry`].
pub struct DirEntryView {
    pub name: Seq<char>,
    pub is_symlink: bool,
    pub is_dir: bool,
    pub is_file: bool,
    pub size: u64,
    pub modified_at: u64,
}

impl View for DirEntry {
    type V = DirEntryView;

    open spec fn view(&self) -> DirEntryView {
        DirEntryView {
            name: self.name@,
            is_symlink: self.is_symlink,
            is_dir: self.is_dir,
            is_file: self.is_file,
            size: self.size,
            modified_at: self.modified_at,
        }
    }
}

/// The views of what the file system says.
pub open spec fn dir_entry_views(entries: Seq<DirEntry>) -> Seq<DirEntryView> {
    Seq::new(entries.len(), |i: int| entries[i]@)
}

/// Whether a file is listed: it is not hidden, and not a symbolic link.
pub open spec fn listed(name: Seq<char>, is_symlink: bool) -> bool {
    !(name.len() > 0 && name[0] == '.') && !is_symlink
}

/// Whether a file is listed.
pub fn is_listed(name: &str, is_symlink: bool) -> (r: bool)
    ensures
        r == listed(name@, is_symlink),
{
    let chars = chars_of(name);
    !(chars.len() > 0 && chars[0] == '.') && !is_symlink
}

/// A file in the listing of a directory.
pub struct FileEntry {
    pub path: String,
    pub name: String,
    pub is_dir: bool,
    pub size: u64,
    pub modified_at: u64,
}

/// The view of a [`FileEntry`].
pub struct FileEntryView {
    pub path: Seq<char>,
    pub name: Seq<char>,
    pub is_dir: bool,
    pub size: u64,
    pub modified_at: u64,
}

impl View for FileEntry {
    type V = FileEntryView;

    open spec fn view(&self) -> FileEntryView {
        FileEntryView {
            path: self.path@,
            name: self.name@,
            is_dir: self.is_dir,
            size: self.size,
            modified_at: self.modified_at,
        }
    }
}

impl FileEntry {
    /// What a file is called in a listing.
    pub open spec fn kind_spec(is_dir: bool) -> Seq<char> {
        if is_dir {
            "directory"@
        } else {
            "file"@
        }
    }

    /// What the file is called in a listing.
    pub fn kind(&self) -> (r: &'static str)
        ensures
            r@ == FileEntry::kind_spec(self.is_dir),
    {
        if self.is_dir {
            "directory"
        } else {
            "file"
        }
    }
}

/// The views of files in a listing.
pub open spec fn file_entry_views(entries: Seq<FileEntry>) -> Seq<FileEntryView> {
    Seq::new(entries.len(), |i: int| entries[i]@)
}

/// The path of a file in a directory that a request named.
pub open spec fn entry_path(relative: Seq<char>, name: Seq<char>) -> Seq<char> {
    if relative.len() == 0 {
        name
    } else {
        relative + "/"@ + name
    }
}

/// A file in the listing of a directory.
pub open spec fn file_entry(relative: Seq<char>, entry: DirEntryView) -> FileEntryView {
    FileEntryView {
        path: entry_path(relative, entry.name),
        name: entry.name,
        is_dir: entry.is_dir,
        size: if entry.is_file {
            entry.size
        } else {
            0
        },
        modified_at: entry.modified_at,
    }
}

/// The files of a directory that are listed, as they stand there.
pub open spec fn file_entries(relative: Seq<char>, entries: Seq<DirEntryView>) -> Seq<FileEntryView>
    decreases entries.len(),
{
    if entries.len() == 0 {
        seq![]
    } else {
        let before = file_entries(relative, entries.drop_last());
        let last = entries.last();
        if listed(last.name, last.is_symlink) {
            before.push(file_entry(relative, last))
        } else {
            before
        }
    }
}

/// What a listing is sorted by: directories come first, then by name.
pub open spec fn listing_key(is_dir: bool, name: Seq<char>) -> KeyView {
    KeyView {
        rank: if is_dir {
            0
        } else {
            1
        },
        text: name,
    }
}

/// What a listing is sorted by.
pub open spec fn listing_keys(entries: Seq<FileEntryView>) -> Seq<KeyView> {
    Seq::new(entries.len(), |i: int| listing_key(entries[i].is_dir, entries[i].name))
}

/// The key of a file in a listing.
fn make_key(is_dir: bool, name: &str) -> (r: SortKey)
    ensures
        r@ == listing_key(is_dir, name@),
{
    SortKey {
        rank: if is_dir {
            0
        } else {
            1
        },
        text: chars_of(name),
    }
}

/// The listing of a directory that a request named: directories first, then by name.
pub fn file_tree(relative: &str, entries: &Vec<DirEntry>) -> (r: Vec<FileEntry>)
    ensures
        ({
            let found = file_entries(relative@, dir_entry_views(entries@));
            file_entry_views(r@) == sorted(found, listing_keys(found))
        }),
{
    let ghost all = dir_entry_views(entries@);
    let top = chars_of(relative).len() == 0;
    let mut files: Vec<FileEntry> = Vec::new();
    let mut keys: Vec<SortKey> = Vec::new();
    let mut i: usize = 0;
    assert(all.take(0) =~= Seq::<DirEntryView>::empty());
    assert(file_entry_views(files@) =~= Seq::<FileEntryView>::empty());
    while i < entries.len()
        invariant
            i <= entries@.len(),
            all == dir_entry_views(entries@),
            top == (relative@.len() == 0),
            file_entry_views(files@) == file_entries(relative@, all.take(i as int)),
            key_views(keys@) == listing_keys(file_entry_views(files@)),
        decreases entries@.len() - i,
    {
        let entry = &entries[i];
        let ghost before = file_entry_views(files@);
        let ghost before_keys = key_views(keys@);
        proof {
            assert(all.take(i + 1).drop_last() =~= all.take(i as int));
            assert(all.take(i + 1).last() == entry@);
        }
        if is_listed(entry.name.as_str(), entry.is_symlink) {
            let path = if top {
                entry.name.clone()
            } else {
                relative.to_owned().concat("/").concat(entry.name.as_str())
            };
            let file = FileEntry {
                path,
                name: entry.name.clone(),
                is_dir: entry.is_dir,
                size: if entry.is_file {
                    entry.size
                } else {
                    0
                },
                modified_at: entry.modified_at,
            };
            let key = make_key(entry.is_dir, entry.name.as_str());
            assert(file@ == file_entry(relative@, entry@));
            keys.push(key);
            files.push(file);
            assert(file_entry_views(files@) =~= before.push(file@));
            assert(key_views(keys@) =~= before_keys.push(key@));
            assert(listing_keys(file_entry_views(files@)) =~= listing_keys(before).push(key@));
        }
        i += 1;
    }
    assert(all.take(i as int) =~= all);
    let ghost found = file_entry_views(files@);
    let ghost items = files@;
    assert(files@.len() == found.len() && keys@.len() == key_views(keys@).len());
    let ranked = sort_by_keys(files, &keys);
    let ghost order = order_of(listing_keys(found));
    assert(is_stable_order(listing_keys(found), order));
    assert(file_entry_views(ranked@) =~= sorted(found, listing_keys(found))) by {
        assert forall|j: int| 0 <= j < order.len() implies file_entry_views(ranked@)[j]
            == found[#[trigger] order[j] as int] by {
            assert(ranked@[j] == items[order[j] as int]);
        }
    }
    ranked
}

/// A file of a project, and the files in it if it is a directory.
pub struct TreeEntry {
    pub name: String,
    pub is_symlink: bool,
    pub is_dir: bool,
    pub size: u64,
    pub children: Vec<TreeEntry>,
}

/// The view of a [`TreeEntry`].
pub struct TreeEntryView {
    pub name: Seq<char>,
    pub is_symlink: bool,
    pub is_dir: bool,
    pub size: u64,
    pub children: Seq<TreeEntryView>,
}

/// The view of a file.
pub open spec fn tree_entry_view(entry: TreeEntry) -> TreeEntryView
    decreases entry,
{
    TreeEntryView {
        name: entry.name@,
        is_symlink: entry.is_symlink,
        is_dir: entry.is_dir,
        size: entry.size,
        children: tree_entry_views(entry.children@),
    }
}

/// The views of files.
pub open spec fn tree_entry_views(entries: Seq<TreeEntry>) -> Seq<TreeEntryView>
    decreases entries,
{
    if entries.len() == 0 {
        seq![]
    } else {
        tree_entry_views(entries.drop_last()).push(tree_entry_view(entries.last()))
    }
}

/// The views of files stand in the order of the files.
proof fn lemma_tree_entry_views(entries: Seq<TreeEntry>)
    ensures
        tree_entry_views(entries).len() == entries.len(),
        forall|i: int|
            0 <= i < entries.len() ==> #[trigger] tree_entry_views(entries)[i] == tree_entry_view(
                entries[i],
            ),
    decreases entries.len(),
{
    if entries.len() > 0 {
        lemma_tree_entry_views(entries.drop_last());
        let fewer = entries.drop_last();
        assert forall|i: int| 0 <= i < entries.len() implies #[trigger] tree_entry_views(entries)[i]
            == tree_entry_view(entries[i]) by {
            if i < fewer.len() {
                assert(tree_entry_views(entries)[i] == tree_entry_views(fewer)[i]);
            }
        }
    }
}

/// A node of the tree of a project.
pub struct FileTreeNode {
    pub name: String,
    pub path: String,
    pub is_dir: bool,
    pub children: Option<Vec<FileTreeNode>>,
    pub mime_type: Option<String>,
    pub size: Option<u64>,
}

/// The view of a [`FileTreeNode`].
pub struct TreeNodeView {
    pub name: Seq<char>,
    pub path: Seq<char>,
    pub is_dir: bool,
    pub children: Option<Seq<TreeNodeView>>,
    pub mime_type: Option<Seq<char>>,
    pub size: Option<u64>,
}

/// The view of a node.
pub open spec fn tree_node_view(node: FileTreeNode) -> TreeNodeView
    decreases node,
{
    TreeNodeView {
        name: node.name@,
        path: node.path@,
        is_dir: node.is_dir,
        children: match node.children {
            Some(children) => Some(tree_node_views(children@)),
            None => None,
        },
        mime_type: optional(node.mime_type),
        size: node.size,
    }
}

/// The views of nodes.
pub open spec fn tree_node_views(nodes: Seq<FileTreeNode>) -> Seq<TreeNodeView>
    decreases nodes,
{
    if nodes.len() == 0 {
        seq![]
    } else {
        tree_node_views(nodes.drop_last()).push(tree_node_view(nodes.last()))
    }
}

/// The views of nodes stand in the order of the nodes.
proof fn lemma_tree_node_views(nodes: Seq<FileTreeNode>)
    ensures
        tree_node_views(nodes).len() == nodes.len(),
        forall|i: int|
            0 <= i < nodes.len() ==> #[trigger] tree_node_views(nodes)[i] == tree_node_view(
                nodes[i],
            ),
    decreases nodes.len(),
{
    if nodes.len() > 0 {
        lemma_tree_node_views(nodes.drop_last());
        let fewer = nodes.drop_last();
        assert forall|i: int| 0 <= i < nodes.len() implies #[trigger] tree_node_views(nodes)[i]
            == tree_node_view(nodes[i]) by {
            if i < fewer.len() {
                assert(tree_node_views(nodes)[i] == tree_node_views(fewer)[i]);
            }
        }
    }
}

/// What nodes are sorted by: directories come first, then by name.
pub open spec fn node_keys(nodes: Seq<TreeNodeView>) -> Seq<KeyView> {
    Seq::new(nodes.len(), |i: int| listing_key(nodes[i].is_dir, nodes[i].name))
}

/// The nodes of the files in a directory, sorted, if all lie below the root.
pub open spec fn level_spec(
    root: Seq<char>,
    directory: Seq<char>,
    entries: Seq<TreeEntryView>,
) -> Option<Seq<TreeNodeView>>
    decreases entries, 1int,
{
    match nodes_spec(root, directory, entries) {
        Some(nodes) => Some(sorted(nodes, node_keys(nodes))),
        None => None,
    }
}

/// The nodes of the files in a directory that are listed, as they stand there, if all lie
/// below the root.
pub open spec fn nodes_spec(
    root: Seq<char>,
    directory: Seq<char>,
    entries: Seq<TreeEntryView>,
) -> Option<Seq<TreeNodeView>>
    decreases entries, 0int,
{
    if entries.len() == 0 {
        Some(seq![])
    } else {
        match nodes_spec(root, directory, entries.drop_last()) {
            None => None,
            Some(before) => if !listed(entries.last().name, entries.last().is_symlink) {
                Some(before)
            } else {
                match node_spec(root, directory, entries.last()) {
                    Some(node) => Some(before.push(node)),
                    None => None,
                }
            },
        }
    }
}

/// The node of a file, if it lies below the root.
pub open spec fn node_spec(root: Seq<char>, directory: Seq<char>, entry: TreeEntryView) -> Option<
    TreeNodeView,
>
    decreases entry, 2int,
{
    let path = join_spec(directory, entry.name);
    match relative_spec(root, path) {
        Err(_) => None,
        Ok(relative) => if entry.is_dir {
            match level_spec(root, path, entry.children) {
                Some(children) => Some(
                    TreeNodeView {
                        name: entry.name,
                        path: relative,
                        is_dir: true,
                        children: Some(children),
                        mime_type: None,
                        size: None,
                    },
                ),
                None => None,
            }
        } else {
            Some(
                TreeNodeView {
                    name: entry.name,
                    path: relative,
                    is_dir: false,
                    children: None,
                    mime_type: Some(essence_spec(sent_mime(path))),
                    size: Some(entry.size),
                },
            )
        },
    }
}

/// A file outside the root spoils every longer list of files.
proof fn lemma_nodes_spoiled(
    root: Seq<char>,
    directory: Seq<char>,
    entries: Seq<TreeEntryView>,
    n: int,
)
    requires
        0 <= n <= entries.len(),
        nodes_spec(root, directory, entries.take(n)) is None,
    ensures
        nodes_spec(root, directory, entries) is None,
    decreases entries.len() - n,
{
    if n == entries.len() {
        assert(entries.take(n) =~= entries);
    } else {
        assert(entries.take(n + 1).drop_last() =~= entries.take(n));
        lemma_nodes_spoiled(root, directory, entries, n + 1);
    }
}

/// The view of nodes that may be missing.
pub open spec fn level_view(level: Option<Vec<FileTreeNode>>) -> Option<Seq<TreeNodeView>> {
    match level {
        Some(nodes) => Some(tree_node_views(nodes@)),
        None => None,
    }
}

/// The nodes of the files in a directory, sorted, if all lie below the root.
fn collect_level(root: &str, directory: &str, entries: &Vec<TreeEntry>) -> (r: Option<
    Vec<FileTreeNode>,
>)
    ensures
        level_view(r) == level_spec(root@, directory@, tree_entry_views(entries@)),
    decreases entries,
{
    let ghost all = tree_entry_views(entries@);
    proof {
        lemma_tree_entry_views(entries@);
    }
    let mut nodes: Vec<FileTreeNode> = Vec::new();
    let mut keys: Vec<SortKey> = Vec::new();
    let mut i: usize = 0;
    assert(all.take(0) =~= Seq::<TreeEntryView>::empty());
    assert(key_views(keys@) =~= node_keys(tree_node_views(nodes@)));
    while i < entries.len()
        invariant
            i <= entries@.len(),
            all == tree_entry_views(entries@),
            all.len() == entries@.len(),
            forall|j: int|
                0 <= j < all.len() ==> #[trigger] all[j] == tree_entry_view(entries@[j]),
            nodes_spec(root@, directory@, all.take(i as int)) == Some(tree_node_views(nodes@)),
            key_views(keys@) == node_keys(tree_node_views(nodes@)),
        decreases entries@.len() - i,
    {
        let entry = &entries[i];
        let ghost before = tree_node_views(nodes@);
        let ghost before_keys = key_views(keys@);
        proof {
            assert(all.take(i + 1).drop_last() =~= all.take(i as int));
            assert(all.take(i + 1).last() == all[i as int]);
            assert(all[i as int] == tree_entry_view(*entry));
        }
        if is_listed(entry.name.as_str(), entry.is_symlink) {
            let path = join(directory, entry.name.as_str());
            let relative = match relative_string(root, path.as_str()) {
                Ok(relative) => relative,
                Err(_) => {
                    proof {
                        lemma_nodes_spoiled(root@, directory@, all, i + 1);
                    }
                    return None;
                },
            };
            let node = if entry.is_dir {
                assert(decreases_to!(entries => entries@[i as int]));
                let children = match collect_level(root, path.as_str(), &entry.children) {
                    Some(children) => children,
                    None => {
                        proof {
                            lemma_nodes_spoiled(root@, directory@, all, i + 1);
                        }
                        return None;
                    },
                };
                FileTreeNode {
                    name: entry.name.clone(),
                    path: relative,
                    is_dir: true,
                    children: Some(children),
                    mime_type: None,
                    size: None,
                }
            } else {
                FileTreeNode {
                    name: entry.name.clone(),
                    path: relative,
                    is_dir: false,
                    children: None,
                    mime_type: Some(mime_of_file(path.as_str())),
                    size: Some(entry.size),
                }
            };
            let key = make_key(entry.is_dir, entry.name.as_str());
            let ghost view = tree_node_view(node);
            assert(node_spec(root@, directory@, all[i as int]) == Some(view));
            let ghost held = nodes@;
            keys.push(key);
            nodes.push(node);
            assert(nodes@.drop_last() =~= held);
            assert(tree_node_views(nodes@) =~= before.push(view));
            assert(key_views(keys@) =~= before_keys.push(key@));
            assert(node_keys(tree_node_views(nodes@)) =~= node_keys(before).push(key@));
        }
        i += 1;
    }
    assert(all.take(i as int) =~= all);
    let ghost found = tree_node_views(nodes@);
    let ghost items = nodes@;
    proof {
        lemma_tree_node_views(nodes@);
    }
    assert(nodes@.len() == found.len() && keys@.len() == key_views(keys@).len());
    let ranked = sort_by_keys(nodes, &keys);
    let ghost order = order_of(node_keys(found));
    assert(is_stable_order(node_keys(found), order));
    proof {
        lemma_tree_node_views(ranked@);
        assert(tree_node_views(ranked@) =~= sorted(found, node_keys(found))) by {
            assert forall|j: int| 0 <= j < order.len() implies tree_node_views(ranked@)[j]
                == found[#[trigger] order[j] as int] by {
                assert(ranked@[j] == items[order[j] as int]);
                assert(found[order[j] as int] == tree_node_view(items[order[j] as int]));
            }
        }
    }
    Some(ranked)
}

/// The view of the outcome of [`collect_file_tree`].
pub open spec fn tree_outcome(r: Result<Vec<FileTreeNode>, ApiError>) -> Result<
    Seq<TreeNodeView>,
    ErrorView,
> {
    match r {
        Ok(nodes) => Ok(tree_node_views(nodes@)),
        Err(error) => Err(error@),
    }
}

/// The tree of the files in a directory of a project: what is hidden and what is a symbolic
/// link is left out, directories come first, then by name.
pub fn collect_file_tree(root: &str, directory: &str, entries: &Vec<TreeEntry>) -> (r: Result<
    Vec<FileTreeNode>,
    ApiError,
>)
    ensures
        tree_outcome(r) == match level_spec(root@, directory@, tree_entry_views(entries@)) {
            Some(nodes) => Ok::<Seq<TreeNodeView>, ErrorView>(nodes),
            None => Err(path_escape_spec()),
        },
{
    match collect_level(root, directory, entries) {
        Some(nodes) => Ok(nodes),
        None => Err(path_escape()),
    }
}

/// The answer when a directory that is to be listed is none.
pub fn not_a_directory() -> (e: ApiError)
    ensures
        e@ == plain_error(404, "NOT_A_DIRECTORY"@, "directory not found"@),
{
    ApiError::new(404, "NOT_A_DIRECTORY", "directory not found")
}

/// Whether a file in a listing comes from one that may be listed.
pub open spec fn comes_from(
    relative: Seq<char>,
    entries: Seq<DirEntryView>,
    shown: FileEntryView,
) -> bool {
    exists|j: int|
        0 <= j < entries.len() && listed((#[trigger] entries[j]).name, entries[j].is_symlink)
            && shown == file_entry(relative, entries[j])
}

/// Whatever is listed may be, and comes from the directory.
proof fn lemma_file_entries(relative: Seq<char>, entries: Seq<DirEntryView>)
    ensures
        file_entries(relative, entries).len() <= entries.len(),
        forall|i: int|
            0 <= i < file_entries(relative, entries).len() ==> comes_from(
                relative,
                entries,
                #[trigger] file_entries(relative, entries)[i],
            ),
    decreases entries.len(),
{
    if entries.len() > 0 {
        let fewer = entries.drop_last();
        lemma_file_entries(relative, fewer);
        let before = file_entries(relative, fewer);
        let all = file_entries(relative, entries);
        assert forall|i: int| 0 <= i < all.len() implies comes_from(
            relative,
            entries,
            #[trigger] all[i],
        ) by {
            if i < before.len() {
                assert(all[i] == before[i]);
                assert(comes_from(relative, fewer, before[i]));
                let j = choose|j: int|
                    0 <= j < fewer.len() && listed((#[trigger] fewer[j]).name, fewer[j].is_symlink)
                        && before[i] == file_entry(relative, fewer[j]);
                assert(entries[j] == fewer[j]);
            } else {
                assert(entries[entries.len() - 1] == entries.last());
            }
        }
    }
}

/// Whatever may be listed is.
proof fn lemma_file_is_listed(relative: Seq<char>, entries: Seq<DirEntryView>, j: int)
    requires
        0 <= j < entries.len(),
        listed(entries[j].name, entries[j].is_symlink),
    ensures
        file_entries(relative, entries).contains(file_entry(relative, entries[j])),
    decreases entries.len(),
{
    let fewer = entries.drop_last();
    let before = file_entries(relative, fewer);
    let all = file_entries(relative, entries);
    if j < fewer.len() {
        lemma_file_is_listed(relative, fewer, j);
        let i = choose|i: int|
            0 <= i < before.len() && before[i] == file_entry(relative, entries[j]);
        assert(all[i] == before[i]);
    } else {
        assert(all[all.len() - 1] == file_entry(relative, entries[j]));
    }
}

/// A listing shows nothing hidden and no symbolic link, and everything else; its directories
/// come first, and both they and the files are in the order of their names.
pub proof fn law_listing_is_clean(relative: Seq<char>, entries: Seq<DirEntryView>)
    requires
        entries.len() <= usize::MAX,
    ensures
        ({
            let found = file_entries(relative, entries);
            let shown = sorted(found, listing_keys(found));
            &&& shown.to_multiset() == found.to_multiset()
            &&& forall|i: int|
                0 <= i < shown.len() ==> comes_from(relative, entries, #[trigger] shown[i])
            &&& forall|j: int|
                0 <= j < entries.len() && listed(
                    (#[trigger] entries[j]).name,
                    entries[j].is_symlink,
                ) ==> shown.contains(file_entry(relative, entries[j]))
            &&& forall|i: int, j: int|
                0 <= i < j < shown.len() ==> well_placed(
                    (#[trigger] shown[i]).is_dir,
                    shown[i].name,
                    (#[trigger] shown[j]).is_dir,
                    shown[j].name,
                )
        }),
{
    let found = file_entries(relative, entries);
    let keys = listing_keys(found);
    lemma_file_entries(relative, entries);
    lemma_order_exists(keys);
    law_sorting_keeps_items(found, keys);
    let order = order_of(keys);
    let shown = sorted(found, keys);
    assert forall|i: int| 0 <= i < shown.len() implies comes_from(
        relative,
        entries,
        #[trigger] shown[i],
    ) by {
        assert(shown[i] == found[order[i] as int]);
    }
    assert forall|j: int|
        0 <= j < entries.len() && listed(
            (#[trigger] entries[j]).name,
            entries[j].is_symlink,
        ) implies shown.contains(file_entry(relative, entries[j])) by {
        let file = file_entry(relative, entries[j]);
        lemma_file_is_listed(relative, entries, j);
        vstd::seq_lib::to_multiset_contains(found, file);
        vstd::seq_lib::to_multiset_contains(shown, file);
    }
    assert forall|i: int, j: int| 0 <= i < j < shown.len() implies well_placed(
        (#[trigger] shown[i]).is_dir,
        shown[i].name,
        (#[trigger] shown[j]).is_dir,
        shown[j].name,
    ) by {
        assert(!key_less(keys[order[j] as int], keys[order[i] as int]));
    }
}

/// Whether a file may stand before another in a listing: directories come first, and then names
/// that precede others.
pub open spec fn well_placed(
    is_dir: bool,
    name: Seq<char>,
    later_is_dir: bool,
    later_name: Seq<char>,
) -> bool {
    &&& later_is_dir ==> is_dir
    &&& is_dir == later_is_dir ==> !precedes(later_name, name)
}

/// Whether the files in every directory are so few that they can be counted.
pub open spec fn countable(entries: Seq<TreeEntryView>) -> bool
    decreases entries,
{
    &&& entries.len() <= usize::MAX
    &&& forall|i: int| 0 <= i < entries.len() ==> countable((#[trigger] entries[i]).children)
}

/// Whether a node shows a file: under its name and its path below the root, with the files in
/// it if it is a directory, and with none if it is not.
pub open spec fn shows(
    root: Seq<char>,
    directory: Seq<char>,
    entry: TreeEntryView,
    node: TreeNodeView,
) -> bool
    decreases entry, 0int,
{
    &&& listed(entry.name, entry.is_symlink)
    &&& node.name == entry.name
    &&& relative_spec(root, join_spec(directory, entry.name)) == Ok::<Seq<char>, ErrorView>(
        node.path,
    )
    &&& node.is_dir == entry.is_dir
    &&& node.is_dir <==> node.children is Some
    &&& match node.children {
        Some(children) => clean_level(
            root,
            join_spec(directory, entry.name),
            entry.children,
            children,
        ),
        None => true,
    }
}

/// Whether nodes show the files of a directory: each node shows one, each that is neither hidden
/// nor a symbolic link is shown, there are no more nodes than that, directories come first, and
/// both they and the files are in the order of their names. The same holds of the directories
/// in it, at any depth.
pub open spec fn clean_level(
    root: Seq<char>,
    directory: Seq<char>,
    entries: Seq<TreeEntryView>,
    nodes: Seq<TreeNodeView>,
) -> bool
    decreases entries, 0int,
{
    &&& nodes.len() == entries.filter(|e: TreeEntryView| listed(e.name, e.is_symlink)).len()
    &&& forall|i: int|
        0 <= i < nodes.len() ==> exists|j: int|
            0 <= j < entries.len() && shows(
                root,
                directory,
                #[trigger] entries[j],
                #[trigger] nodes[i],
            )
    &&& forall|j: int|
        0 <= j < entries.len() && listed((#[trigger] entries[j]).name, entries[j].is_symlink)
            ==> exists|i: int|
            0 <= i < nodes.len() && shows(root, directory, entries[j], #[trigger] nodes[i])
    &&& forall|i: int, j: int|
        0 <= i < j < nodes.len() ==> well_placed(
            (#[trigger] nodes[i]).is_dir,
            nodes[i].name,
            (#[trigger] nodes[j]).is_dir,
            nodes[j].name,
        )
}

/// Whether a node is that of a file which is listed.
spec fn node_of(
    root: Seq<char>,
    directory: Seq<char>,
    entry: TreeEntryView,
    node: TreeNodeView,
) -> bool {
    listed(entry.name, entry.is_symlink) && node_spec(root, directory, entry) == Some(node)
}

/// There are as many nodes as files that are listed.
proof fn lemma_nodes_len(root: Seq<char>, directory: Seq<char>, entries: Seq<TreeEntryView>)
    requires
        nodes_spec(root, directory, entries) is Some,
    ensures
        nodes_spec(root, directory, entries)->0.len() == entries.filter(
            |e: TreeEntryView| listed(e.name, e.is_symlink),
        ).len(),
        nodes_spec(root, directory, entries)->0.len() <= entries.len(),
    decreases entries.len(),
{
    reveal(Seq::filter);
    if entries.len() > 0 {
        lemma_nodes_len(root, directory, entries.drop_last());
    }
}

/// Each node is that of a file.
proof fn lemma_node_has_file(
    root: Seq<char>,
    directory: Seq<char>,
    entries: Seq<TreeEntryView>,
    i: int,
) -> (j: int)
    requires
        nodes_spec(root, directory, entries) is Some,
        0 <= i < nodes_spec(root, directory, entries)->0.len(),
    ensures
        0 <= j < entries.len(),
        node_of(root, directory, entries[j], nodes_spec(root, directory, entries)->0[i]),
    decreases entries.len(),
{
    let fewer = entries.drop_last();
    if i < nodes_spec(root, directory, fewer)->0.len() {
        lemma_node_has_file(root, directory, fewer, i)
    } else {
        entries.len() - 1
    }
}

/// Each file that is listed has a node.
proof fn lemma_file_has_node(
    root: Seq<char>,
    directory: Seq<char>,
    entries: Seq<TreeEntryView>,
    j: int,
) -> (i: int)
    requires
        nodes_spec(root, directory, entries) is Some,
        0 <= j < entries.len(),
        listed(entries[j].name, entries[j].is_symlink),
    ensures
        0 <= i < nodes_spec(root, directory, entries)->0.len(),
        node_of(root, directory, entries[j], nodes_spec(root, directory, entries)->0[i]),
    decreases entries.len(),
{
    let fewer = entries.drop_last();
    if j < fewer.len() {
        lemma_file_has_node(root, directory, fewer, j)
    } else {
        nodes_spec(root, directory, fewer)->0.len() as int
    }
}

/// The nodes of a directory, sorted: each stands where its key puts it.
proof fn lemma_nodes_sorted(nodes: Seq<TreeNodeView>)
    requires
        nodes.len() <= usize::MAX,
    ensures
        is_arrangement(order_of(node_keys(nodes)), nodes.len()),
        forall|i: int, j: int|
            0 <= i < j < nodes.len() ==> well_placed(
                (#[trigger] sorted(nodes, node_keys(nodes))[i]).is_dir,
                sorted(nodes, node_keys(nodes))[i].name,
                (#[trigger] sorted(nodes, node_keys(nodes))[j]).is_dir,
                sorted(nodes, node_keys(nodes))[j].name,
            ),
{
    let keys = node_keys(nodes);
    let order = order_of(keys);
    let shown = sorted(nodes, keys);
    lemma_order_exists(keys);
    law_sorting_keeps_items(nodes, keys);
    assert forall|i: int, j: int| 0 <= i < j < nodes.len() implies well_placed(
        (#[trigger] shown[i]).is_dir,
        shown[i].name,
        (#[trigger] shown[j]).is_dir,
        shown[j].name,
    ) by {
        assert(!key_less(keys[order[j] as int], keys[order[i] as int]));
    }
}

/// The node of a file shows it.
proof fn lemma_node_shows(
    root: Seq<char>,
    directory: Seq<char>,
    entry: TreeEntryView,
    node: TreeNodeView,
)
    requires
        countable(entry.children),
        node_of(root, directory, entry, node),
    ensures
        shows(root, directory, entry, node),
    decreases entry, 0int,
{
    if entry.is_dir {
        law_tree_is_clean(root, join_spec(directory, entry.name), entry.children);
    }
}

/// The tree of a project shows, in every directory, nothing hidden and no symbolic link, and
/// everything else; directories come first, and both they and the files are in the order of
/// their names. What is a directory, and nothing else, has files in it.
pub proof fn law_tree_is_clean(
    root: Seq<char>,
    directory: Seq<char>,
    entries: Seq<TreeEntryView>,
)
    requires
        countable(entries),
    ensures
        level_spec(root, directory, entries) matches Some(nodes) ==> clean_level(
            root,
            directory,
            entries,
            nodes,
        ),
    decreases entries, 0int,
{
    if let Some(nodes) = level_spec(root, directory, entries) {
        let found = nodes_spec(root, directory, entries)->0;
        let order = order_of(node_keys(found));
        lemma_nodes_len(root, directory, entries);
        lemma_nodes_sorted(found);
        assert forall|i: int| 0 <= i < nodes.len() implies exists|j: int|
            0 <= j < entries.len() && shows(
                root,
                directory,
                #[trigger] entries[j],
                #[trigger] nodes[i],
            ) by {
            let j = lemma_node_has_file(root, directory, entries, order[i] as int);
            lemma_node_shows(root, directory, entries[j], nodes[i]);
        }
        assert forall|j: int|
            0 <= j < entries.len() && listed(
                (#[trigger] entries[j]).name,
                entries[j].is_symlink,
            ) implies exists|i: int|
            0 <= i < nodes.len() && shows(root, directory, entries[j], #[trigger] nodes[i]) by {
            let at = lemma_file_has_node(root, directory, entries, j);
            lemma_arrangement_is_onto(order, found.len(), at);
            let i = choose|i: int| 0 <= i < found.len() && #[trigger] order[i] == at;
            lemma_node_shows(root, directory, entries[j], nodes[i]);
        }
    }
}

/// A file is listed exactly if it does not begin with a dot and is no symbolic link: under its
/// name behind the directory that was asked for, with its size if it is a file.
pub proof fn law_file_is_listed_as_it_is(relative: Seq<char>, entry: DirEntryView)
    ensures
        entry.name.len() > 0 ==> (listed(entry.name, entry.is_symlink) <==> entry.name[0] != '.'
            && !entry.is_symlink),
        ({
            let shown = file_entry(relative, entry);
            &&& relative.len() > 0 ==> shown.path == relative + "/"@ + entry.name
            &&& relative.len() == 0 ==> shown.path == entry.name
            &&& shown.name == entry.name && shown.is_dir == entry.is_dir && shown.modified_at
                == entry.modified_at
            &&& entry.is_file ==> shown.size == entry.size
            &&& !entry.is_file ==> shown.size == 0
        }),
        FileEntry::kind_spec(true) == "directory"@,
        FileEntry::kind_spec(false) == "file"@,
{
}

/// Every file that may be listed has one place in the listing, and no other file has.
pub proof fn law_files_are_listed_one_by_one(
    relative: Seq<char>,
    entries: Seq<DirEntryView>,
    entry: DirEntryView,
)
    ensures
        file_entries(relative, seq![]) == Seq::<FileEntryView>::empty(),
        file_entries(relative, entries.push(entry)) == if listed(entry.name, entry.is_symlink) {
            file_entries(relative, entries).push(file_entry(relative, entry))
        } else {
            file_entries(relative, entries)
        },
{
    assert(entries.push(entry).drop_last() =~= entries);
}

/// A node of the tree has the name of the file and its path below the root. A directory has the
/// nodes of what is in it, and a file its media type and its size.
pub proof fn law_node_describes_its_file(
    root: Seq<char>,
    directory: Seq<char>,
    entry: TreeEntryView,
)
    ensures
        match node_spec(root, directory, entry) {
            Some(node) => {
                let path = join_spec(directory, entry.name);
                &&& node.name == entry.name && node.is_dir == entry.is_dir
                &&& relative_spec(root, path) == Ok::<Seq<char>, ErrorView>(node.path)
                &&& entry.is_dir ==> {
                    &&& node.children == level_spec(root, path, entry.children)
                    &&& node.children is Some && node.mime_type is None && node.size is None
                }
                &&& !entry.is_dir ==> {
                    &&& node.children is None && node.size == Some(entry.size)
                    &&& node.mime_type == Some(essence_spec(sent_mime(path)))
                }
            },
            None => {
                let path = join_spec(directory, entry.name);
                relative_spec(root, path) is Err || (entry.is_dir && level_spec(
                    root,
                    path,
                    entry.children,
                ) is None)
            },
        },
{
}

/// Every file that may be listed has one node, and no other file has.
pub proof fn law_nodes_are_made_one_by_one(
    root: Seq<char>,
    directory: Seq<char>,
    entries: Seq<TreeEntryView>,
    entry: TreeEntryView,
)
    ensures
        nodes_spec(root, directory, seq![]) == Some(Seq::<TreeNodeView>::empty()),
        nodes_spec(root, directory, entries) matches Some(nodes) ==> {
            &&& !listed(entry.name, entry.is_symlink) ==> nodes_spec(
                root,
                directory,
                entries.push(entry),
            ) == Some(nodes)
            &&& listed(entry.name, entry.is_symlink) ==> match node_spec(root, directory, entry) {
                Some(node) => nodes_spec(root, directory, entries.push(entry)) == Some(
                    nodes.push(node),
                ),
                None => nodes_spec(root, directory, entries.push(entry)) is None,
            }
        },
{
    assert(entries.push(entry).drop_last() =~= entries);
}

/// Contracts speak of whole values: every part of a value is in its view, in its place, and nothing
/// else is.
pub proof fn law_views_of_tree_are_whole(
    entry: DirEntry,
    listed_entry: FileEntry,
    entries: Seq<DirEntry>,
    all_entries: Seq<FileEntry>,
    level: Option<Vec<FileTreeNode>>,
    tree: Result<Vec<FileTreeNode>, ApiError>,
    one: TreeEntry,
    files: Seq<TreeEntry>,
    node: FileTreeNode,
    nodes: Seq<FileTreeNode>,
)
    ensures
        entry@.name == entry.name@,
        entry@.is_symlink == entry.is_symlink,
        entry@.is_dir == entry.is_dir,
        entry@.is_file == entry.is_file,
        entry@.size == entry.size,
        entry@.modified_at == entry.modified_at,
        listed_entry@.path == listed_entry.path@,
        listed_entry@.name == listed_entry.name@,
        listed_entry@.is_dir == listed_entry.is_dir,
        listed_entry@.size == listed_entry.size,
        listed_entry@.modified_at == listed_entry.modified_at,
        dir_entry_views(entries).len() == entries.len(),
        forall|i: int|
            0 <= i < entries.len() ==> #[trigger] dir_entry_views(entries)[i] == entries[i]@,
        file_entry_views(all_entries).len() == all_entries.len(),
        forall|i: int|
            0 <= i < all_entries.len() ==> #[trigger] file_entry_views(all_entries)[i]
                == all_entries[i]@,
        match level {
            Some(all) => level_view(level) == Some(tree_node_views(all@)),
            None => level_view(level) is None,
        },
        match tree {
            Ok(all) => tree_outcome(tree) matches Ok(shown) && shown == tree_node_views(all@),
            Err(error) => tree_outcome(tree) matches Err(shown) && shown == error@,
        },
        tree_entry_view(one).name == one.name@,
        tree_entry_view(one).is_symlink == one.is_symlink,
        tree_entry_view(one).is_dir == one.is_dir,
        tree_entry_view(one).size == one.size,
        tree_entry_view(one).children == tree_entry_views(one.children@),
        tree_entry_views(files).len() == files.len(),
        forall|i: int|
            0 <= i < files.len() ==> #[trigger] tree_entry_views(files)[i] == tree_entry_view(
                files[i],
            ),
        tree_node_view(node).name == node.name@,
        tree_node_view(node).path == node.path@,
        tree_node_view(node).is_dir == node.is_dir,
        tree_node_view(node).mime_type == optional(node.mime_type),
        tree_node_view(node).size == node.size,
        match node.children {
            Some(all) => tree_node_view(node).children == Some(tree_node_views(all@)),
            None => tree_node_view(node).children is None,
        },
        tree_node_views(nodes).len() == nodes.len(),
        forall|i: int|
            0 <= i < nodes.len() ==> #[trigger] tree_node_views(nodes)[i] == tree_node_view(
                nodes[i],
            ),
{
    lemma_tree_entry_views(files);
    lemma_tree_node_views(nodes);
}

} // verus!
