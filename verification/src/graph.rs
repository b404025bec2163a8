//! The graph of a wiki: its pages, and the links between them.

use vstd::prelude::*;

use crate::error::optional;
use crate::markdown::{links_spec, markdown_title, title_spec, wiki_links};
use crate::pages::{PageFile, PageView, is_page, page_path, page_views};
use crate::paths::{below, relative_spec, relative_string};
use crate::order::{lemma_precedes_asymmetric, precedes};
use crate::table::{Table, ascending, keys_of, lemma_keys_exist};
use crate::text::{
    CharSet, chars_of, eq_ignore_ascii_case, index_in, law_case_alone_is_ignored, lemma_index_in,
    lemma_index_in_is, lemma_split_pieces, lemma_trim_end, lower_ascii_spec, lower_char,
    replace_char, replace_char_spec, same, same_ignoring_case, same_letter, split, split_spec,
    text_of, texts, trim_end, trim_end_spec, trim_suffixes, trim_suffixes_spec, views,
};

verus! {

/// What follows the last slash.
pub open spec fn last_segment(s: Seq<char>) -> Seq<char> {
    split_spec(s, CharSet::One('/')).last()
}

/// What follows the last slash.
fn segment_of<'a>(s: &'a [char]) -> (r: &'a [char])
    ensures
        r@ == last_segment(s@),
{
    proof {
        lemma_split_pieces(s@, CharSet::One('/'));
    }
    let parts = split(s, CharSet::One('/'));
    assert(views(parts@)[parts@.len() - 1] == parts@[parts@.len() - 1]@);
    parts[parts.len() - 1]
}

/// The kind of a page: the directory that it lies in below the first one, without the plural.
pub open spec fn graph_type_spec(path: Seq<char>) -> Seq<char> {
    let parts = split_spec(path, CharSet::One('/'));
    trim_end_spec(
        if parts.len() > 1 {
            parts[1]
        } else {
            "other"@
        },
        CharSet::One('s'),
    )
}

/// The kind of a page.
pub fn graph_type(path: &str) -> (r: String)
    ensures
        r@ == graph_type_spec(path@),
{
    let chars = chars_of(path);
    let parts = split(chars.as_slice(), CharSet::One('/'));
    let other = chars_of("other");
    if parts.len() > 1 {
        assert(views(parts@)[1] == parts@[1]@);
        text_of(trim_end(parts[1], CharSet::One('s')))
    } else {
        text_of(trim_end(other.as_slice(), CharSet::One('s')))
    }
}

/// The text that a link is compared by.
pub open spec fn normalized_link(link: Seq<char>) -> Seq<char> {
    replace_char_spec(trim_suffixes_spec(link, ".md"@), '\\', '/')
}

/// Whether a link names a page: by its identifier, or by the last part of it with dashes for
/// spaces, in any case.
pub open spec fn link_names(link: Seq<char>, id: Seq<char>) -> bool {
    let text = normalized_link(link);
    same_ignoring_case(id, text) || same_ignoring_case(
        last_segment(id),
        replace_char_spec(text, ' ', '-'),
    )
}

/// The first page that a link names.
pub open spec fn resolve_spec(link: Seq<char>, ids: Seq<Seq<char>>) -> Option<Seq<char>>
    decreases ids.len(),
{
    if ids.len() == 0 {
        None
    } else if link_names(link, ids[0]) {
        Some(ids[0])
    } else {
        resolve_spec(link, ids.drop_first())
    }
}

/// The first page that a link names.
pub fn resolve_graph_link(link: &str, ids: &Vec<String>) -> (r: Option<String>)
    ensures
        optional(r) == resolve_spec(link@, texts(ids@)),
{
    let chars = chars_of(link);
    let suffix = chars_of(".md");
    let text = replace_char(trim_suffixes(chars.as_slice(), suffix.as_slice()), '\\', '/');
    let dashed = replace_char(text.as_slice(), ' ', '-');
    let ghost all = texts(ids@);
    let mut i: usize = 0;
    assert(all.skip(0) =~= all);
    while i < ids.len()
        invariant
            i <= ids@.len(),
            all == texts(ids@),
            text@ == normalized_link(link@),
            dashed@ == replace_char_spec(text@, ' ', '-'),
            resolve_spec(link@, all) == resolve_spec(link@, all.skip(i as int)),
        decreases ids@.len() - i,
    {
        proof {
            assert(all.skip(i as int)[0] == ids@[i as int]@);
            assert(all.skip(i as int).drop_first() =~= all.skip(i + 1));
        }
        let id = chars_of(ids[i].as_str());
        if eq_ignore_ascii_case(id.as_slice(), text.as_slice()) || eq_ignore_ascii_case(
            segment_of(id.as_slice()),
            dashed.as_slice(),
        ) {
            return Some(ids[i].clone());
        }
        i += 1;
    }
    None
}

/// A page of the graph: its label, its path and the links on it.
pub struct GraphPage {
    pub label: String,
    pub path: String,
    pub links: Vec<String>,
}

/// The view of a [`GraphPage`].
pub struct GraphPageView {
    pub label: Seq<char>,
    pub path: Seq<char>,
    pub links: Seq<Seq<char>>,
}

impl View for GraphPage {
    type V = GraphPageView;

    open spec fn view(&self) -> GraphPageView {
        GraphPageView { label: self.label@, path: self.path@, links: texts(self.links@) }
    }
}

/// The identifier of the page at a relative path.
pub open spec fn page_id(relative: Seq<char>) -> Seq<char> {
    trim_suffixes_spec(relative, ".md"@)
}

/// The relative path of a page.
pub open spec fn page_relative(root: Seq<char>, page: PageView) -> Seq<char> {
    relative_spec(root, page.path)->Ok_0
}

/// What the graph holds of a page.
pub open spec fn graph_page(root: Seq<char>, page: PageView) -> GraphPageView {
    let relative = page_relative(root, page);
    GraphPageView {
        label: match title_spec(page.content) {
            Some(title) => title,
            None => last_segment(page_id(relative)),
        },
        path: relative,
        links: links_spec(page.content),
    }
}

/// The pages of the graph by identifier; of two with one identifier the later counts.
pub open spec fn graph_pages(root: Seq<char>, pages: Seq<PageView>) -> Map<
    Seq<char>,
    GraphPageView,
>
    decreases pages.len(),
{
    if pages.len() == 0 {
        Map::empty()
    } else {
        let before = graph_pages(root, pages.drop_last());
        let page = pages.last();
        if page_path(root, page.path) {
            before.insert(page_id(page_relative(root, page)), graph_page(root, page))
        } else {
            before
        }
    }
}

/// A link from one page to another.
pub struct GraphEdge {
    pub source: String,
    pub target: String,
}

/// The view of a [`GraphEdge`].
pub struct EdgeView {
    pub source: Seq<char>,
    pub target: Seq<char>,
}

impl View for GraphEdge {
    type V = EdgeView;

    open spec fn view(&self) -> EdgeView {
        EdgeView { source: self.source@, target: self.target@ }
    }
}

/// The views of edges.
pub open spec fn edge_views(edges: Seq<GraphEdge>) -> Seq<EdgeView> {
    Seq::new(edges.len(), |i: int| edges[i]@)
}

/// The edges that the links on one page give: one for each link that names a page.
pub open spec fn page_edges(
    source: Seq<char>,
    links: Seq<Seq<char>>,
    ids: Seq<Seq<char>>,
) -> Seq<EdgeView>
    decreases links.len(),
{
    if links.len() == 0 {
        seq![]
    } else {
        let before = page_edges(source, links.drop_last(), ids);
        match resolve_spec(links.last(), ids) {
            Some(target) => before.push(EdgeView { source, target }),
            None => before,
        }
    }
}

/// The edges that the links on the first `n` pages give.
pub open spec fn edges_spec(
    ids: Seq<Seq<char>>,
    pages: Map<Seq<char>, GraphPageView>,
    n: int,
) -> Seq<EdgeView>
    decreases n,
{
    if n <= 0 {
        seq![]
    } else {
        edges_spec(ids, pages, n - 1) + page_edges(ids[n - 1], pages[ids[n - 1]].links, ids)
    }
}

/// How many ends of edges are at a page.
pub open spec fn ends_at(edges: Seq<EdgeView>, id: Seq<char>) -> nat
    decreases edges.len(),
{
    if edges.len() == 0 {
        0
    } else {
        let edge = edges.last();
        ends_at(edges.drop_last(), id) + (if edge.source == id {
            1nat
        } else {
            0
        }) + (if edge.target == id {
            1nat
        } else {
            0
        })
    }
}

/// A page as a node of the graph.
pub struct GraphNode {
    pub id: String,
    pub label: String,
    pub node_type: String,
    pub path: String,
    pub link_count: u128,
}

/// The view of a [`GraphNode`].
pub struct NodeView {
    pub id: Seq<char>,
    pub label: Seq<char>,
    pub node_type: Seq<char>,
    pub path: Seq<char>,
    pub link_count: nat,
}

impl View for GraphNode {
    type V = NodeView;

    open spec fn view(&self) -> NodeView {
        NodeView {
            id: self.id@,
            label: self.label@,
            node_type: self.node_type@,
            path: self.path@,
            link_count: self.link_count as nat,
        }
    }
}

/// The views of nodes.
pub open spec fn node_views(nodes: Seq<GraphNode>) -> Seq<NodeView> {
    Seq::new(nodes.len(), |i: int| nodes[i]@)
}

/// The node of a page.
pub open spec fn node_spec(id: Seq<char>, page: GraphPageView, edges: Seq<EdgeView>) -> NodeView {
    NodeView {
        id,
        label: page.label,
        node_type: graph_type_spec(page.path),
        path: page.path,
        link_count: ends_at(edges, id),
    }
}

/// The nodes of the pages.
pub open spec fn nodes_spec(
    ids: Seq<Seq<char>>,
    pages: Map<Seq<char>, GraphPageView>,
    edges: Seq<EdgeView>,
) -> Seq<NodeView> {
    Seq::new(ids.len(), |i: int| node_spec(ids[i], pages[ids[i]], edges))
}

/// The graph of a wiki.
pub struct Graph {
    pub nodes: Vec<GraphNode>,
    pub edges: Vec<GraphEdge>,
}

/// The view of a [`Graph`].
pub struct GraphView {
    pub nodes: Seq<NodeView>,
    pub edges: Seq<EdgeView>,
}

impl View for Graph {
    type V = GraphView;

    open spec fn view(&self) -> GraphView {
        GraphView { nodes: node_views(self.nodes@), edges: edge_views(self.edges@) }
    }
}

/// The graph of pages: the pages in the order of their identifiers, and an edge for each link
/// that names a page, in the order of the pages and of the links on them.
pub open spec fn graph_spec(pages: Map<Seq<char>, GraphPageView>) -> GraphView {
    let ids = keys_of(pages);
    let edges = edges_spec(ids, pages, ids.len() as int);
    GraphView { nodes: nodes_spec(ids, pages, edges), edges }
}

/// Adds the edges that the links on one page give.
fn add_edges(edges: &mut Vec<GraphEdge>, source: &str, links: &Vec<String>, ids: &Vec<String>)
    ensures
        edge_views(final(edges)@) == edge_views(old(edges)@) + page_edges(
            source@,
            texts(links@),
            texts(ids@),
        ),
{
    let ghost start = edge_views(edges@);
    let ghost all = texts(links@);
    let mut i: usize = 0;
    assert(all.take(0) =~= Seq::<Seq<char>>::empty());
    assert(start + page_edges(source@, all.take(0), texts(ids@)) =~= start);
    while i < links.len()
        invariant
            i <= links@.len(),
            all == texts(links@),
            edge_views(edges@) == start + page_edges(
                source@,
                all.take(i as int),
                texts(ids@),
            ),
        decreases links@.len() - i,
    {
        let ghost before = edge_views(edges@);
        proof {
            assert(all.take(i + 1).drop_last() =~= all.take(i as int));
            assert(all.take(i + 1).last() == links@[i as int]@);
        }
        if let Some(target) = resolve_graph_link(links[i].as_str(), ids) {
            let edge = GraphEdge { source: source.to_owned(), target };
            edges.push(edge);
            assert(edge_views(edges@) =~= before.push(edge@));
            assert(edge_views(edges@) =~= start + page_edges(
                source@,
                all.take(i + 1),
                texts(ids@),
            ));
        }
        i += 1;
    }
    assert(all.take(i as int) =~= all);
}

/// How many ends of edges are at a page.
fn count_ends(edges: &Vec<GraphEdge>, id: &str) -> (n: u128)
    ensures
        n == ends_at(edge_views(edges@), id@),
{
    let ghost all = edge_views(edges@);
    let mut n: u128 = 0;
    let mut i: usize = 0;
    assert(all.take(0) =~= Seq::<EdgeView>::empty());
    while i < edges.len()
        invariant
            i <= edges@.len(),
            all == edge_views(edges@),
            n == ends_at(all.take(i as int), id@),
            n <= 2 * i,
        decreases edges@.len() - i,
    {
        proof {
            assert(all.take(i + 1).drop_last() =~= all.take(i as int));
            assert(all.take(i + 1).last() == edges@[i as int]@);
        }
        if same(edges[i].source.as_str(), id) {
            n = n + 1;
        }
        if same(edges[i].target.as_str(), id) {
            n = n + 1;
        }
        i += 1;
    }
    assert(all.take(i as int) =~= all);
    n
}

/// The pages of the graph by identifier.
fn collect_pages(root: &str, pages: &Vec<PageFile>) -> (r: Table<GraphPage>)
    ensures
        r@ == graph_pages(root@, page_views(pages@)),
{
    let mut r: Table<GraphPage> = Table::new();
    let ghost all = page_views(pages@);
    let suffix = chars_of(".md");
    let mut i: usize = 0;
    assert(all.take(0) =~= Seq::<PageView>::empty());
    while i < pages.len()
        invariant
            i <= pages@.len(),
            all == page_views(pages@),
            suffix@ == ".md"@,
            r@ == graph_pages(root@, all.take(i as int)),
        decreases pages@.len() - i,
    {
        proof {
            assert(all.take(i + 1).drop_last() =~= all.take(i as int));
            assert(all.take(i + 1).last() == pages@[i as int]@);
        }
        let page = &pages[i];
        if is_page(root, page.path.as_str()) {
            assert(below(page.path@, root@));
            if let Ok(path) = relative_string(root, page.path.as_str()) {
                let chars = chars_of(path.as_str());
                let id = trim_suffixes(chars.as_slice(), suffix.as_slice());
                let label = match markdown_title(page.content.as_str()) {
                    Some(title) => title,
                    None => text_of(segment_of(id)),
                };
                let key = text_of(id);
                let links = wiki_links(page.content.as_str());
                let entry = GraphPage { label, path, links };
                assert(entry@ == graph_page(root@, page@));
                r.insert(key, entry);
            }
        }
        i += 1;
    }
    assert(all.take(i as int) =~= all);
    r
}

/// The graph of files. They are given as they stand in the directory tree of the project.
pub fn build_graph(root: &str, pages: &Vec<PageFile>) -> (r: Graph)
    ensures
        r@ == graph_spec(graph_pages(root@, page_views(pages@))),
{
    let table = collect_pages(root, pages);
    let n: usize = table.len();
    let ghost all = table.keys();
    let mut ids: Vec<String> = Vec::new();
    let mut i: usize = 0;
    while i < n
        invariant
            i <= n,
            n == table.keys().len(),
            all == table.keys(),
            texts(ids@) == all.take(i as int),
        decreases n - i,
    {
        let ghost before = texts(ids@);
        ids.push(table.key_at(i).clone());
        assert(texts(ids@) =~= before.push(all[i as int]));
        assert(all.take(i + 1) =~= all.take(i as int).push(all[i as int]));
        i += 1;
    }
    assert(texts(ids@) =~= all);
    let mut edges: Vec<GraphEdge> = Vec::new();
    let mut k: usize = 0;
    assert(edge_views(edges@) =~= Seq::<EdgeView>::empty());
    while k < n
        invariant
            k <= n,
            n == table.keys().len(),
            all == table.keys(),
            texts(ids@) == all,
            edge_views(edges@) == edges_spec(all, table@, k as int),
        decreases n - k,
    {
        let page = table.value_at(k);
        add_edges(&mut edges, table.key_at(k).as_str(), &page.links, &ids);
        k += 1;
    }
    let mut nodes: Vec<GraphNode> = Vec::new();
    let ghost whole = edge_views(edges@);
    let mut j: usize = 0;
    while j < n
        invariant
            j <= n,
            n == table.keys().len(),
            all == table.keys(),
            whole == edge_views(edges@),
            node_views(nodes@) == nodes_spec(all, table@, whole).take(j as int),
        decreases n - j,
    {
        let ghost before = node_views(nodes@);
        let page = table.value_at(j);
        let id = table.key_at(j);
        let node = GraphNode {
            id: id.clone(),
            label: page.label.clone(),
            node_type: graph_type(page.path.as_str()),
            path: page.path.clone(),
            link_count: count_ends(&edges, id.as_str()),
        };
        assert(node@ == node_spec(all[j as int], table@[all[j as int]], whole));
        nodes.push(node);
        assert(node_views(nodes@) =~= before.push(node@));
        assert(nodes_spec(all, table@, whole).take(j + 1) =~= nodes_spec(
            all,
            table@,
            whole,
        ).take(j as int).push(node@));
        j += 1;
    }
    assert(node_views(nodes@) =~= nodes_spec(all, table@, whole));
    Graph { nodes, edges }
}

/// A resolved link names one of the pages.
proof fn lemma_resolved_is_page(link: Seq<char>, ids: Seq<Seq<char>>)
    ensures
        resolve_spec(link, ids) matches Some(id) ==> ids.contains(id) && link_names(link, id),
    decreases ids.len(),
{
    if ids.len() > 0 {
        if link_names(link, ids[0]) {
            assert(ids.contains(ids[0]));
        } else {
            let rest = ids.drop_first();
            lemma_resolved_is_page(link, rest);
            if let Some(id) = resolve_spec(link, rest) {
                let i = choose|i: int| 0 <= i < rest.len() && rest[i] == id;
                assert(ids[i + 1] == id);
            }
        }
    }
}

/// The edges of one page lead from it to pages.
proof fn lemma_page_edges(source: Seq<char>, links: Seq<Seq<char>>, ids: Seq<Seq<char>>)
    ensures
        forall|i: int|
            0 <= i < page_edges(source, links, ids).len() ==> {
                let edge = #[trigger] page_edges(source, links, ids)[i];
                edge.source == source && ids.contains(edge.target)
            },
    decreases links.len(),
{
    if links.len() > 0 {
        let before = page_edges(source, links.drop_last(), ids);
        let all = page_edges(source, links, ids);
        lemma_page_edges(source, links.drop_last(), ids);
        lemma_resolved_is_page(links.last(), ids);
        assert forall|i: int| 0 <= i < all.len() implies {
            let edge = #[trigger] all[i];
            edge.source == source && ids.contains(edge.target)
        } by {
            if i < before.len() {
                assert(all[i] == before[i]);
            }
        }
    }
}

/// The edges of the first `n` pages join pages.
proof fn lemma_edges(ids: Seq<Seq<char>>, pages: Map<Seq<char>, GraphPageView>, n: int)
    requires
        n <= ids.len(),
    ensures
        forall|i: int|
            0 <= i < edges_spec(ids, pages, n).len() ==> {
                let edge = #[trigger] edges_spec(ids, pages, n)[i];
                ids.contains(edge.source) && ids.contains(edge.target)
            },
    decreases n,
{
    if n > 0 {
        lemma_edges(ids, pages, n - 1);
        lemma_page_edges(ids[n - 1], pages[ids[n - 1]].links, ids);
        let before = edges_spec(ids, pages, n - 1);
        let more = page_edges(ids[n - 1], pages[ids[n - 1]].links, ids);
        let all = edges_spec(ids, pages, n);
        assert forall|i: int| 0 <= i < all.len() implies {
            let edge = #[trigger] all[i];
            ids.contains(edge.source) && ids.contains(edge.target)
        } by {
            if i < before.len() {
                assert(all[i] == before[i]);
            } else {
                assert(all[i] == more[i - before.len()]);
                assert(ids.contains(ids[n - 1]));
            }
        }
    }
}

/// A graph has finitely many pages.
proof fn lemma_graph_is_finite(root: Seq<char>, pages: Seq<PageView>)
    ensures
        graph_pages(root, pages).dom().finite(),
    decreases pages.len(),
{
    if pages.len() > 0 {
        lemma_graph_is_finite(root, pages.drop_last());
    }
}

/// Every edge of a graph joins pages of the wiki.
pub proof fn law_edges_join_pages(root: Seq<char>, files: Seq<PageView>)
    ensures
        ({
            let pages = graph_pages(root, files);
            forall|i: int|
                0 <= i < graph_spec(pages).edges.len() ==> {
                    let edge = #[trigger] graph_spec(pages).edges[i];
                    pages.contains_key(edge.source) && pages.contains_key(edge.target)
                }
        }),
{
    let pages = graph_pages(root, files);
    let ids = keys_of(pages);
    lemma_graph_is_finite(root, files);
    lemma_keys_exist(pages);
    lemma_edges(ids, pages, ids.len() as int);
    assert forall|i: int| 0 <= i < graph_spec(pages).edges.len() implies {
        let edge = #[trigger] graph_spec(pages).edges[i];
        pages.contains_key(edge.source) && pages.contains_key(edge.target)
    } by {
        let edge = edges_spec(ids, pages, ids.len() as int)[i];
        assert(ids.contains(edge.source) && ids.contains(edge.target));
    }
}

/// How many of the first `n` identifiers are `id`.
spec fn times_listed(ids: Seq<Seq<char>>, id: Seq<char>, n: int) -> nat
    decreases n,
{
    if n <= 0 {
        0
    } else {
        times_listed(ids, id, n - 1) + (if ids[n - 1] == id {
            1nat
        } else {
            0
        })
    }
}

/// What does not stand at `at` is listed once or not at all before it.
proof fn lemma_times_listed(ids: Seq<Seq<char>>, at: int, n: int)
    requires
        ascending(ids),
        0 <= at < ids.len(),
        0 <= n <= ids.len(),
    ensures
        times_listed(ids, ids[at], n) == if at < n {
            1nat
        } else {
            0
        },
    decreases n,
{
    if n > 0 {
        lemma_times_listed(ids, at, n - 1);
        let last = n - 1;
        if last < at {
            assert(precedes(ids[last], ids[at]));
            lemma_precedes_asymmetric(ids[last], ids[at]);
        } else if last > at {
            assert(precedes(ids[at], ids[last]));
            lemma_precedes_asymmetric(ids[at], ids[last]);
        }
    }
}

/// How many ends of edges the first `n` pages have together.
pub open spec fn total_ends(ids: Seq<Seq<char>>, edges: Seq<EdgeView>, n: int) -> nat
    decreases n,
{
    if n <= 0 {
        0
    } else {
        total_ends(ids, edges, n - 1) + ends_at(edges, ids[n - 1])
    }
}

/// One more edge adds its two ends.
proof fn lemma_total_ends_push(ids: Seq<Seq<char>>, edges: Seq<EdgeView>, n: int)
    requires
        edges.len() > 0,
    ensures
        total_ends(ids, edges, n) == total_ends(ids, edges.drop_last(), n) + times_listed(
            ids,
            edges.last().source,
            n,
        ) + times_listed(ids, edges.last().target, n),
    decreases n,
{
    if n > 0 {
        lemma_total_ends_push(ids, edges, n - 1);
    }
}

/// The pages have no ends of no edges.
proof fn lemma_total_ends_none(ids: Seq<Seq<char>>, edges: Seq<EdgeView>, n: int)
    requires
        edges.len() == 0,
    ensures
        total_ends(ids, edges, n) == 0,
    decreases n,
{
    if n > 0 {
        lemma_total_ends_none(ids, edges, n - 1);
    }
}

/// Every edge that joins listed pages has both its ends counted.
proof fn lemma_total_ends(ids: Seq<Seq<char>>, edges: Seq<EdgeView>)
    requires
        ascending(ids),
        forall|i: int|
            0 <= i < edges.len() ==> {
                let edge = #[trigger] edges[i];
                ids.contains(edge.source) && ids.contains(edge.target)
            },
    ensures
        total_ends(ids, edges, ids.len() as int) == 2 * edges.len(),
    decreases edges.len(),
{
    let n = ids.len() as int;
    if edges.len() == 0 {
        lemma_total_ends_none(ids, edges, n);
    } else {
        let rest = edges.drop_last();
        assert forall|i: int| 0 <= i < rest.len() implies {
            let edge = #[trigger] rest[i];
            ids.contains(edge.source) && ids.contains(edge.target)
        } by {
            assert(rest[i] == edges[i]);
        }
        lemma_total_ends(ids, rest);
        lemma_total_ends_push(ids, edges, n);
        let edge = edges[edges.len() - 1];
        let from = choose|i: int| 0 <= i < ids.len() && ids[i] == edge.source;
        let to = choose|i: int| 0 <= i < ids.len() && ids[i] == edge.target;
        lemma_times_listed(ids, from, n);
        lemma_times_listed(ids, to, n);
    }
}

/// The link counts of the nodes of a graph make twice the number of its edges.
pub proof fn law_link_counts_add_up(root: Seq<char>, files: Seq<PageView>)
    ensures
        ({
            let graph = graph_spec(graph_pages(root, files));
            let ids = keys_of(graph_pages(root, files));
            &&& graph.nodes.len() == ids.len()
            &&& forall|i: int|
                0 <= i < ids.len() ==> (#[trigger] graph.nodes[i]).link_count == ends_at(
                    graph.edges,
                    ids[i],
                )
            &&& total_ends(ids, graph.edges, ids.len() as int) == 2 * graph.edges.len()
        }),
{
    let pages = graph_pages(root, files);
    let ids = keys_of(pages);
    lemma_graph_is_finite(root, files);
    lemma_keys_exist(pages);
    lemma_edges(ids, pages, ids.len() as int);
    lemma_total_ends(ids, graph_spec(pages).edges);
}

/// A link that names a page gives an edge of the page that it stands on.
proof fn lemma_link_gives_edge(
    source: Seq<char>,
    links: Seq<Seq<char>>,
    ids: Seq<Seq<char>>,
    k: int,
)
    requires
        0 <= k < links.len(),
        resolve_spec(links[k], ids) is Some,
    ensures
        page_edges(source, links, ids).contains(
            EdgeView { source, target: resolve_spec(links[k], ids)->0 },
        ),
    decreases links.len(),
{
    let fewer = links.drop_last();
    let edge = EdgeView { source, target: resolve_spec(links[k], ids)->0 };
    let before = page_edges(source, fewer, ids);
    let all = page_edges(source, links, ids);
    if k < fewer.len() {
        lemma_link_gives_edge(source, fewer, ids, k);
        let i = choose|i: int| 0 <= i < before.len() && before[i] == edge;
        assert(all[i] == edge);
    } else {
        assert(all[all.len() - 1] == edge);
    }
}

/// The edges of a page are among those of the first pages, if it is one of them.
proof fn lemma_edges_of_page(
    ids: Seq<Seq<char>>,
    pages: Map<Seq<char>, GraphPageView>,
    n: int,
    at: int,
    edge: EdgeView,
)
    requires
        0 <= at < n <= ids.len(),
        page_edges(ids[at], pages[ids[at]].links, ids).contains(edge),
    ensures
        edges_spec(ids, pages, n).contains(edge),
    decreases n,
{
    let before = edges_spec(ids, pages, n - 1);
    let more = page_edges(ids[n - 1], pages[ids[n - 1]].links, ids);
    let all = edges_spec(ids, pages, n);
    if at < n - 1 {
        lemma_edges_of_page(ids, pages, n - 1, at, edge);
        let i = choose|i: int| 0 <= i < before.len() && before[i] == edge;
        assert(all[i] == edge);
    } else {
        let i = choose|i: int| 0 <= i < more.len() && more[i] == edge;
        assert(all[before.len() + i] == edge);
    }
}

/// Every link that names a page of the wiki gives an edge to the first page that it names.
pub proof fn law_links_give_edges(
    root: Seq<char>,
    files: Seq<PageView>,
    source: Seq<char>,
    k: int,
)
    requires
        graph_pages(root, files).contains_key(source),
        0 <= k < graph_pages(root, files)[source].links.len(),
    ensures
        ({
            let pages = graph_pages(root, files);
            resolve_spec(pages[source].links[k], keys_of(pages)) matches Some(target)
                ==> graph_spec(pages).edges.contains(EdgeView { source, target })
        }),
{
    let pages = graph_pages(root, files);
    let ids = keys_of(pages);
    lemma_graph_is_finite(root, files);
    lemma_keys_exist(pages);
    if let Some(target) = resolve_spec(pages[source].links[k], ids) {
        assert(ids.contains(source));
        let at = choose|at: int| 0 <= at < ids.len() && ids[at] == source;
        lemma_link_gives_edge(source, pages[source].links, ids, k);
        lemma_edges_of_page(ids, pages, ids.len() as int, at, EdgeView { source, target });
    }
}

/// Links that differ in the case of ASCII letters alone, the suffix of Markdown files aside,
/// name the same page.
pub proof fn law_links_ignore_case(a: Seq<char>, b: Seq<char>, ids: Seq<Seq<char>>)
    requires
        same_ignoring_case(normalized_link(a), normalized_link(b)),
    ensures
        resolve_spec(a, ids) == resolve_spec(b, ids),
    decreases ids.len(),
{
    if ids.len() > 0 {
        let left = normalized_link(a);
        let right = normalized_link(b);
        assert(same_ignoring_case(
            replace_char_spec(left, ' ', '-'),
            replace_char_spec(right, ' ', '-'),
        )) by {
            let low = lower_ascii_spec(left);
            let other = lower_ascii_spec(right);
            assert(left.len() == low.len() && right.len() == other.len());
            assert forall|i: int| 0 <= i < left.len() implies lower_ascii_spec(
                replace_char_spec(left, ' ', '-'),
            )[i] == lower_ascii_spec(replace_char_spec(right, ' ', '-'))[i] by {
                assert(low[i] == other[i]);
                assert(low[i] == lower_char(left[i]) && other[i] == lower_char(right[i]));
            }
            assert(lower_ascii_spec(replace_char_spec(left, ' ', '-')) =~= lower_ascii_spec(
                replace_char_spec(right, ' ', '-'),
            ));
        }
        law_links_ignore_case(a, b, ids.drop_first());
    }
}

/// Whether a link spells the identifier of a page: character by character, ASCII case aside, with
/// slashes for backslashes.
pub open spec fn spells_identifier(link: Seq<char>, id: Seq<char>) -> bool {
    link.len() == id.len() && forall|i: int|
        0 <= i < id.len() ==> same_letter(
            #[trigger] id[i],
            if link[i] == '\\' {
                '/'
            } else {
                link[i]
            },
        )
}

/// Whether a link spells what stands from the place `at` on in the identifier of a page, which is
/// its whole last part: character by character, ASCII case aside, with dashes for spaces and
/// slashes for backslashes.
pub open spec fn spells_last_part(link: Seq<char>, id: Seq<char>, at: int) -> bool {
    &&& 0 <= at <= id.len()
    &&& at > 0 ==> id[at - 1] == '/'
    &&& forall|i: int| at <= i < id.len() ==> #[trigger] id[i] != '/'
    &&& link.len() == id.len() - at
    &&& forall|i: int|
        0 <= i < link.len() ==> same_letter(
            id[at + i],
            if #[trigger] link[i] == '\\' {
                '/'
            } else if link[i] == ' ' {
                '-'
            } else {
                link[i]
            },
        )
}

/// What follows the last slash begins right after it, and holds none.
proof fn lemma_last_segment(s: Seq<char>) -> (at: int)
    ensures
        0 <= at <= s.len(),
        at > 0 ==> s[at - 1] == '/',
        forall|i: int| at <= i < s.len() ==> #[trigger] s[i] != '/',
        last_segment(s) == s.skip(at),
    decreases s.len(),
{
    let set = CharSet::One('/');
    lemma_index_in(s, set);
    match index_in(s, set) {
        Some(k) => {
            let rest = s.skip(k + 1);
            lemma_split_pieces(rest, set);
            let at = lemma_last_segment(rest);
            assert(split_spec(s, set).last() == split_spec(rest, set).last());
            assert(rest.skip(at) =~= s.skip(at + k + 1));
            assert forall|i: int| at + k + 1 <= i < s.len() implies #[trigger] s[i] != '/' by {
                assert(rest[i - k - 1] == s[i]);
            }
            if at > 0 {
                assert(rest[at - 1] == s[at + k]);
            }
            at + k + 1
        },
        None => {
            assert(s.skip(0) =~= s);
            0
        },
    }
}

/// A link without the suffix of Markdown files names a page exactly if it spells its identifier
/// or the whole last part of that.
proof fn lemma_link_names(link: Seq<char>, id: Seq<char>)
    requires
        !".md"@.is_suffix_of(link),
    ensures
        link_names(link, id) <==> spells_identifier(link, id) || exists|at: int| #[trigger]
            spells_last_part(link, id, at),
{
    let text = normalized_link(link);
    let dashed = replace_char_spec(text, ' ', '-');
    let at = lemma_last_segment(id);
    let last = last_segment(id);
    assert(text =~= replace_char_spec(link, '\\', '/'));
    law_case_alone_is_ignored(id, text);
    law_case_alone_is_ignored(last, dashed);
    if same_ignoring_case(id, text) {
        assert forall|i: int| 0 <= i < id.len() implies same_letter(
            #[trigger] id[i],
            if link[i] == '\\' {
                '/'
            } else {
                link[i]
            },
        ) by {
            assert(same_letter(id[i], text[i]));
        }
        assert(spells_identifier(link, id));
    }
    if spells_identifier(link, id) {
        assert forall|i: int| 0 <= i < id.len() implies same_letter(#[trigger] id[i], text[i]) by {}
    }
    if same_ignoring_case(last, dashed) {
        assert forall|i: int| 0 <= i < link.len() implies same_letter(
            id[at + i],
            if #[trigger] link[i] == '\\' {
                '/'
            } else if link[i] == ' ' {
                '-'
            } else {
                link[i]
            },
        ) by {
            assert(same_letter(last[i], dashed[i]));
        }
        assert(spells_last_part(link, id, at));
    }
    if exists|at: int| #[trigger] spells_last_part(link, id, at) {
        let place = choose|place: int| #[trigger] spells_last_part(link, id, place);
        if place < at {
            assert(id[at - 1] != '/');
        } else if place > at {
            assert(id[place - 1] != '/');
        }
        assert forall|i: int| 0 <= i < last.len() implies same_letter(
            #[trigger] last[i],
            dashed[i],
        ) by {
            assert(link[i] == '\\' || link[i] != '\\');
        }
    }
}

/// A link leads to the first page whose identifier it spells, or the whole last part of it, and
/// nowhere if there is none.
pub proof fn law_link_leads_to_the_page_it_spells(link: Seq<char>, ids: Seq<Seq<char>>)
    requires
        !".md"@.is_suffix_of(link),
    ensures
        match resolve_spec(link, ids) {
            Some(id) => exists|k: int|
                0 <= k < ids.len() && id == #[trigger] ids[k] && (spells_identifier(link, id)
                    || exists|at: int| #[trigger] spells_last_part(link, id, at)) && forall|j: int|
                    0 <= j < k ==> !spells_identifier(link, #[trigger] ids[j]) && forall|at: int|
                        !#[trigger] spells_last_part(link, ids[j], at),
            None => forall|j: int|
                0 <= j < ids.len() ==> !spells_identifier(link, #[trigger] ids[j]) && forall|
                    at: int,
                |
                    !#[trigger] spells_last_part(link, ids[j], at),
        },
    decreases ids.len(),
{
    if ids.len() > 0 {
        lemma_link_names(link, ids[0]);
        if !link_names(link, ids[0]) {
            let rest = ids.drop_first();
            law_link_leads_to_the_page_it_spells(link, rest);
            match resolve_spec(link, rest) {
                Some(id) => {
                    let k = choose|k: int|
                        0 <= k < rest.len() && id == #[trigger] rest[k] && (spells_identifier(
                            link,
                            id,
                        ) || exists|at: int| #[trigger] spells_last_part(link, id, at)) && forall|
                            j: int,
                        |
                            0 <= j < k ==> !spells_identifier(link, #[trigger] rest[j]) && forall|
                                at: int,
                            |
                                !#[trigger] spells_last_part(link, rest[j], at);
                    assert(ids[k + 1] == id);
                    assert forall|j: int| 0 <= j < k + 1 implies !spells_identifier(
                        link,
                        #[trigger] ids[j],
                    ) && forall|at: int| !#[trigger] spells_last_part(link, ids[j], at) by {
                        if j > 0 {
                            assert(rest[j - 1] == ids[j]);
                        }
                    }
                },
                None => {
                    assert forall|j: int| 0 <= j < ids.len() implies !spells_identifier(
                        link,
                        #[trigger] ids[j],
                    ) && forall|at: int| !#[trigger] spells_last_part(link, ids[j], at) by {
                        if j > 0 {
                            assert(rest[j - 1] == ids[j]);
                        }
                    }
                },
            }
        } else {
            assert(ids[0] == resolve_spec(link, ids)->0);
        }
    }
}

/// The suffix of Markdown files makes no difference to where a link leads.
pub proof fn law_suffix_makes_no_difference(link: Seq<char>, ids: Seq<Seq<char>>)
    ensures
        resolve_spec(link + ".md"@, ids) == resolve_spec(link, ids),
    decreases ids.len(),
{
    reveal_strlit(".md");
    let longer = link + ".md"@;
    assert(".md"@.is_suffix_of(longer));
    assert(longer.take(longer.len() - 3) =~= link);
    assert(normalized_link(longer) == normalized_link(link));
    if ids.len() > 0 {
        law_suffix_makes_no_difference(link, ids.drop_first());
    }
}

/// Every edge of the graph stands for a link on the page that it begins at, which leads to the
/// page that it ends at.
pub proof fn law_edges_stand_for_links(root: Seq<char>, files: Seq<PageView>, e: int)
    requires
        0 <= e < graph_spec(graph_pages(root, files)).edges.len(),
    ensures
        ({
            let pages = graph_pages(root, files);
            let edge = graph_spec(pages).edges[e];
            exists|k: int|
                0 <= k < pages[edge.source].links.len() && resolve_spec(
                    #[trigger] pages[edge.source].links[k],
                    keys_of(pages),
                ) == Some(edge.target)
        }),
{
    let pages = graph_pages(root, files);
    let ids = keys_of(pages);
    lemma_edge_has_link(ids, pages, ids.len() as int, e);
}

/// Each edge comes from a link of its page.
proof fn lemma_edge_has_link(
    ids: Seq<Seq<char>>,
    pages: Map<Seq<char>, GraphPageView>,
    n: int,
    e: int,
)
    requires
        n <= ids.len(),
        0 <= e < edges_spec(ids, pages, n).len(),
    ensures
        exists|k: int|
            0 <= k < pages[edges_spec(ids, pages, n)[e].source].links.len() && resolve_spec(
                #[trigger] pages[edges_spec(ids, pages, n)[e].source].links[k],
                ids,
            ) == Some(edges_spec(ids, pages, n)[e].target),
    decreases n,
{
    let before = edges_spec(ids, pages, n - 1);
    let links = pages[ids[n - 1]].links;
    let more = page_edges(ids[n - 1], links, ids);
    if e < before.len() {
        assert(edges_spec(ids, pages, n)[e] == before[e]);
        lemma_edge_has_link(ids, pages, n - 1, e);
    } else {
        let k = lemma_page_edge_has_link(ids[n - 1], links, ids, e - before.len());
        assert(edges_spec(ids, pages, n)[e] == more[e - before.len()]);
        assert(resolve_spec(pages[edges_spec(ids, pages, n)[e].source].links[k], ids) is Some);
    }
}

/// Each edge of a page comes from a link on it.
proof fn lemma_page_edge_has_link(
    source: Seq<char>,
    links: Seq<Seq<char>>,
    ids: Seq<Seq<char>>,
    e: int,
) -> (k: int)
    requires
        0 <= e < page_edges(source, links, ids).len(),
    ensures
        0 <= k < links.len(),
        page_edges(source, links, ids)[e].source == source,
        resolve_spec(links[k], ids) == Some(page_edges(source, links, ids)[e].target),
    decreases links.len(),
{
    let fewer = links.drop_last();
    if e < page_edges(source, fewer, ids).len() {
        lemma_page_edge_has_link(source, fewer, ids, e)
    } else {
        links.len() - 1
    }
}

/// A page has one edge for each link on it that leads to a page.
pub proof fn law_links_of_a_page_are_counted(
    source: Seq<char>,
    links: Seq<Seq<char>>,
    ids: Seq<Seq<char>>,
)
    ensures
        page_edges(source, links, ids).len() == links.filter(
            |link: Seq<char>| resolve_spec(link, ids) is Some,
        ).len(),
    decreases links.len(),
{
    reveal(Seq::filter);
    if links.len() > 0 {
        law_links_of_a_page_are_counted(source, links.drop_last(), ids);
    }
}

/// How often a page is an end of an edge is how many edges begin there and how many end there.
pub proof fn law_both_ends_are_counted(edges: Seq<EdgeView>, id: Seq<char>)
    ensures
        ends_at(edges, id) == edges.filter(|e: EdgeView| e.source == id).len() + edges.filter(
            |e: EdgeView| e.target == id,
        ).len(),
    decreases edges.len(),
{
    reveal(Seq::filter);
    if edges.len() > 0 {
        law_both_ends_are_counted(edges.drop_last(), id);
    }
}

/// There is a node for each page, in the order of the identifiers: with its label, its path and
/// how often it is an end of an edge.
pub proof fn law_every_page_is_a_node(root: Seq<char>, files: Seq<PageView>, i: int)
    requires
        0 <= i < keys_of(graph_pages(root, files)).len(),
    ensures
        ({
            let pages = graph_pages(root, files);
            let ids = keys_of(pages);
            let graph = graph_spec(pages);
            &&& ascending(ids)
            &&& forall|id: Seq<char>| #[trigger] pages.contains_key(id) <==> ids.contains(id)
            &&& graph.nodes.len() == ids.len()
            &&& graph.nodes[i].id == ids[i]
            &&& graph.nodes[i].label == pages[ids[i]].label
            &&& graph.nodes[i].path == pages[ids[i]].path
            &&& graph.nodes[i].link_count == graph.edges.filter(
                |e: EdgeView| e.source == ids[i],
            ).len() + graph.edges.filter(|e: EdgeView| e.target == ids[i]).len()
        }),
{
    let pages = graph_pages(root, files);
    lemma_graph_is_finite(root, files);
    lemma_keys_exist(pages);
    law_both_ends_are_counted(graph_spec(pages).edges, keys_of(pages)[i]);
}

/// A page of the wiki is in the graph under its path below the root without the suffix of Markdown
/// files, with its links, and with its heading as its label or the last part of its identifier.
/// Files that are no pages are not in the graph.
pub proof fn law_pages_of_the_graph(root: Seq<char>, files: Seq<PageView>, page: PageView)
    ensures
        ({
            let after = graph_pages(root, files.push(page));
            let before = graph_pages(root, files);
            if !page_path(root, page.path) {
                after == before
            } else {
                relative_spec(root, page.path) matches Ok(path) ==> {
                    let id = trim_suffixes_spec(path, ".md"@);
                    &&& after.dom() == before.dom().insert(id)
                    &&& after[id].path == path
                    &&& after[id].links == links_spec(page.content)
                    &&& title_spec(page.content) matches Some(title) ==> after[id].label == title
                    &&& title_spec(page.content) is None ==> exists|at: int|
                        0 <= at <= id.len() && (at > 0 ==> id[at - 1] == '/') && (forall|k: int|
                            at <= k < id.len() ==> #[trigger] id[k] != '/') && after[id].label
                            == #[trigger] id.skip(at)
                    &&& forall|other: Seq<char>| #[trigger]
                        before.contains_key(other) && other != id ==> after[other] == before[other]
                }
            }
        }),
        graph_pages(root, seq![]) == Map::<Seq<char>, GraphPageView>::empty(),
{
    let all = files.push(page);
    assert(all.drop_last() =~= files);
    if let Ok(path) = relative_spec(root, page.path) {
        let id = trim_suffixes_spec(path, ".md"@);
        let at = lemma_last_segment(id);
        assert(last_segment(id) == id.skip(at));
        if page_path(root, page.path) {
            assert(graph_pages(root, all).dom() =~= graph_pages(root, files).dom().insert(id));
        }
    }
}

/// The kind of a page is the second part of its path without the letters of the plural at its
/// end, and that of a page with one part alone is told to be another.
pub proof fn law_graph_type_is_the_directory(
    first: Seq<char>,
    name: Seq<char>,
    plural: Seq<char>,
    rest: Seq<char>,
)
    requires
        !first.contains('/'),
        !name.contains('/'),
        name.len() > 0 ==> name.last() != 's',
        forall|i: int| 0 <= i < plural.len() ==> #[trigger] plural[i] == 's',
        rest.len() > 0 ==> rest[0] == '/',
    ensures
        graph_type_spec(first + seq!['/'] + name + plural + rest) == name,
        graph_type_spec(first) == "other"@,
{
    let set = CharSet::One('/');
    let inner = name + plural;
    let tail = inner + rest;
    let whole = first + seq!['/'] + name + plural + rest;
    lemma_index_in(first, set);
    if let Some(i) = index_in(first, set) {
        assert(first.contains(first[i]));
    }
    assert(split_spec(first, set).len() == 1);
    let n = first.len() as int;
    assert(whole[n] == '/');
    assert forall|j: int| 0 <= j < n implies !set.has(#[trigger] whole[j]) by {
        assert(whole[j] == first[j]);
        assert(first.contains(first[j]));
    }
    lemma_index_in_is(whole, set, n);
    assert(whole.skip(n + 1) =~= tail);
    let m = inner.len() as int;
    assert forall|j: int| 0 <= j < m implies !set.has(#[trigger] tail[j]) by {
        if j < name.len() {
            assert(tail[j] == name[j]);
            assert(name.contains(name[j]));
        } else {
            assert(tail[j] == plural[j - name.len()]);
        }
    }
    if rest.len() > 0 {
        assert(tail[m] == rest[0]);
        lemma_index_in_is(tail, set, m);
        assert(tail.take(m) =~= inner);
    } else {
        lemma_index_in(tail, set);
        assert(tail =~= inner);
    }
    assert(split_spec(tail, set)[0] == inner);
    assert(split_spec(whole, set)[1] == inner);
    lemma_split_pieces(tail, set);
    lemma_trim_end(name, plural, CharSet::One('s'));
    reveal_strlit("other");
    assert(trim_end_spec("other"@, CharSet::One('s')) == "other"@);
}

/// Contracts speak of whole values: every part of a value is in its view, in its place, and nothing
/// else is.
pub proof fn law_views_of_graph_are_whole(
    page: GraphPage,
    edge: GraphEdge,
    node: GraphNode,
    graph: Graph,
    edges: Seq<GraphEdge>,
    nodes: Seq<GraphNode>,
)
    ensures
        page@.label == page.label@,
        page@.path == page.path@,
        page@.links == texts(page.links@),
        edge@.source == edge.source@,
        edge@.target == edge.target@,
        node@.id == node.id@,
        node@.label == node.label@,
        node@.node_type == node.node_type@,
        node@.path == node.path@,
        node@.link_count == node.link_count as nat,
        graph@.nodes == node_views(graph.nodes@),
        graph@.edges == edge_views(graph.edges@),
        edge_views(edges).len() == edges.len(),
        forall|i: int|
            0 <= i < edges.len() ==> #[trigger] edge_views(edges)[i] == edges[i]@,
        node_views(nodes).len() == nodes.len(),
        forall|i: int|
            0 <= i < nodes.len() ==> #[trigger] node_views(nodes)[i] == nodes[i]@,
{
}

} // verus!
