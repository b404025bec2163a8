use std::path::Path;

use llm_wiki_server::graph::{build_graph, graph_type, resolve_graph_link};
use llm_wiki_server::index::{build_index, is_indexed, write_index, IndexEntry};
use llm_wiki_server::markdown::{frontmatter_value, markdown_title, wiki_links};
use llm_wiki_server::pages::{is_page, PageFile};
use llm_wiki_server::search::{
    score_of, search_lowered, search_pages, search_snippet, search_terms, snippet_of, LoweredPage,
};

fn page(path: &str, content: &str) -> PageFile {
    PageFile { path: path.to_string(), content: content.to_string() }
}

#[test]
fn title_is_the_first_heading_of_the_first_level() {
    assert_eq!(markdown_title("## No\n  #   Yes  \r\n# Later"), Some("Yes".to_string()));
    assert_eq!(markdown_title("#\n# \n#No"), None);
    assert_eq!(markdown_title(""), None);
}

#[test]
fn front_matter_values_are_trimmed_and_unquoted() {
    let content = "---\r\ntype: concept\r\ntitle: \"A: B\"\nempty:\nempty: late\n---\n# T";
    assert_eq!(frontmatter_value(content, "type"), Some("concept".to_string()));
    assert_eq!(frontmatter_value(content, "title"), Some("A: B".to_string()));
    assert_eq!(frontmatter_value(content, "empty"), None);
    assert_eq!(frontmatter_value(content, "missing"), None);
    let unix = content.replace("\r\n", "\n");
    let dos = unix.replace('\n', "\r\n");
    for key in ["type", "title", "empty", "missing"] {
        assert_eq!(frontmatter_value(&unix, key), frontmatter_value(content, key));
        assert_eq!(frontmatter_value(&dos, key), frontmatter_value(content, key));
    }
    let fenced = "---\ntype: concept\n---";
    for more in ["", "\r", "\n---\ntype: other\n---\n", "-\n"] {
        let longer = format!("{}{}", fenced, more);
        assert_eq!(frontmatter_value(&longer, "type"), Some("concept".to_string()));
    }
    assert_eq!(frontmatter_value("type: concept\n", "type"), None);
    assert_eq!(frontmatter_value("---\ntype: concept\n", "type"), None);
}

#[test]
fn links_stand_between_brackets() {
    assert_eq!(
        wiki_links("a [[One]] b [[ Two | label ]] [[]] [[ | x]] [[Three"),
        vec!["One".to_string(), "Two".to_string()]
    );
    assert_eq!(wiki_links("[[a]][[b]]"), vec!["a".to_string(), "b".to_string()]);
    assert_eq!(wiki_links("[[[a]]"), vec!["[a".to_string()]);
}

#[test]
fn pages_are_visible_markdown_files() {
    assert!(is_page("/p", "/p/wiki/a.md"));
    assert!(!is_page("/p", "/p/wiki/a.txt"));
    assert!(!is_page("/p", "/p/wiki/a.MD"));
    assert!(!is_page("/p", "/p/.git/a.md"));
    assert!(!is_page("/p", "/p/.md"));
    assert!(!is_page("/p", "/q/a.md"));
}

#[test]
fn search_ranks_pages_by_how_often_terms_stand_in_them() {
    let pages = vec![
        page("/p/wiki/one.md", "# One\nalpha"),
        page("/p/wiki/two.md", "no heading\nAlpha ALPHA beta"),
        page("/p/wiki/three.md", "# Three\ngamma"),
        page("/p/wiki/four.md", "# Four\nalpha"),
        page("/p/.hidden/five.md", "alpha alpha alpha alpha"),
        page("/p/notes.txt", "alpha"),
    ];
    let hits = search_pages("/p", "ALPHA beta", None, false, &pages).ok().unwrap();
    let paths: Vec<&str> = hits.iter().map(|hit| hit.path.as_str()).collect();
    assert_eq!(paths, vec!["wiki/two.md", "wiki/one.md", "wiki/four.md"]);
    assert_eq!(hits[0].score, 3);
    assert_eq!(hits[0].title, "two");
    assert_eq!(hits[0].snippet, "Alpha ALPHA beta");
    assert_eq!(hits[1].title, "One");
    assert_eq!(hits[1].content, None);
    let limited = search_pages("/p", "alpha", Some(0), true, &pages).ok().unwrap();
    assert_eq!(limited.len(), 1);
    assert_eq!(limited[0].content, Some("no heading\nAlpha ALPHA beta".to_string()));
}

#[test]
fn search_needs_a_query() {
    let error = search_pages("/p", " \t ", None, false, &Vec::new()).err().unwrap();
    assert_eq!((error.status, error.code), (400, "QUERY_REQUIRED"));
    assert_eq!(search_terms(" \u{c4}RGER x "), vec!["\u{e4}rger", "x"]);
}

#[test]
fn search_gives_no_more_than_a_hundred_hits() {
    let pages: Vec<PageFile> =
        (0..150).map(|n| page(&format!("/p/{}.md", n), "word")).collect();
    assert_eq!(search_pages("/p", "word", None, false, &pages).ok().unwrap().len(), 20);
    assert_eq!(search_pages("/p", "word", Some(1000), false, &pages).ok().unwrap().len(), 100);
}

#[test]
fn snippets_are_the_beginning_of_the_first_match() {
    let terms = vec!["needle".to_string()];
    assert_eq!(search_snippet("hay\nA Needle here\nneedle", &terms), "A Needle here");
    assert_eq!(search_snippet("hay", &terms), "");
    let long = format!("needle{}", "x".repeat(400));
    assert_eq!(search_snippet(&long, &terms).chars().count(), 300);
}

#[test]
fn links_are_resolved_in_any_case() {
    let ids = vec!["wiki/concepts/Deep-Learning".to_string(), "wiki/x".to_string()];
    let first = Some(ids[0].clone());
    assert_eq!(resolve_graph_link("deep learning", &ids), first);
    assert_eq!(resolve_graph_link("WIKI\\concepts\\deep-learning.md", &ids), first);
    assert_eq!(resolve_graph_link("X", &ids), Some("wiki/x".to_string()));
    assert_eq!(resolve_graph_link("y", &ids), None);
}

#[test]
fn graph_types_are_singular() {
    assert_eq!(graph_type("wiki/concepts/a.md"), "concept");
    assert_eq!(graph_type("wiki/synthesis/a.md"), "synthesi");
    assert_eq!(graph_type("a.md"), "other");
}

#[test]
fn graph_joins_pages_by_their_links() {
    let pages = vec![
        page("/p/wiki/entities/b.md", "# Bee\n[[a]] [[missing]] [[b]]"),
        page("/p/wiki/concepts/a.md", "[[Bee]] [[b|the bee]]"),
    ];
    let graph = build_graph("/p", &pages);
    let ids: Vec<&str> = graph.nodes.iter().map(|node| node.id.as_str()).collect();
    assert_eq!(ids, vec!["wiki/concepts/a", "wiki/entities/b"]);
    assert_eq!(graph.nodes[0].label, "a");
    assert_eq!(graph.nodes[1].label, "Bee");
    assert_eq!(graph.nodes[1].node_type, "entitie");
    assert_eq!(graph.nodes[0].path, "wiki/concepts/a.md");
    let edges: Vec<(&str, &str)> =
        graph.edges.iter().map(|edge| (edge.source.as_str(), edge.target.as_str())).collect();
    assert_eq!(
        edges,
        vec![
            ("wiki/concepts/a", "wiki/entities/b"),
            ("wiki/entities/b", "wiki/concepts/a"),
            ("wiki/entities/b", "wiki/entities/b"),
        ]
    );
    let counts: Vec<u128> = graph.nodes.iter().map(|node| node.link_count).collect();
    assert_eq!(counts, vec![2, 4]);
    assert_eq!(counts.iter().sum::<u128>(), 2 * graph.edges.len() as u128);
}

#[test]
fn index_lists_pages_by_kind_and_title() {
    let pages = vec![
        page("/p/wiki/entities/z.md", "---\ntype: entity\ntitle: zeta\n---\n"),
        page("/p/wiki/entities/a.md", "---\ntype: entity\n---\n# Alpha"),
        page("/p/wiki/free.md", "text"),
        page("/p/wiki/INDEX.md", "# ignored"),
        page("/p/wiki/log.md", "# ignored"),
        page("/p/wiki/picture.png", ""),
    ];
    let index = build_index("/p/wiki", &pages).ok().unwrap();
    assert_eq!(
        index.text,
        "# Wiki Index\n\n## entity\n\n- [[entities/a|Alpha]]\n- [[entities/z|zeta]]\n\n## other\n\n- [[free|free]]\n\n"
    );
    assert_eq!((index.pages, index.groups), (3, 2));
    assert!(is_indexed("/p/wiki/a.md"));
    assert!(!is_indexed("/p/wiki/Overview.md"));
    let outside = vec![page("/q/a.md", "x")];
    assert_eq!(build_index("/p/wiki", &outside).err().unwrap().code, "INVALID_PATH");
}

#[test]
fn search_works_on_lower_case() {
    let shown = page("/p/wiki/a.md", "# A\nOne TWO\ntwo");
    let other = page("/p/wiki/b.md", "two");
    let low = |page: &PageFile| -> (String, Vec<String>) {
        (
            page.content.to_lowercase(),
            page.content.lines().map(|line| line.to_lowercase()).collect(),
        )
    };
    let (lower, lower_lines) = low(&other);
    let second = LoweredPage { page: &other, lower, lower_lines };
    let (lower, lower_lines) = low(&shown);
    let first = LoweredPage { page: &shown, lower, lower_lines };
    let terms = vec!["two".to_string()];
    let hits = search_lowered("/p", &terms, None, false, &vec![second, first]).ok().unwrap();
    let found: Vec<(&str, u128)> = hits.iter().map(|hit| (hit.path.as_str(), hit.score)).collect();
    assert_eq!(found, vec![("wiki/a.md", 2), ("wiki/b.md", 1)]);
    assert_eq!(hits[0].snippet, "One TWO");
    assert_eq!(score_of(&terms, &['t', 'w', 'o']), 1);
    let lower = vec!["nothing".to_string(), "two".to_string()];
    assert_eq!(snippet_of("First\nSecond", &lower, &terms), "Second");
    assert_eq!(
        search_lowered("/p", &Vec::new(), None, false, &Vec::new()).err().unwrap().code,
        "QUERY_REQUIRED"
    );
}

#[test]
fn index_is_written_by_kind_and_title() {
    let entry = |kind: &str, target: &str, title: &str| IndexEntry {
        page_type: kind.to_string(),
        target: target.to_string(),
        title: title.to_string(),
        lower_title: title.to_lowercase(),
    };
    let entries = vec![
        entry("source", "sources/z", "Zeta"),
        entry("entity", "entities/b", "beta"),
        entry("entity", "entities/a", "Alpha"),
    ];
    let index = write_index(&entries);
    assert_eq!((index.pages, index.groups), (3, 2));
    assert_eq!(
        index.text,
        "# Wiki Index\n\n## entity\n\n- [[entities/a|Alpha]]\n- [[entities/b|beta]]\n\n## source\n\n- [[sources/z|Zeta]]\n\n"
    );
}

#[test]
fn best_pages_are_found_first() {
    let pages: Vec<PageFile> = (1..8)
        .map(|n| page(&format!("/p/wiki/{}.md", n), &"alpha ".repeat((n * 3) % 7)))
        .collect();
    let scores = |top_k: Option<usize>| -> Vec<u128> {
        let hits = search_pages("/p", "alpha", top_k, false, &pages).ok().unwrap();
        hits.iter().map(|hit| hit.score).collect()
    };
    assert_eq!(scores(Some(3)), vec![6, 5, 4]);
    assert_eq!(scores(Some(0)), vec![6]);
    assert_eq!(scores(None), vec![6, 5, 4, 3, 2, 1]);
}

#[test]
fn entries_are_listed_as_often_as_they_are_there() {
    let entry = |kind: &str, title: &str| IndexEntry {
        page_type: kind.to_string(),
        target: "t".to_string(),
        title: title.to_string(),
        lower_title: title.to_lowercase(),
    };
    let entries = vec![entry("b", "Two"), entry("a", "x"), entry("b", "one"), entry("b", "Two")];
    assert_eq!(
        write_index(&entries).text,
        "# Wiki Index\n\n## a\n\n- [[t|x]]\n\n## b\n\n- [[t|one]]\n- [[t|Two]]\n- [[t|Two]]\n\n"
    );
}

#[test]
fn targets_are_paths_without_their_extension() {
    for path in [
        "a.md", "a//b.md", "a/./b.c.md", "a\\b.md", "a./b..md", ".a.md", "..md", "x/..md", "...md",
    ] {
        let pages = vec![page(&format!("/w/{}", path), "# T")];
        let target = Path::new(path).with_extension("").to_str().unwrap().replace('\\', "/");
        assert_eq!(
            build_index("/w", &pages).ok().unwrap().text,
            format!("# Wiki Index\n\n## other\n\n- [[{}|T]]\n\n", target),
            "{}",
            path
        );
    }
}
