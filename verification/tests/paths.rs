use std::path::Path;

use llm_wiki_server::names::{
    extension, file_stem, slugify, validate_file_name, validate_project_directory,
};
use llm_wiki_server::paths::{
    file_name, is_hidden_relative, join, nearest_existing, path_prefixes, path_starts_with,
    relative_string, required_path, safe_project_path, same_path, split_relative, strip_base,
    validate_relative, workspace_relative, IoFailure, IoKind, PathFacts,
};

fn failure(kind: IoKind, message: &str) -> IoFailure {
    IoFailure { kind, message: message.to_string() }
}

fn facts(links: &[bool], exists: &[bool], canonical: &str) -> PathFacts {
    PathFacts {
        links: links.to_vec(),
        exists: exists.to_vec(),
        canonical: Ok(canonical.to_string()),
    }
}

fn code<T>(r: Result<T, llm_wiki_server::error::ApiError>) -> (u16, &'static str) {
    let error = r.err().unwrap();
    (error.status, error.code)
}

#[test]
fn path_escape_and_symlink_are_rejected() {
    let root = "/workspace/p";
    let open = facts(&[false, false], &[true, true, true], root);
    assert!(safe_project_path(root, "../secret", false, &open).is_err());
    assert!(safe_project_path(root, "/etc/passwd", false, &open).is_err());
    assert!(safe_project_path(root, ".llm-wiki/review.json", false, &open).is_err());
    let link = facts(&[true, false], &[true, true, true], "/etc/passwd");
    assert!(safe_project_path(root, "escape/passwd", false, &link).is_err());
}

#[test]
fn safe_path_follows_the_root() {
    let root = "/workspace/p";
    let granted = safe_project_path(
        root,
        "wiki//page.md",
        false,
        &facts(&[false, false], &[true, true, false], "/workspace/p/wiki"),
    );
    assert_eq!(granted.ok().unwrap(), "/workspace/p/wiki/page.md");
    let top = safe_project_path(root, "", true, &facts(&[], &[], ""));
    assert_eq!(top.ok().unwrap(), root);
    assert_eq!(code(safe_project_path(root, "", false, &facts(&[], &[], ""))), (400, "INVALID_PATH"));
}

#[test]
fn safe_path_must_not_lead_outside() {
    let root = "/workspace/p";
    let outside = facts(&[false], &[true, true], "/workspace/p2/x");
    assert_eq!(code(safe_project_path(root, "x", false, &outside)), (400, "INVALID_PATH"));
    let nothing = facts(&[false], &[false, false], root);
    assert_eq!(code(safe_project_path(root, "x", false, &nothing)), (400, "INVALID_PATH"));
    let broken = PathFacts {
        links: vec![false],
        exists: vec![true, false],
        canonical: Err(failure(IoKind::Other, "disk on fire")),
    };
    let error = safe_project_path(root, "x", false, &broken).err().unwrap();
    assert_eq!((error.status, error.code, error.message.as_str()), (500, "IO_ERROR", "disk on fire"));
}

#[test]
fn relative_paths_are_checked_part_by_part() {
    for good in ["a", "a/b", "a//b", "a/./b", "a/", "a b", "..."] {
        assert_eq!(validate_relative(good, false).is_ok(), !good.starts_with('.'), "{}", good);
    }
    for bad in ["", " ", "/a", "./a", "..", "a/..", "a/.b", "a\0b"] {
        assert!(validate_relative(bad, false).is_err());
    }
    assert!(validate_relative("", true).is_ok());
    assert!(validate_relative(" ", true).is_ok());
    let names = split_relative("a//b/c.md", false).ok().unwrap();
    assert_eq!(names, vec!["a", "b", "c.md"]);
    assert_eq!(path_prefixes("/r", &names), vec!["/r", "/r/a", "/r/a/b", "/r/a/b/c.md"]);
}

#[test]
fn nearest_existing_is_the_last_one() {
    assert_eq!(nearest_existing(&vec![true, true, false]), Some(1));
    assert_eq!(nearest_existing(&vec![true, false, true]), Some(2));
    assert_eq!(nearest_existing(&vec![false, false]), None);
}

#[test]
fn required_path_is_not_blank() {
    assert_eq!(required_path(Some("a".to_string())).ok().unwrap(), "a");
    assert!(required_path(Some("  ".to_string())).is_err());
    assert!(required_path(None).is_err());
}

#[test]
fn prefixes_are_compared_by_component() {
    assert!(path_starts_with("/a/b/c", "/a/b"));
    assert!(path_starts_with("/a/b", "/a/b/"));
    assert!(!path_starts_with("/a/bc", "/a/b"));
    assert!(!path_starts_with("a/b", "/a"));
    assert!(same_path("/a//b/", "/a/b"));
    assert!(!same_path("/a/b", "/a/b/c"));
    assert_eq!(join("/", "a"), "/a");
    assert_eq!(join("/a", "b"), "/a/b");
    assert_eq!(join("/a", "/b"), "/b");
    assert_eq!(join("", "b"), "b");
}

#[test]
fn workspace_directory_must_resolve_inside() {
    let root = "/w";
    assert_eq!(
        workspace_relative(root, "p", Ok("/w/p".to_string())).ok().unwrap(),
        "/w/p"
    );
    assert_eq!(code(workspace_relative(root, "p", Ok("/x/p".to_string()))), (400, "INVALID_PATH"));
    assert_eq!(code(workspace_relative(root, "../p", Ok("/w/p".to_string()))), (400, "INVALID_PATH"));
    assert_eq!(
        code(workspace_relative(root, "p", Err(failure(IoKind::NotFound, "gone")))),
        (404, "FILE_NOT_FOUND")
    );
    assert_eq!(
        code(workspace_relative(root, "p", Err(failure(IoKind::Other, "denied")))),
        (500, "IO_ERROR")
    );
}

#[test]
fn relative_text_comes_after_the_root() {
    assert_eq!(relative_string("/r", "/r/wiki/a.md").ok().unwrap(), "wiki/a.md");
    assert_eq!(relative_string("/r", "/r/a\\b.md").ok().unwrap(), "a/b.md");
    assert_eq!(relative_string("/r", "/r").ok().unwrap(), "");
    assert_eq!(relative_string("/p", "/p/a//b").ok().unwrap(), "a//b");
    assert_eq!(relative_string("/p", "//p/./a/./b/.//").ok().unwrap(), "a/./b");
    assert_eq!(relative_string("", "//a/").ok().unwrap(), "//a");
    assert_eq!(relative_string("", "//.").ok().unwrap(), "/");
    assert_eq!(relative_string(".", "./..//a").ok().unwrap(), "..//a");
    assert_eq!(code(relative_string("/r", "/q/a")), (400, "INVALID_PATH"));
}

fn spellings(alphabet: &[char], longest: usize) -> Vec<String> {
    let mut all = vec![String::new()];
    let mut from = 0;
    for _ in 0..longest {
        let end = all.len();
        for i in from..end {
            for c in alphabet {
                all.push(format!("{}{}", all[i], c));
            }
        }
        from = end;
    }
    all
}

#[test]
fn paths_are_read_like_the_standard_library_reads_them() {
    let bases = spellings(&['/', '.', 'a'], 3);
    for path in spellings(&['/', '.', 'a', '\\'], 6) {
        let known = Path::new(&path);
        for base in &bases {
            let expected = known
                .strip_prefix(base)
                .ok()
                .map(|rest| rest.to_str().unwrap().to_string());
            assert_eq!(strip_base(&path, base), expected, "{:?} below {:?}", path, base);
            let relative = expected.map(|rest| rest.replace('\\', "/"));
            assert_eq!(relative_string(base, &path).ok(), relative);
            assert_eq!(path_starts_with(&path, base), known.starts_with(base));
            assert_eq!(same_path(&path, base), known == Path::new(base));
            assert_eq!(join(base, &path), Path::new(base).join(known).to_str().unwrap());
        }
        assert_eq!(
            file_name(&path),
            known.file_name().map(|part| part.to_str().unwrap().to_string())
        );
        if let Some(name) = file_name(&path) {
            assert_eq!(file_stem(&name), known.file_stem().unwrap().to_str().unwrap());
            assert_eq!(
                extension(&name),
                known.extension().map(|part| part.to_str().unwrap().to_string())
            );
        }
    }
}

#[test]
fn hidden_parts_are_found_below_the_root_only() {
    assert!(!is_hidden_relative("/home/.x/p", "/home/.x/p/wiki/a.md"));
    assert!(is_hidden_relative("/p", "/p/.git/a.md"));
    assert!(is_hidden_relative("/p", "/p/wiki/.a.md"));
    assert!(is_hidden_relative("/p", "/q/a.md"));
}

#[test]
fn file_names_have_stems_and_extensions() {
    assert_eq!(file_name("/a/b.tar.gz"), Some("b.tar.gz".to_string()));
    assert_eq!(file_name("/a/.."), None);
    assert_eq!(file_name("/"), None);
    assert_eq!(extension("b.tar.gz"), Some("gz".to_string()));
    assert_eq!(file_stem("b.tar.gz"), "b.tar");
    assert_eq!(extension(".bashrc"), None);
    assert_eq!(file_stem(".bashrc"), ".bashrc");
    assert_eq!(extension("plain"), None);
    assert_eq!(extension("dot."), Some(String::new()));
}

#[test]
fn slugs_are_directory_names() {
    assert_eq!(slugify("  My Project: 2nd Try!  "), "my-project-2nd-try");
    assert_eq!(slugify("my-project-2nd-try"), "my-project-2nd-try");
    assert_eq!(slugify("--A  b--"), "a-b");
    assert_eq!(slugify("A_B"), "a-b");
    assert_eq!(slugify("\u{4e2d}\u{6587}"), "");
    assert!(validate_project_directory(&slugify("Hello, World")).is_ok());
    assert_eq!(code(validate_project_directory("")), (400, "INVALID_DIRECTORY_NAME"));
    assert_eq!(code(validate_project_directory(".x")), (400, "INVALID_DIRECTORY_NAME"));
    assert_eq!(code(validate_project_directory("a/b")), (400, "INVALID_DIRECTORY_NAME"));
    assert!(validate_project_directory("a-B_9").is_ok());
}

#[test]
fn uploaded_names_name_no_directory() {
    assert!(validate_file_name("report.pdf").is_ok());
    for bad in ["", ".hidden", "a/b", "a\\b", "a\0b"] {
        assert_eq!(code(validate_file_name(bad)), (400, "INVALID_PATH"));
    }
}
