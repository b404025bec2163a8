use llm_wiki_server::error::ApiError;
use llm_wiki_server::headers::Headers;
use llm_wiki_server::paths::PathFacts;
use llm_wiki_server::revision::revision;
use llm_wiki_server::tree::{
    collect_file_tree, file_tree, is_listed, not_a_directory, DirEntry, TreeEntry,
};
use llm_wiki_server::uploads::{
    body_file_name, invalid_multipart, is_file_part, is_multipart, part_file_name, plan_uploads,
    upload_relative, upload_too_large, uploaded_file, UploadItem, MAX_UPLOAD_BYTES,
};

fn code<T>(r: Result<T, ApiError>) -> (u16, &'static str) {
    let error = r.err().unwrap();
    (error.status, error.code)
}

fn entry(name: &str, is_dir: bool, size: u64) -> DirEntry {
    DirEntry {
        name: name.to_string(),
        is_symlink: false,
        is_dir,
        is_file: !is_dir,
        size,
        modified_at: 5,
    }
}

fn node(name: &str, is_dir: bool, children: Vec<TreeEntry>) -> TreeEntry {
    TreeEntry { name: name.to_string(), is_symlink: false, is_dir, size: 3, children }
}

fn item(name: &str, target_exists: bool) -> UploadItem {
    UploadItem {
        name: name.to_string(),
        facts: PathFacts {
            links: vec![false, false, false],
            exists: vec![true, true, true, false],
            canonical: Ok("/p/raw/assets".to_string()),
        },
        target_exists,
    }
}

#[test]
fn directories_are_listed_first_and_by_name() {
    let mut link = entry("link", false, 1);
    link.is_symlink = true;
    let entries = vec![
        entry("b.md", false, 10),
        entry("wiki", true, 4096),
        entry(".hidden", false, 1),
        link,
        entry("a.md", false, 20),
        entry("raw", true, 4096),
    ];
    let listed = file_tree("top", &entries);
    let names: Vec<&str> = listed.iter().map(|file| file.name.as_str()).collect();
    assert_eq!(names, vec!["raw", "wiki", "a.md", "b.md"]);
    assert_eq!(listed[0].kind(), "directory");
    assert_eq!(listed[0].size, 0);
    assert_eq!(listed[0].path, "top/raw");
    assert_eq!((listed[2].kind(), listed[2].size, listed[2].modified_at), ("file", 20, 5));
    assert_eq!(file_tree("", &entries)[0].path, "raw");
    assert!(is_listed("a", false));
    assert!(!is_listed("a", true));
    assert!(!is_listed(".a", false));
    assert_eq!(not_a_directory().code, "NOT_A_DIRECTORY");
}

#[test]
fn frontend_file_routes_support_tree_body_revision_and_delete_revision() {
    let entries = vec![
        node("README.md", false, vec![]),
        node("wiki", true, vec![node("page.md", false, vec![]), node("entities", true, vec![])]),
        node("raw", true, vec![node(".secret", false, vec![])]),
        node(".llm-wiki", true, vec![node("review.json", false, vec![])]),
    ];
    let tree = collect_file_tree("/p", "/p", &entries).ok().unwrap();
    assert_eq!(tree.len(), 3);
    assert_eq!(tree[1].path, "wiki");
    assert!(tree[1].is_dir);
    assert_eq!(tree[1].size, None);
    assert_eq!(tree[1].mime_type, None);
    let children = tree[1].children.as_ref().unwrap();
    assert_eq!(children[0].path, "wiki/entities");
    assert_eq!(children[1].path, "wiki/page.md");
    assert_eq!(children[1].mime_type.as_deref(), Some("text/markdown"));
    assert_eq!(children[1].size, Some(3));
    assert_eq!(tree[0].children.as_ref().unwrap().len(), 0);
    assert!(tree[2].children.is_none());
}

#[test]
fn multipart_uploads_are_told_from_others() {
    let mut headers = Headers::new();
    assert!(!is_multipart(&headers));
    assert_eq!(code(body_file_name(&headers)), (400, "FILE_NAME_REQUIRED"));
    headers.push("content-type", b"multipart/form-data; boundary=test-boundary".to_vec());
    headers.push("x-file-name", b"a.txt".to_vec());
    assert!(is_multipart(&headers));
    assert_eq!(body_file_name(&headers).ok().unwrap(), "a.txt");
    assert!(is_file_part(&Some("files".to_string())));
    assert!(!is_file_part(&Some("file".to_string())));
    assert!(!is_file_part(&None));
    assert_eq!(part_file_name(Some("a".to_string())).ok().unwrap(), "a");
    assert_eq!(code(part_file_name(None)), (400, "FILE_NAME_REQUIRED"));
    assert_eq!(invalid_multipart("m").code, "INVALID_MULTIPART");
    assert_eq!(upload_too_large("m").status, 413);
    assert_eq!(MAX_UPLOAD_BYTES, 25 * 1024 * 1024);
}

#[test]
fn multipart_upload_and_query_asset_download_are_supported() {
    let targets = plan_uploads("/p", "raw/assets", &vec![item("asset.txt", false)]).ok().unwrap();
    assert_eq!(targets.len(), 1);
    assert_eq!(targets[0].target, "/p/raw/assets/asset.txt");
    assert_eq!(targets[0].relative, "raw/assets/asset.txt");
    let uploaded = uploaded_file(&targets[0].relative, b"hello");
    assert_eq!(uploaded.revision, revision(b"hello"));
    assert_eq!((uploaded.path.as_str(), uploaded.size), ("raw/assets/asset.txt", 5));
}

#[test]
fn uploads_replace_nothing() {
    let twice = vec![item("a.txt", false), item("a.txt", false)];
    assert_eq!(code(plan_uploads("/p", "raw", &twice)), (409, "FILE_EXISTS"));
    assert_eq!(code(plan_uploads("/p", "raw", &vec![item("a.txt", true)])), (409, "FILE_EXISTS"));
    assert_eq!(code(plan_uploads("/p", "raw", &vec![])), (400, "FILES_REQUIRED"));
    assert_eq!(code(plan_uploads("/p", "raw", &vec![item("../a", false)])), (400, "INVALID_PATH"));
    assert_eq!(code(plan_uploads("/p", "../raw", &vec![item("a", false)])), (400, "INVALID_PATH"));
    let two = vec![item("a.txt", false), item("b.txt", false)];
    assert_eq!(plan_uploads("/p", "raw", &two).ok().unwrap().len(), 2);
}

#[test]
fn upload_paths_are_joined_by_one_slash() {
    assert_eq!(upload_relative("", "a"), "a");
    assert_eq!(upload_relative("  ", "a"), "a");
    assert_eq!(upload_relative("/raw/assets/", "a"), "raw/assets/a");
}

#[test]
fn trees_are_clean_at_every_depth() {
    let mut link = node("link", true, vec![node("x", false, vec![])]);
    link.is_symlink = true;
    let inner = vec![
        node("b", false, vec![]),
        node(".x", true, vec![]),
        link,
        node("z", true, vec![node("2", false, vec![]), node("1", false, vec![])]),
        node("a", true, vec![]),
    ];
    let tree = collect_file_tree("/p", "/p", &vec![node("top", true, inner)]).ok().unwrap();
    let level = tree[0].children.as_ref().unwrap();
    let names: Vec<&str> = level.iter().map(|node| node.name.as_str()).collect();
    assert_eq!(names, vec!["a", "z", "b"]);
    assert_eq!(level[0].children.as_ref().unwrap().len(), 0);
    assert!(level[2].children.is_none());
    let paths: Vec<&str> =
        level[1].children.as_ref().unwrap().iter().map(|node| node.path.as_str()).collect();
    assert_eq!(paths, vec!["top/z/1", "top/z/2"]);
    assert_eq!(code(collect_file_tree("/q", "/p", &vec![node("a", false, vec![])])).0, 400);
}
