use llm_wiki_server::assets::{
    content_disposition_header, disposition, is_active_content, mime_of_file, plan_asset,
    sends_body, AssetPlan,
};
use llm_wiki_server::headers::Headers;
use llm_wiki_server::web::{
    canonicalize_web_root, locate_web_root, static_headers, static_relative, static_web_path,
    Candidate,
};

fn value(headers: &Headers, name: &str) -> Option<String> {
    headers
        .fields
        .iter()
        .find(|field| field.name == name)
        .map(|field| String::from_utf8(field.value.clone()).unwrap())
}

fn plan(path: &str, size: u64, range: Option<&str>, download: bool, head: bool) -> AssetPlan {
    plan_asset(path, size, range, download, head).ok().unwrap()
}

fn found(path: &str, is_file: bool) -> Candidate {
    Candidate::Resolved { path: path.to_string(), is_file }
}

#[test]
fn active_assets_are_download_only_and_head_has_no_body() {
    let asset = "/p/raw/assets/untrusted.svg";
    let sent = plan(asset, 46, None, false, false);
    assert_eq!(sent.status, 200);
    assert!(value(&sent.headers, "content-disposition").unwrap().starts_with("attachment"));
    assert_eq!(value(&sent.headers, "content-security-policy").unwrap(), "sandbox");
    assert!(sent.has_body);
    let head = plan(asset, 46, None, false, true);
    assert_eq!(head.status, 200);
    assert_eq!(value(&head.headers, "content-length").unwrap(), "46");
    assert!(!head.has_body);
    let report = plan("/p/raw/assets/\u{62a5}\u{544a}.pdf", 3, None, true, false);
    assert_eq!(report.status, 200);
    assert!(value(&report.headers, "content-disposition")
        .unwrap()
        .contains("filename*=UTF-8''%E6%8A%A5%E5%91%8A.pdf"));
}

#[test]
fn query_asset_download_is_an_attachment() {
    let asset = "/p/raw/assets/asset.txt";
    let saved = plan(asset, 5, None, true, false);
    assert!(value(&saved.headers, "content-disposition").unwrap().starts_with("attachment"));
    assert_eq!(value(&saved.headers, "content-type").unwrap(), "text/plain");
    let shown = plan(asset, 5, None, false, false);
    assert_eq!(
        value(&shown.headers, "content-disposition").unwrap(),
        "inline; filename=\"asset.txt\"; filename*=UTF-8''asset.txt"
    );
    assert_eq!(value(&shown.headers, "content-security-policy"), None);
    assert_eq!(value(&shown.headers, "content-range"), None);
    assert_eq!(value(&shown.headers, "accept-ranges").unwrap(), "bytes");
    assert_eq!(value(&shown.headers, "x-content-type-options").unwrap(), "nosniff");
}

#[test]
fn ranges_are_sent_in_part() {
    let part = plan("/p/a.bin", 100, Some("bytes=10-19"), false, false);
    assert_eq!((part.status, part.start, part.length), (206, 10, 10));
    assert_eq!(value(&part.headers, "content-range").unwrap(), "bytes 10-19/100");
    assert_eq!(value(&part.headers, "content-length").unwrap(), "10");
    assert_eq!(value(&part.headers, "content-type").unwrap(), "application/octet-stream");
    let tail = plan("/p/a.bin", 100, Some("bytes=-5"), false, false);
    assert_eq!((tail.start, tail.length), (95, 5));
    let rest = plan("/p/a.bin", 100, Some("bytes=90-"), false, false);
    assert_eq!((rest.start, rest.length), (90, 10));
    let empty = plan("/p/a.bin", 0, Some("bytes=0-1"), false, false);
    assert_eq!((empty.status, empty.length, empty.has_body), (200, 0, false));
    for bad in ["items=0-1", "bytes=0-1,2-3", "bytes=5", "bytes=x-", "bytes=100-", "bytes=5-4", "bytes=-0"] {
        let error = plan_asset("/p/a.bin", 100, Some(bad), false, false).err().unwrap();
        assert_eq!((error.status, error.code), (416, "INVALID_RANGE"));
    }
}

#[test]
fn active_content_is_known_by_type_and_by_extension() {
    assert!(is_active_content("text/html", "/a.txt"));
    assert!(is_active_content("text/html; charset=utf-8", "/a.txt"));
    assert!(is_active_content("text/plain", "/a.SVG"));
    assert!(is_active_content("text/plain", "/a.mjs"));
    assert!(!is_active_content("text/plain", "/a.txt"));
    assert!(!is_active_content("text/plain", "/svg"));
}

#[test]
fn dispositions_follow_the_type() {
    assert_eq!(disposition("image/png", "/a.png", false), "inline");
    assert_eq!(disposition("image/png", "/a.png", true), "attachment");
    assert_eq!(disposition("application/pdf", "/a.pdf", false), "inline");
    assert_eq!(disposition("application/zip", "/a.zip", false), "attachment");
    assert_eq!(disposition("image/svg+xml", "/a.svg", false), "attachment");
    assert_eq!(mime_of_file("/a.png"), "image/png");
    assert_eq!(mime_of_file("/a.nothing-known"), "application/octet-stream");
    assert!(sends_body(false, 1));
    assert!(!sends_body(true, 1));
    assert!(!sends_body(false, 0));
}

#[test]
fn file_names_are_encoded_twice() {
    let header = |name: &str| {
        String::from_utf8(content_disposition_header("inline", name).ok().unwrap()).unwrap()
    };
    assert_eq!(header("a b.txt"), "inline; filename=\"a_b.txt\"; filename*=UTF-8''a%20b.txt");
    assert_eq!(header("\u{e4}"), "inline; filename=\"asset\"; filename*=UTF-8''%C3%A4");
    assert_eq!(header("a%41"), "inline; filename=\"a_41\"; filename*=UTF-8''a%2541");
    assert_eq!(header("x\"~\n"), "inline; filename=\"x___\"; filename*=UTF-8''x%22~%0A");
    assert!(content_disposition_header("in\nline", "a").is_err());
}

#[test]
fn static_responses_include_csp_and_cache_headers() {
    let headers = static_headers("/web/index.html", 2);
    assert!(value(&headers, "content-security-policy").unwrap().starts_with("default-src 'self'"));
    assert_eq!(value(&headers, "cache-control").unwrap(), "no-cache");
    assert_eq!(value(&headers, "content-type").unwrap(), "text/html");
    assert_eq!(value(&headers, "content-length").unwrap(), "2");
    assert_eq!(value(&headers, "referrer-policy").unwrap(), "same-origin");
    assert_eq!(value(&headers, "x-content-type-options").unwrap(), "nosniff");
}

#[test]
fn static_requests_are_screened() {
    assert_eq!(static_relative("GET", "//app/x.js").ok().unwrap(), "app/x.js");
    assert_eq!(static_relative("HEAD", "/").ok().unwrap(), "");
    for (method, path) in
        [("POST", "/"), ("GET", "/api"), ("GET", "/api/v2/x"), ("GET", "/a/../b"), ("GET", "/.git/config")]
    {
        let error = static_relative(method, path).err().unwrap();
        assert_eq!((error.status, error.code), (404, "NOT_FOUND"));
    }
    assert!(static_relative("GET", "/apix").is_ok());
}

#[test]
fn static_file_symlink_outside_web_root_is_rejected() {
    let error = static_web_path(
        "/web",
        "outside.js",
        found("/outside.js", true),
        found("/web/index.html", true),
    )
    .err()
    .unwrap();
    assert_eq!((error.status, error.code), (404, "WEB_ROOT_NOT_FOUND"));
}

#[test]
fn index_page_stands_for_missing_files() {
    let index = || found("/web/index.html", true);
    let page = |r: Result<String, _>| -> String {
        let r: Result<String, llm_wiki_server::error::ApiError> = r;
        r.ok().unwrap()
    };
    assert_eq!(page(static_web_path("/web", "", Candidate::Missing, index())), "/web/index.html");
    assert_eq!(page(static_web_path("/web", "a", Candidate::Missing, index())), "/web/index.html");
    assert_eq!(page(static_web_path("/web", "a", found("/web/a", false), index())), "/web/index.html");
    assert_eq!(page(static_web_path("/web", "a.js", found("/web/a.js", true), index())), "/web/a.js");
    let asset = found("/web/assets/a.js", true);
    assert_eq!(page(static_web_path("/web", "assets/a.js", asset, index())), "/web/assets/a.js");
    assert_eq!(
        page(static_web_path("/web", "assetsx/a", Candidate::Missing, index())),
        "/web/index.html"
    );
    for missing in ["assets", "assets/missing.js", "api", "api/v2/x"] {
        let error = static_web_path("/web", missing, Candidate::Missing, index()).err().unwrap();
        assert_eq!((error.status, error.code), (404, "WEB_ROOT_NOT_FOUND"), "{}", missing);
    }
    assert!(static_web_path("/web", "assets", found("/web/assets", false), index()).is_err());
    assert!(static_web_path("/web", "a", Candidate::Unresolved, index()).is_err());
    assert!(static_web_path("/web", "a", Candidate::Missing, Candidate::Missing).is_err());
    assert!(static_web_path("/web", "", Candidate::Missing, found("/etc/index.html", true)).is_err());
}

#[test]
fn web_root_is_resolved_at_the_start() {
    let working = || Ok("/home/me".to_string());
    assert_eq!(locate_web_root("/web", Err("none".to_string())).unwrap(), "/web");
    assert_eq!(locate_web_root("dist", working()).unwrap(), "/home/me/dist");
    assert_eq!(
        locate_web_root("dist", Err("gone".to_string())).unwrap_err(),
        "resolve web root: gone"
    );
    assert_eq!(canonicalize_web_root(Ok("/web".to_string()), true).unwrap(), "/web");
    assert_eq!(
        canonicalize_web_root(Ok("/web".to_string()), false).unwrap_err(),
        "web root must be a directory"
    );
    assert_eq!(
        canonicalize_web_root(Err("gone".to_string()), true).unwrap_err(),
        "canonicalize web root: gone"
    );
}
