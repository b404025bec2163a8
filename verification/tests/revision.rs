use llm_wiki_server::error::Details;
use llm_wiki_server::files::{
    check_content, check_delete_request, check_size, check_write_request, delete_step,
    directory_not_empty, move_file, read_text, read_text_as, write_text, DeleteStep, FileKind,
    MAX_TEXT_BYTES,
};
use llm_wiki_server::headers::Headers;
use llm_wiki_server::paths::{safe_project_path, IoFailure, IoKind, PathFacts};
use llm_wiki_server::revision::{
    check_delete, check_write, compare_for_delete, compare_for_write, hash_string, merge_revision,
    project_id_of, quoted_etag, revision, stable_project_id, supplied_revision, unquote_etag,
};

fn headers(items: &[(&str, &str)]) -> Headers {
    let mut headers = Headers::new();
    for (name, value) in items {
        headers.push(name, value.as_bytes().to_vec());
    }
    headers
}

fn code<T>(r: Result<T, llm_wiki_server::error::ApiError>) -> (u16, &'static str) {
    let error = r.err().unwrap();
    (error.status, error.code)
}

fn failure(kind: IoKind) -> IoFailure {
    IoFailure { kind, message: "reason".to_string() }
}

const EMPTY: &str = "e3b0c44298fc1c149afbf4c8996fb92427ae41e4649b934ca495991b7852b855";

#[test]
fn revision_is_the_sha256_of_the_bytes() {
    assert_eq!(revision(b""), EMPTY);
    assert_eq!(
        revision(b"abc"),
        "ba7816bf8f01cfea414140de5dae2223b00361a396177a9cb410ff61f20015ad"
    );
    assert_eq!(hash_string("abc"), revision(b"abc"));
    assert_eq!(stable_project_id("abc"), "project-ba7816bf8f01cfea");
}

#[test]
fn etags_are_quoted_and_unquoted() {
    let tag = quoted_etag(EMPTY).ok().unwrap();
    assert_eq!(tag, format!("\"{}\"", EMPTY).into_bytes());
    assert_eq!(unquote_etag(&String::from_utf8(tag).unwrap()), EMPTY);
    assert_eq!(unquote_etag(" W/\"x\" "), "x");
    assert_eq!(unquote_etag("\t\"x\"\n"), "x");
    assert_eq!(unquote_etag("W/W/\"x\""), "x");
    assert_eq!(unquote_etag("\"\""), "");
    let error = quoted_etag("a\nb").err().unwrap();
    assert_eq!(error.code, "HEADER_ERROR");
    assert_eq!(error.message, "failed to parse header value");
}

#[test]
fn revisions_from_two_places_must_agree() {
    let tagged = headers(&[("if-match", "\"r1\"")]);
    assert_eq!(
        supplied_revision(&tagged, Some("r1".to_string())).ok().unwrap(),
        Some("r1".to_string())
    );
    assert_eq!(supplied_revision(&tagged, None).ok().unwrap(), Some("r1".to_string()));
    assert_eq!(
        supplied_revision(&headers(&[]), Some("r2".to_string())).ok().unwrap(),
        Some("r2".to_string())
    );
    assert_eq!(
        code(supplied_revision(&tagged, Some("r2".to_string()))),
        (400, "REVISION_MISMATCH")
    );
    assert_eq!(
        code(merge_revision(Some("a".to_string()), Some("b".to_string()))),
        (400, "REVISION_MISMATCH")
    );
    assert_eq!(
        merge_revision(None, Some("b".to_string())).ok().unwrap(),
        Some("b".to_string())
    );
}

#[test]
fn write_rejects_revision_conflict() {
    let current = Some(b"old".to_vec());
    let error = check_write_request(&headers(&[("if-match", "stale")]), None, &current)
        .err()
        .unwrap();
    assert_eq!(error.status, 409);
    assert_eq!(error.code, "FILE_REVISION_CONFLICT");
    match error.details {
        Details::Revisions { expected, actual } => {
            assert_eq!(expected, Some("stale".to_string()));
            assert_eq!(actual, revision(b"old"));
        }
        Details::Empty => panic!("the conflict names no revisions"),
    }
}

#[test]
fn wildcard_revision_creates_a_new_text_file() {
    assert!(check_write_request(&headers(&[("if-match", "*")]), None, &None).is_ok());
    assert!(check_write(None, &None).is_ok());
    let error = check_write(Some("r1".to_string()), &None).err().unwrap();
    match error.details {
        Details::Revisions { actual, .. } => assert_eq!(actual, "missing"),
        Details::Empty => panic!("the conflict names no revisions"),
    }
    assert!(check_write(Some("*".to_string()), &Some(b"x".to_vec())).is_err());
    assert!(check_write(None, &Some(b"x".to_vec())).is_err());
}

#[test]
fn body_revision_allows_a_write_and_a_delete() {
    let current = Some(b"old".to_vec());
    assert!(check_write_request(&headers(&[]), Some(revision(b"old")), &current).is_ok());
    let saved = write_text("wiki/page.md", "/p/wiki/page.md", "new".to_string());
    assert_eq!(saved.content, "new");
    assert_eq!(saved.path, "wiki/page.md");
    assert_eq!(saved.revision, revision(b"new"));
    assert_eq!(saved.mime_type, "text/markdown");
    assert!(check_delete_request(&headers(&[]), None, Some(saved.revision), b"new").is_ok());
    assert!(check_delete(None, b"new").is_ok());
    assert_eq!(code(check_delete(Some("x".to_string()), b"new")), (409, "FILE_REVISION_CONFLICT"));
    assert_eq!(
        code(check_delete_request(
            &headers(&[]),
            Some("a".to_string()),
            Some("b".to_string()),
            b"new"
        )),
        (400, "REVISION_MISMATCH")
    );
}

#[test]
fn what_was_written_is_read_back() {
    let content = "gr\u{fc}n\n";
    let saved = write_text("a.unknown-extension", "/p/a.unknown-extension", content.to_string());
    assert_eq!(saved.mime_type, "text/plain");
    let file = read_text("a.unknown-extension", content.as_bytes().to_vec()).ok().unwrap();
    assert_eq!(file.content, content);
    assert_eq!(file.revision, saved.revision);
    assert_eq!(file.etag, format!("\"{}\"", saved.revision).into_bytes());
    assert_eq!(code(read_text("a", vec![0xff, 0xfe])), (415, "NOT_TEXT"));
}

#[test]
fn text_files_have_a_largest_size() {
    assert!(check_size(MAX_TEXT_BYTES).is_ok());
    assert_eq!(code(check_size(MAX_TEXT_BYTES + 1)), (413, "FILE_TOO_LARGE"));
    assert_eq!(MAX_TEXT_BYTES, 4 * 1024 * 1024);
    assert!(check_content("small").is_ok());
    let large = "\u{fc}".repeat(2 * 1024 * 1024 + 1);
    assert_eq!(code(check_content(&large)), (413, "FILE_TOO_LARGE"));
}

#[test]
fn move_rejects_unsafe_or_existing_targets_and_keeps_files_in_project() {
    let file = || Ok(FileKind { is_file: true, is_dir: false });
    let dir = || Ok(FileKind { is_file: false, is_dir: true });
    let free = || Err(failure(IoKind::NotFound));
    let facts = PathFacts {
        links: vec![false, false],
        exists: vec![true, true, true],
        canonical: Ok("/p/wiki".to_string()),
    };
    let safe = |path: &str| safe_project_path("/p", path, false, &facts);
    let source = &safe("wiki/source.md").ok().unwrap();
    let target = &safe("wiki/moved.md").ok().unwrap();
    assert_eq!((source.as_str(), target.as_str()), ("/p/wiki/source.md", "/p/wiki/moved.md"));
    assert!(move_file(source, target, file(), free()).is_ok());
    let existing = &safe("wiki/existing.md").ok().unwrap();
    assert_eq!(code(move_file(target, existing, file(), Ok(()))), (409, "FILE_EXISTS"));
    assert_eq!(code(safe("../outside.md")), (400, "INVALID_PATH"));
    assert_eq!(
        code(move_file(source, target, Err(failure(IoKind::NotFound)), free())),
        (404, "FILE_NOT_FOUND")
    );
    assert_eq!(
        code(move_file(
            source,
            target,
            Ok(FileKind { is_file: false, is_dir: false }),
            free()
        )),
        (400, "INVALID_FILE_TYPE")
    );
    assert_eq!(
        code(move_file(source, target, file(), Err(failure(IoKind::Other)))),
        (500, "IO_ERROR")
    );
    assert_eq!(
        code(move_file("/p/wiki", "/p/wiki/inner", dir(), free())),
        (400, "INVALID_PATH")
    );
    assert!(move_file("/p/wiki", "/p/wiki2", dir(), free()).is_ok());
}

#[test]
fn files_and_directories_are_deleted_differently() {
    assert!(matches!(
        delete_step(Ok(FileKind { is_file: true, is_dir: false })),
        Ok(DeleteStep::File)
    ));
    assert!(matches!(
        delete_step(Ok(FileKind { is_file: false, is_dir: true })),
        Ok(DeleteStep::Directory)
    ));
    assert_eq!(
        code(delete_step(Ok(FileKind { is_file: false, is_dir: false }))),
        (400, "INVALID_FILE_TYPE")
    );
    assert_eq!(code(delete_step(Err(failure(IoKind::NotFound)))), (404, "FILE_NOT_FOUND"));
    let error = directory_not_empty(&failure(IoKind::Other));
    assert_eq!((error.status, error.code), (409, "DIRECTORY_NOT_EMPTY"));
    assert_eq!(error.message, "reason");
}

#[test]
fn revisions_are_compared() {
    let some = |text: &str| Some(text.to_string());
    assert!(compare_for_write(some("r1"), some("r1")).is_ok());
    assert!(compare_for_write(None, None).is_ok());
    assert!(compare_for_write(some("*"), None).is_ok());
    for (supplied, actual, told) in [
        (some("r0"), some("r1"), "r1"),
        (None, some("r1"), "r1"),
        (some("*"), some("r1"), "r1"),
        (some("r0"), None, "missing"),
    ] {
        let error = compare_for_write(supplied.clone(), actual).err().unwrap();
        assert_eq!((error.status, error.code), (409, "FILE_REVISION_CONFLICT"));
        match error.details {
            Details::Revisions { expected, actual } => {
                assert_eq!((expected, actual.as_str()), (supplied, told));
            }
            Details::Empty => panic!("a conflict names the revisions"),
        }
    }
    assert!(compare_for_delete(None, "r1".to_string()).is_ok());
    assert!(compare_for_delete(some("r1"), "r1".to_string()).is_ok());
    assert!(compare_for_delete(some("*"), "r1".to_string()).is_err());
    assert_eq!(project_id_of("0123456789abcdef0123"), "project-0123456789abcdef");
    assert_eq!(project_id_of("01"), "project-01");
}

#[test]
fn files_are_read_in_a_revision() {
    let file = read_text_as("a.md", b"hi".to_vec(), "r1".to_string()).ok().unwrap();
    assert_eq!((file.path.as_str(), file.content.as_str()), ("a.md", "hi"));
    assert_eq!((file.revision.as_str(), file.etag.as_slice()), ("r1", &b"\"r1\""[..]));
    let error = read_text_as("a.md", b"hi".to_vec(), "r\n".to_string()).err().unwrap();
    assert_eq!((error.status, error.code), (500, "HEADER_ERROR"));
    assert_eq!(read_text_as("a", vec![0xff], "r1".to_string()).err().unwrap().code, "NOT_TEXT");
}
