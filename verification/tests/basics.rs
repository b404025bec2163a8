use llm_wiki_server::error::{error_body, ApiError};
use llm_wiki_server::json::{copy_json, get_text, Json, JsonObject, Number};
use llm_wiki_server::numbers::{decimal, hex, parse_decimal, NumberError};
use llm_wiki_server::order::{sort_by_keys, text_precedes, SortKey};
use llm_wiki_server::range::{content_range, parse_range, range_length};
use llm_wiki_server::table::{Record, Table};
use llm_wiki_server::text::{
    chars_of, contains, count, find, is_blank, join_parts, lines, lower_ascii, replace,
    replace_char, same, split, split_once, take_chars, text_of, trim, trim_prefixes, trim_suffixes,
    trim_text, words, CharSet,
};
use llm_wiki_server::auth::Session;

fn chars(text: &str) -> Vec<char> {
    chars_of(text)
}

fn texts(parts: Vec<&[char]>) -> Vec<String> {
    parts.into_iter().map(|part| part.iter().collect()).collect()
}

#[test]
fn texts_are_split_like_the_standard_library_splits_them() {
    for sample in ["", "a", "a\n", "a\r\nb\n\nc\r", "\n", " a  b\u{3000}c ", "x=y=z", "a/b//c/"] {
        let all = chars(sample);
        let expected: Vec<String> = sample.lines().map(|line| line.to_string()).collect();
        assert_eq!(texts(lines(&all)), expected, "{:?}", sample);
        let expected: Vec<String> = sample.split_whitespace().map(|w| w.to_string()).collect();
        assert_eq!(texts(words(&all)), expected, "{:?}", sample);
        let expected: Vec<String> = sample.split('/').map(|part| part.to_string()).collect();
        assert_eq!(texts(split(&all, CharSet::One('/'))), expected, "{:?}", sample);
        assert_eq!(trim_text(sample), sample.trim(), "{:?}", sample);
        assert_eq!(is_blank(sample), sample.trim().is_empty(), "{:?}", sample);
        let pair = split_once(&all, '=').map(|(a, b)| (text_of(a), text_of(b)));
        let expected = sample.split_once('=').map(|(a, b)| (a.to_string(), b.to_string()));
        assert_eq!(pair, expected, "{:?}", sample);
    }
}

#[test]
fn texts_are_searched_like_the_standard_library_searches_them() {
    for (text, pattern) in [("aaaa", "aa"), ("abcabc", "bc"), ("abc", ""), ("", ""), ("", "a")] {
        let (t, p) = (chars(text), chars(pattern));
        assert_eq!(count(&t, &p) as usize, text.matches(pattern).count(), "{} {}", text, pattern);
        assert_eq!(contains(&t, &p), text.contains(pattern));
        assert_eq!(find(&t, &p), text.find(pattern));
    }
    let replaced = replace(&chars("a\r\nb\r\n"), &chars("\r\n"), &chars("\n"));
    assert_eq!(text_of(&replaced), "a\nb\n");
    assert_eq!(text_of(&replace_char(&chars("a\\b"), '\\', '/')), "a/b");
    assert_eq!(text_of(&lower_ascii(&chars("\u{c4}Bc"))), "\u{c4}bc");
    assert_eq!(text_of(trim(&chars("\"'x'\""), CharSet::Two('"', '\''))), "x");
    assert_eq!(text_of(trim_prefixes(&chars("W/W/x"), &chars("W/"))), "x");
    assert_eq!(text_of(trim_suffixes(&chars("a.md.md"), &chars(".md"))), "a");
    assert_eq!(text_of(take_chars(&chars("abc"), 2)), "ab");
    assert!(same("a", "a"));
    assert!(!same("a", "b"));
    let (a, b) = (chars("a"), chars("b"));
    assert_eq!(text_of(&join_parts(&vec![&a[..], &b[..]], '-')), "a-b");
}

#[test]
fn numbers_are_written_and_read() {
    for n in [0, 7, 10, 4096, u64::MAX] {
        assert_eq!(decimal(n), n.to_string());
        assert_eq!(parse_decimal(&chars(&n.to_string()), u64::MAX).ok(), Some(n));
    }
    assert_eq!(parse_decimal(&chars("+5"), 100).ok(), Some(5));
    assert!(matches!(parse_decimal(&chars(""), 100), Err(NumberError::Empty)));
    assert!(matches!(parse_decimal(&chars("5x"), 100), Err(NumberError::InvalidDigit)));
    assert!(matches!(parse_decimal(&chars("101"), 100), Err(NumberError::TooLarge)));
    assert_eq!(
        parse_decimal(&chars(""), 100).err().unwrap().message(),
        "".parse::<u16>().unwrap_err().to_string()
    );
    assert_eq!(
        parse_decimal(&chars("x"), 100).err().unwrap().message(),
        "x".parse::<u16>().unwrap_err().to_string()
    );
    assert_eq!(
        parse_decimal(&chars("70000"), 65535).err().unwrap().message(),
        "70000".parse::<u16>().unwrap_err().to_string()
    );
    assert_eq!(hex(&[0, 15, 255]), "000fff");
}

#[test]
fn sorting_keeps_equal_items_in_order() {
    let key = |rank: u128, text: &str| SortKey { rank, text: chars(text) };
    let keys = vec![key(1, "b"), key(0, "z"), key(1, "a"), key(1, "b")];
    assert_eq!(sort_by_keys(vec!["1b", "0z", "1a", "1b again"], &keys), vec!["0z", "1a", "1b", "1b again"]);
    assert!(text_precedes("a", "ab"));
    assert!(text_precedes("Z", "a"));
    assert!(!text_precedes("a", "a"));
    assert_eq!(text_precedes("\u{ffff}", "\u{10000}"), "\u{ffff}" < "\u{10000}");
}

#[test]
fn tables_keep_their_keys_in_order() {
    let mut table: Table<Session> = Table::new();
    for key in ["b", "a", "c", "a"] {
        table.insert(key.to_string(), Session { csrf: format!("{}!", key), expires_at: 1 });
    }
    let keys: Vec<&str> = (0..table.len()).map(|i| table.key_at(i).as_str()).collect();
    assert_eq!(keys, vec!["a", "b", "c"]);
    assert_eq!(table.value_at(1).csrf, "b!");
    assert!(table.remove("b"));
    assert!(!table.remove("b"));
    assert!(table.get("b").is_none());
    let copy = table.copied();
    assert_eq!(copy.len(), 2);
    assert_eq!(copy.get("c").unwrap().copied().csrf, "c!");
}

#[test]
fn objects_hold_each_key_once() {
    let mut object = JsonObject::new();
    object.set("a".to_string(), Json::Null);
    object.set("a".to_string(), Json::Text("x".to_string()));
    object.set("n".to_string(), Json::Number(Number::Negative(-1)));
    assert_eq!(object.len(), 2);
    let value = Json::Object(object);
    assert_eq!(get_text(&value, "a"), Some("x".to_string()));
    assert_eq!(get_text(&value, "n"), None);
    assert_eq!(get_text(&value, "z"), None);
    let copy = copy_json(&value);
    assert!(copy.is_object());
    assert!(matches!(copy.get("n"), Some(Json::Number(Number::Negative(-1)))));
    assert!(Json::Null.get("a").is_none());
    assert!(Json::Null.as_text().is_none());
}

#[test]
fn ranges_lie_within_the_file() {
    let range = parse_range(Some("bytes=2-1000"), 10).ok().unwrap();
    assert_eq!((range.status, range.start, range.end), (206, 2, 9));
    assert_eq!(range_length(&range, 10), 8);
    assert_eq!(content_range(&range, 10), "bytes 2-9/10");
    let whole = parse_range(None, 10).ok().unwrap();
    assert_eq!((whole.status, whole.start, whole.end), (200, 0, 9));
    let empty = parse_range(None, 0).ok().unwrap();
    assert_eq!((empty.status, range_length(&empty, 0)), (200, 0));
    let suffix = parse_range(Some("bytes=-100"), 10).ok().unwrap();
    assert_eq!((suffix.start, suffix.end), (0, 9));
}

#[test]
fn errors_are_answered_in_one_shape() {
    let plain = ApiError::new(404, "NOT_FOUND", "Not found");
    let body = error_body(&plain, "req_1");
    let error = body.get("error").unwrap();
    assert_eq!(error.get("code").unwrap().as_text().unwrap(), "NOT_FOUND");
    assert_eq!(error.get("message").unwrap().as_text().unwrap(), "Not found");
    assert_eq!(error.get("requestId").unwrap().as_text().unwrap(), "req_1");
    match error.get("details").unwrap() {
        Json::Object(details) => assert_eq!(details.len(), 0),
        _ => panic!("details are an object"),
    }
    let conflict = ApiError::conflict(Some("r0".to_string()), "r1".to_string());
    let body = error_body(&conflict, "req_2");
    let details = body.get("error").unwrap().get("details").unwrap();
    assert_eq!(details.get("expected").unwrap().as_text().unwrap(), "r0");
    assert_eq!(details.get("actual").unwrap().as_text().unwrap(), "r1");
    let body = error_body(&ApiError::conflict(None, "r1".to_string()), "req_3");
    let details = body.get("error").unwrap().get("details").unwrap();
    assert!(matches!(details.get("expected"), Some(Json::Null)));
}
