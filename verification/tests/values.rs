use provider_sync::digest::{hex_text, sha256_hex_text, ContentDigest};
use provider_sync::json::{
    copy, equal, get, get_text, parse, set_entry, text_from_utf8, text_to_utf8, to_compact,
    to_pretty, Json,
};
use provider_sync::paths::{less_path, sort_paths};
use provider_sync::text::{
    decimal_text, less_text, line_body_text, separate_texts, sorted_set, text_lines, trim_text,
};

fn texts(v: &[&str]) -> Vec<String> {
    v.iter().map(|s| s.to_string()).collect()
}

#[test]
fn digests_are_those_of_sha256() {
    assert_eq!(
        sha256_hex_text(b""),
        "e3b0c44298fc1c149afbf4c8996fb92427ae41e4649b934ca495991b7852b855"
    );
    assert_eq!(
        sha256_hex_text(b"abc"),
        "ba7816bf8f01cfea414140de5dae2223b00361a396177a9cb410ff61f20015ad"
    );
    let mut digest = ContentDigest::new();
    digest.feed(b"a");
    digest.feed(b"bc");
    assert_eq!(digest.size(), 3);
    assert_eq!(
        digest.finish(),
        (
            "ba7816bf8f01cfea414140de5dae2223b00361a396177a9cb410ff61f20015ad".to_string(),
            3
        )
    );
    assert_eq!(hex_text(&[0x00, 0xff, 0x1a]), "00ff1a");
}

#[test]
fn values_are_read_and_written() {
    let value = parse("{\"b\":[1,-2,true,null,\"x\"],\"a\":{\"c\":1.5}}").unwrap();
    assert_eq!(
        String::from_utf8(to_compact(&value)).unwrap(),
        "{\"a\":{\"c\":1.5},\"b\":[1,-2,true,null,\"x\"]}"
    );
    assert!(equal(&value, &copy(&value)));
    assert!(!equal(&value, &Json::Null));
    assert!(parse("{").is_none());
    assert!(parse("").is_none());
    assert_eq!(to_pretty(&parse("[1]").unwrap()), "[\n  1\n]");
    let again = parse(&to_pretty(&value)).unwrap();
    assert!(equal(&value, &again));
}

#[test]
fn members_are_found_and_replaced() {
    let value = parse("{\"a\":\"x\",\"b\":2}").unwrap();
    assert_eq!(get_text(&value, "a"), Some("x".to_string()));
    assert_eq!(get_text(&value, "b"), None);
    assert!(get(&value, "c").is_none());
    let mut fields = match value {
        Json::Object(fields) => fields,
        _ => panic!("an object"),
    };
    set_entry(&mut fields, "a", Json::Unsigned(1));
    set_entry(&mut fields, "c", Json::Bool(false));
    let value = Json::Object(fields);
    assert!(matches!(get(&value, "a"), Some(Json::Unsigned(1))));
    assert!(matches!(get(&value, "c"), Some(Json::Bool(false))));
}

#[test]
fn deep_nesting_is_refused() {
    let deep = |n: usize| format!("{}{}", "[".repeat(n), "]".repeat(n));
    assert!(parse(&deep(127)).is_some());
    assert!(parse(&deep(128)).is_none());
}

#[test]
fn bytes_become_text_where_they_are_utf8() {
    assert_eq!(text_from_utf8("é".as_bytes()), Some("é".to_string()));
    assert_eq!(text_from_utf8(&[0xff]), None);
    assert_eq!(text_to_utf8("é"), "é".as_bytes());
}

#[test]
fn texts_are_trimmed_sorted_and_joined() {
    assert_eq!(trim_text(" \u{3000}a b\t\n"), "a b");
    assert!(less_text("a", "b"));
    assert!(less_text("a", "ab"));
    assert!(!less_text("b", "a"));
    assert_eq!(sorted_set(&texts(&["b", "a", "b"])), texts(&["a", "b"]));
    assert_eq!(separate_texts(&texts(&["a", "b", "c"]), ", "), "a, b, c");
    assert_eq!(separate_texts(&Vec::new(), ", "), "");
    assert_eq!(text_lines("a\r\nb\n\nc"), texts(&["a\r\n", "b\n", "\n", "c"]));
    assert_eq!(line_body_text("a\r\n"), "a");
    assert_eq!(line_body_text("a\r"), "a\r");
    assert_eq!(decimal_text(0), "0");
    assert_eq!(decimal_text(18446744073709551615), "18446744073709551615");
}

#[test]
fn paths_are_ordered_piece_by_piece() {
    assert!(less_path("/h/a/z", "/h/a-b/a", false));
    assert!(!less_path("/h/a-b/a", "/h/a/z", false));
    assert!(less_path("/h/a", "/h/a/b", false));
    assert_eq!(
        sort_paths(&texts(&["/h/a-b/a", "/h/a/z", "/h/a/z", "/h/a/b"]), false),
        texts(&["/h/a/b", "/h/a/z", "/h/a-b/a"])
    );
}

#[test]
fn paths_are_ordered_by_their_components() {
    assert!(!less_path("/h//a", "/h/a", false));
    assert!(!less_path("/h/a", "/h/./a/", false));
    assert!(less_path("/h/../b", "/h/a", false));
    assert!(less_path("/h", "h", false));
    assert!(less_path("./b", "a", false));
    assert_eq!(sort_paths(&texts(&["/h//a", "/h/a"]), false), texts(&["/h//a"]));
    assert!(!less_path("h\\a", "h/a", true));
    assert!(less_path("h/a", "h\\a", false));
    assert!(less_path("c:\\b", "D:\\a", true));
    assert!(!less_path("c:\\b", "C:\\b", true));
    assert!(less_path("\\\\server\\share\\a", "C:\\a", true));
    assert_eq!(
        sort_paths(&texts(&["C:\\h\\a-b", "C:\\h\\a\\z", "c:/h/a/z"]), true),
        texts(&["C:\\h\\a\\z", "C:\\h\\a-b"])
    );
}
