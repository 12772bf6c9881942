use i18n_core::parser::json::{entries_from_tokens, JsonToken};
use i18n_core::{parse_with_extension, JsonParser, LocaleEntry, LocaleParser, ParseError};

fn entries(src: &str) -> Vec<LocaleEntry> {
    JsonParser.parse(src).expect("parse ok")
}

#[test]
fn flat_object() {
    let src = r#"{ "hello": "Hi", "bye": "Bye" }"#;
    let e = entries(src);
    assert_eq!(e.len(), 2);
    assert_eq!(e[0].key_path, vec!["hello".to_string()]);
    assert_eq!(e[0].value, "Hi");
    assert_eq!(e[1].key_path, vec!["bye".to_string()]);
}

#[test]
fn nested_object() {
    let src = r#"{ "common": { "submit": "Submit", "cancel": "Cancel" } }"#;
    let e = entries(src);
    assert_eq!(e.len(), 2);
    assert_eq!(e[0].key_path, vec!["common".to_string(), "submit".to_string()]);
    assert_eq!(e[1].key_path, vec!["common".to_string(), "cancel".to_string()]);
}

#[test]
fn ignores_arb_metadata() {
    let src = r#"{
            "@@locale": "en",
            "hello": "Hi",
            "@hello": { "description": "greeting" }
        }"#;
    let e = entries(src);
    assert_eq!(e.len(), 1);
    assert_eq!(e[0].key_path, vec!["hello".to_string()]);
}

#[test]
fn records_source_range() {
    let src = r#"{"x":"Hi"}"#;
    let e = entries(src);
    assert_eq!(e[0].range.start.offset, 5);
    assert_eq!(e[0].range.end.offset, 9);
    assert_eq!(e[0].range.start.line, 0);
    assert_eq!(e[0].range.start.character, 5);
}

#[test]
fn records_key_range_separately_from_value_range() {
    let src = r#"{"hello": "Hi"}"#;
    let e = entries(src);
    assert_eq!(&src[e[0].key_range.start.offset..e[0].key_range.end.offset], "\"hello\"");
    assert!(e[0].key_range.end.offset <= e[0].range.start.offset);
}

#[test]
fn key_range_points_at_leaf_property_in_nested_object() {
    let src = r#"{ "common": { "submit": "Submit" } }"#;
    let e = entries(src);
    assert_eq!(&src[e[0].key_range.start.offset..e[0].key_range.end.offset], "\"submit\"");
}

#[test]
fn jsonc_comments_allowed() {
    let src = r#"{
            // greeting
            "hello": "Hi"
        }"#;
    let e = entries(src);
    assert_eq!(e.len(), 1);
}

#[test]
fn json_reports_syntax_errors() {
    let src = r#"{ "hello": }"#;
    let err = JsonParser.parse(src).unwrap_err();
    match err {
        ParseError::Syntax { .. } => {}
        _ => panic!("expected syntax error"),
    }
}

#[test]
fn arrays_numbers_and_top_level_strings_are_skipped() {
    let e = entries(r#"{ "a": [ "x", { "b": "y" } ], "n": 3, "ok": "yes" }"#);
    assert_eq!(e.len(), 1);
    assert_eq!(e[0].key_path, vec!["ok".to_string()]);
    assert!(entries(r#""just a string""#).is_empty());
}

#[test]
fn json5_unquoted_keys_and_escapes() {
    let e = entries("{ hello: 'Hi \\u00e9' }");
    assert_eq!(e.len(), 1);
    assert_eq!(e[0].key_path, vec!["hello".to_string()]);
    assert_eq!(e[0].value, "Hi é");
}

#[test]
fn walk_over_given_tokens() {
    let src = "{\"a\":{\"b\":\"c\"}}";
    let tok = |s: bool, t: &str, a: usize, b: usize| JsonToken { is_string: s, text: t.to_string(), start: a, end: b };
    let tokens = vec![
        tok(false, "{", 0, 1), tok(true, "a", 1, 4), tok(false, ":", 4, 5), tok(false, "{", 5, 6),
        tok(true, "b", 6, 9), tok(false, ":", 9, 10), tok(true, "c", 10, 13), tok(false, "}", 13, 14),
        tok(false, "}", 14, 15),
    ];
    let e = entries_from_tokens(src, &tokens);
    assert_eq!(e.len(), 1);
    assert_eq!(e[0].key_path, vec!["a".to_string(), "b".to_string()]);
    assert_eq!(e[0].value, "c");
    assert_eq!(e[0].range.start.offset, 10);
    assert_eq!(e[0].key_range.start.offset, 6);
}

#[test]
fn extension_chooses_the_parser() {
    assert_eq!(parse_with_extension(r#"{"a":"b"}"#, "/x/en.arb").unwrap().len(), 1);
    match parse_with_extension("a", "/x/en.po") {
        Err(ParseError::Unsupported(e)) => assert_eq!(e, "po"),
        other => panic!("unexpected {other:?}"),
    }
    match parse_with_extension("a", "/x/README") {
        Err(ParseError::Unsupported(e)) => assert_eq!(e, "/x/README"),
        other => panic!("unexpected {other:?}"),
    }
}
