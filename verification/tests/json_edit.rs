//! Key insertion into JSON documents, the text read and written with
//! `serde_json` around the library's document model.

use i18n_core::edits::value_at_path_exists;
use i18n_core::mutation::{insert_into_value, JsonValue, MutationError};
use serde_json::Value;

fn from_model(v: JsonValue) -> Value {
    match v {
        JsonValue::Null => Value::Null,
        JsonValue::Bool(b) => Value::Bool(b),
        JsonValue::Number(n) => n.parse::<serde_json::Number>().map(Value::Number).unwrap_or(Value::Null),
        JsonValue::Str(s) => Value::String(s),
        JsonValue::Array(xs) => Value::Array(xs.into_iter().map(from_model).collect()),
        JsonValue::Object(fs) => Value::Object(fs.into_iter().map(|(k, v)| (k, from_model(v))).collect()),
    }
}

fn insert_key_json(content: &str, path: &[&str], value: &str) -> Result<String, MutationError> {
    let segments: Vec<String> = path.iter().map(|s| s.to_string()).collect();
    i18n_core::mutation::insert_key_json(content, &segments, value)
}

#[test]
fn insert_into_existing_nested_path_preserves_order() {
    let input = "{\n  \"slots\": {\n    \"a\": \"1\",\n    \"b\": \"2\"\n  }\n}\n";
    let out = insert_key_json(input, &["slots", "c"], "3").unwrap();
    let expected = "{\n  \"slots\": {\n    \"a\": \"1\",\n    \"b\": \"2\",\n    \"c\": \"3\"\n  }\n}\n";
    assert_eq!(out, expected);
}

#[test]
fn insert_into_sorted_map_places_key_in_alphabetical_position() {
    let input = "{\n  \"a\": \"1\",\n  \"c\": \"3\"\n}\n";
    let out = insert_key_json(input, &["b"], "2").unwrap();
    assert_eq!(out, "{\n  \"a\": \"1\",\n  \"b\": \"2\",\n  \"c\": \"3\"\n}\n");
}

#[test]
fn insert_into_unsorted_map_appends_at_end_to_preserve_manual_order() {
    let input = "{\n  \"z\": \"26\",\n  \"a\": \"1\"\n}\n";
    let out = insert_key_json(input, &["m"], "13").unwrap();
    assert_eq!(out, "{\n  \"z\": \"26\",\n  \"a\": \"1\",\n  \"m\": \"13\"\n}\n");
}

#[test]
fn new_intermediate_branch_is_inserted_alphabetically_at_top_level() {
    let input = "{\n  \"auth\": {\n    \"login\": \"Log in\"\n  },\n  \"slots\": {\n    \"table\": \"Table\"\n  }\n}\n";
    let out = insert_key_json(input, &["menu", "home"], "Home").unwrap();
    let expected = "{\n  \"auth\": {\n    \"login\": \"Log in\"\n  },\n  \"menu\": {\n    \"home\": \"Home\"\n  },\n  \"slots\": {\n    \"table\": \"Table\"\n  }\n}\n";
    assert_eq!(out, expected);
}

#[test]
fn creates_missing_branches() {
    let out = insert_key_json("{}\n", &["a", "b", "c"], "hello").unwrap();
    let expected = "{\n  \"a\": {\n    \"b\": {\n      \"c\": \"hello\"\n    }\n  }\n}\n";
    assert_eq!(out, expected);
}

#[test]
fn preserves_4_space_indent() {
    let out = insert_key_json("{\n    \"a\": \"1\"\n}\n", &["b"], "2").unwrap();
    assert_eq!(out, "{\n    \"a\": \"1\",\n    \"b\": \"2\"\n}\n");
}

#[test]
fn preserves_tab_indent() {
    let out = insert_key_json("{\n\t\"a\": \"1\"\n}\n", &["b"], "2").unwrap();
    assert_eq!(out, "{\n\t\"a\": \"1\",\n\t\"b\": \"2\"\n}\n");
}

#[test]
fn preserves_no_trailing_newline() {
    let out = insert_key_json("{\n  \"a\": \"1\"\n}", &["b"], "2").unwrap();
    assert_eq!(out, "{\n  \"a\": \"1\",\n  \"b\": \"2\"\n}");
}

#[test]
fn errors_on_key_already_exists() {
    let err = insert_key_json("{\"a\": \"1\"}", &["a"], "2").unwrap_err();
    assert!(matches!(err, MutationError::KeyAlreadyExists(ref p) if p == "a"));
}

#[test]
fn errors_on_path_collision_with_string() {
    let err = insert_key_json("{\"a\": \"1\"}", &["a", "b"], "2").unwrap_err();
    assert!(matches!(err, MutationError::PathCollision(_)));
}

#[test]
fn errors_on_empty_path() {
    let err = insert_key_json("{}", &[], "x").unwrap_err();
    assert!(matches!(err, MutationError::EmptyPath));
}

#[test]
fn errors_on_invalid_json() {
    let err = insert_key_json("not json", &["a"], "x").unwrap_err();
    assert!(matches!(err, MutationError::Parse(_)));
}

#[test]
fn non_ascii_values_are_not_escaped() {
    let out = insert_key_json("{\n  \"a\": \"1\"\n}\n", &["b"], "éléphant 🐘").unwrap();
    assert!(out.contains("éléphant 🐘"));
}

// The document model alone.

fn obj(fields: Vec<(&str, JsonValue)>) -> JsonValue {
    JsonValue::Object(fields.into_iter().map(|(k, v)| (k.to_string(), v)).collect())
}

fn s(x: &str) -> JsonValue {
    JsonValue::Str(x.to_string())
}

fn keys(v: &JsonValue) -> Vec<String> {
    match v {
        JsonValue::Object(fs) => fs.iter().map(|(k, _)| k.clone()).collect(),
        _ => Vec::new(),
    }
}

#[test]
fn collision_names_the_path_up_to_the_non_object() {
    let root = obj(vec![("a", obj(vec![("b", s("x"))]))]);
    let path: Vec<String> = ["a", "b", "c", "d"].iter().map(|x| x.to_string()).collect();
    match insert_into_value(root, &path, "v") {
        Err(MutationError::PathCollision(p)) => assert_eq!(p, "a.b.c"),
        other => panic!("unexpected {other:?}"),
    }
}

#[test]
fn ties_keep_the_new_key_before_an_equal_sibling_order() {
    // Ascending siblings with the new key smallest: it goes first.
    let root = obj(vec![("b", s("1")), ("c", s("2"))]);
    let out = insert_into_value(root, &["a".to_string()], "0").unwrap();
    assert_eq!(keys(&out), vec!["a", "b", "c"]);
    // Non-object root.
    let err = insert_into_value(JsonValue::Array(Vec::new()), &["a".to_string()], "0").unwrap_err();
    assert!(matches!(err, MutationError::PathCollision(ref p) if p == "a"));
}

fn segs(p: &[&str]) -> Vec<String> {
    p.iter().map(|s| s.to_string()).collect()
}

#[test]
fn inserted_value_reads_back_and_others_stay() {
    let doc = obj(vec![("a", obj(vec![("b", JsonValue::Str("x".into()))])), ("n", JsonValue::Number("1".into()))]);
    let out = insert_into_value(doc, &segs(&["a", "c"]), "y").unwrap();
    assert!(value_at_path_exists(&out, &segs(&["a", "c"])));
    let back = from_model(out);
    assert_eq!(back["a"]["c"], Value::String("y".into()));
    assert_eq!(back["a"]["b"], Value::String("x".into()));
    assert_eq!(back["n"], Value::from(1));
}

#[test]
fn inserting_where_something_is_refused() {
    let doc = obj(vec![("a", obj(vec![("b", JsonValue::Str("x".into()))]))]);
    match insert_into_value(doc, &segs(&["a"]), "y") {
        Err(MutationError::KeyAlreadyExists(p)) => assert_eq!(p, "a"),
        other => panic!("expected KeyAlreadyExists, got {other:?}"),
    }
}
