use i18n_core::{LocaleEntry, LocaleParser, ParseError, YamlParser, parse_with_extension};

fn entries(src: &str) -> Vec<LocaleEntry> {
    YamlParser.parse(src).expect("parse ok")
}

#[test]
fn flat_mapping() {
    let src = "hello: Hi\nbye: Bye\n";
    let e = entries(src);
    assert_eq!(e.len(), 2);
    assert_eq!(e[0].key_path, vec!["hello".to_string()]);
    assert_eq!(e[0].value, "Hi");
    assert_eq!(e[1].key_path, vec!["bye".to_string()]);
}

#[test]
fn nested_mapping() {
    let src = r#"
common:
  submit: Submit
  cancel: Cancel
"#;
    let e = entries(src);
    assert_eq!(e.len(), 2);
    assert_eq!(e[0].key_path, vec!["common".to_string(), "submit".to_string()]);
    assert_eq!(e[1].key_path, vec!["common".to_string(), "cancel".to_string()]);
}

#[test]
fn records_source_and_key_ranges() {
    let src = "hello: Hi\n";
    let e = entries(src);
    assert_eq!(&src[e[0].range.start.offset..e[0].range.end.offset], "Hi");
    assert_eq!(&src[e[0].key_range.start.offset..e[0].key_range.end.offset], "hello");
    assert!(e[0].key_range.end.offset <= e[0].range.start.offset);
}

#[test]
fn key_range_points_at_leaf_in_nested_mapping() {
    let src = "common:\n  submit: Submit\n";
    let e = entries(src);
    assert_eq!(&src[e[0].key_range.start.offset..e[0].key_range.end.offset], "submit");
}

#[test]
fn ignores_non_string_scalars_without_key() {
    let src = "42\n";
    let e = entries(src);
    assert!(e.is_empty());
}

#[test]
fn ignores_non_string_values() {
    let src = "count: 3\n";
    let e = entries(src);
    assert!(e.is_empty());
}

#[test]
fn quoted_keys_and_values() {
    let src = r#""hello": "Hi""#;
    let e = entries(src);
    assert_eq!(e.len(), 1);
    assert_eq!(e[0].value, "Hi");
}

#[test]
fn yaml_reports_syntax_errors() {
    let src = "hello: [\n";
    let err = YamlParser.parse(src).unwrap_err();
    assert!(matches!(err, ParseError::Syntax { .. }));
}

#[test]
fn quoted_numbers_are_strings() {
    let e = entries("count: \"3\"\nflag: 'true'\nnothing: ~\nempty:\n");
    assert_eq!(e.len(), 2);
    assert_eq!(e[0].key_path, vec!["count".to_string()]);
    assert_eq!(e[0].value, "3");
    assert_eq!(e[1].value, "true");
}

#[test]
fn sequences_and_non_string_keys_are_skipped() {
    let src = "list:\n  - a\n  - b\n1: one\n? [x]\n: y\nok: yes\n";
    let e = entries(src);
    assert_eq!(e.len(), 1);
    assert_eq!(e[0].key_path, vec!["ok".to_string()]);
    assert_eq!(e[0].value, "yes");
}

#[test]
fn alias_of_a_scalar_gives_its_text() {
    let src = "a: &x Hello\nb: *x\n";
    let e = entries(src);
    assert_eq!(e.len(), 2);
    assert_eq!(e[1].key_path, vec!["b".to_string()]);
    assert_eq!(e[1].value, "Hello");
    assert_eq!(&src[e[1].range.start.offset..e[1].range.end.offset], "*x");
}

#[test]
fn alias_of_a_mapping_gives_its_entries_under_the_new_key() {
    let src = "base: &b\n  title: Hello\n  body: World\npage: *b\n";
    let e = entries(src);
    let keys: Vec<String> = e.iter().map(|x| x.key_path.join(".")).collect();
    assert_eq!(keys, vec!["base.title", "base.body", "page.title", "page.body"]);
    assert_eq!(e[2].value, "Hello");
    assert_eq!(e[3].value, "World");
    // The copied entries keep the places of the anchored ones.
    assert_eq!(&src[e[2].range.start.offset..e[2].range.end.offset], "Hello");
    assert_eq!(&src[e[2].key_range.start.offset..e[2].key_range.end.offset], "title");
    assert_eq!(e[2].range, e[0].range);
}

#[test]
fn nested_aliases_of_mappings_expand_in_turn() {
    let src = "a: &a\n  x: X\nb: &b\n  inner: *a\n  y: Y\nc: *b\n";
    let e = entries(src);
    let keys: Vec<String> = e.iter().map(|x| x.key_path.join(".")).collect();
    assert_eq!(keys, vec!["a.x", "b.inner.x", "b.y", "c.inner.x", "c.y"]);
    assert_eq!(e[3].value, "X");
}

#[test]
fn duplicate_keys_are_a_syntax_error() {
    let err = YamlParser.parse("a: 1\na: 2\n").unwrap_err();
    assert!(matches!(err, ParseError::Syntax { .. }));
}

#[test]
fn multibyte_text_gets_byte_offsets() {
    let src = "clé: éléphant\nb: x\n";
    let e = entries(src);
    assert_eq!(&src[e[0].key_range.start.offset..e[0].key_range.end.offset], "clé");
    assert_eq!(&src[e[0].range.start.offset..e[0].range.end.offset], "éléphant");
    assert_eq!(&src[e[1].range.start.offset..e[1].range.end.offset], "x");
}

#[test]
fn several_documents_are_all_read() {
    let e = entries("a: A\n---\nb: B\n");
    assert_eq!(e.len(), 2);
    assert_eq!(e[1].key_path, vec!["b".to_string()]);
}

#[test]
fn extension_picks_the_yaml_parser() {
    let e = parse_with_extension("x: y\n", "/l/en.yml").unwrap();
    assert_eq!(e[0].value, "y");
    let e = parse_with_extension("x: y\n", "/l/en.yaml").unwrap();
    assert_eq!(e[0].value, "y");
    assert!(matches!(parse_with_extension("x", "/l/en.toml"), Err(ParseError::Unsupported(ref f)) if f == "toml"));
}
