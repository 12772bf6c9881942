use i18n_core::{build_document_symbol_tree, LocalizedValue, Position, Range};

fn pos(off: usize) -> Position {
    Position { line: 0, character: off as u32, offset: off }
}

fn leaf(value: &str, key_off: usize, val_off: usize) -> LocalizedValue {
    LocalizedValue {
        value: value.to_string(),
        file: "/en.json".to_string(),
        key_range: Range { start: pos(key_off), end: pos(key_off + 3) },
        range: Range { start: pos(val_off), end: pos(val_off + value.len()) },
    }
}

#[test]
fn builds_nested_tree() {
    let a = leaf("Hi", 1, 10);
    let b = leaf("Bye", 20, 30);
    let entries = vec![("hello".to_string(), &a), ("common.submit".to_string(), &b)];
    let tree = build_document_symbol_tree(&entries);
    assert_eq!(tree.len(), 2);
    assert_eq!(tree[0].name, "common");
    assert_eq!(tree[0].children.len(), 1);
    assert_eq!(tree[0].children[0].name, "submit");
    assert_eq!(tree[1].name, "hello");
    assert_eq!(tree[1].detail.as_deref(), Some("Hi"));
}

#[test]
fn branch_ranges_span_their_children() {
    let a = leaf("A", 5, 10);
    let b = leaf("B", 20, 30);
    let entries = vec![("g.a".to_string(), &a), ("g.b".to_string(), &b)];
    let tree = build_document_symbol_tree(&entries);
    assert_eq!(tree.len(), 1);
    let g = &tree[0];
    assert!(g.detail.is_none());
    // A branch without a value of its own starts from offset 0.
    assert_eq!(g.key_range.start.offset, 0);
    assert_eq!(g.key_range.end.offset, 23);
    assert_eq!(g.range.end.offset, 31);
    assert_eq!(g.children[0].name, "a");
    assert_eq!(g.children[1].range.start.offset, 30);
}

#[test]
fn long_values_are_previewed_with_an_ellipsis() {
    let long = "x".repeat(60);
    let a = leaf(&long, 0, 5);
    let entries = vec![("k".to_string(), &a)];
    let tree = build_document_symbol_tree(&entries);
    let d = tree[0].detail.as_ref().unwrap();
    assert_eq!(d.chars().count(), 49);
    assert!(d.ends_with('…'));
}

#[test]
fn later_value_of_the_same_key_wins_and_keys_merge() {
    let a = leaf("first", 0, 5);
    let b = leaf("second", 10, 15);
    let c = leaf("child", 20, 25);
    let entries = vec![("k".to_string(), &a), ("k".to_string(), &b), ("k.sub".to_string(), &c)];
    let tree = build_document_symbol_tree(&entries);
    assert_eq!(tree.len(), 1);
    assert_eq!(tree[0].detail.as_deref(), Some("second"));
    assert_eq!(tree[0].children.len(), 1);
    assert_eq!(tree[0].key_range.start.offset, 10);
    assert_eq!(tree[0].key_range.end.offset, 23);
}
