use i18n_core::detect_indent;
use i18n_core::mutation::sorted_insert_position;

#[test]
fn detect_indent_two_spaces() {
    let s = "{\n  \"a\": 1\n}";
    assert_eq!(detect_indent(s), "  ");
}

#[test]
fn detect_indent_four_spaces() {
    let s = "{\n    \"a\": 1\n}";
    assert_eq!(detect_indent(s), "    ");
}

#[test]
fn detect_indent_tab() {
    let s = "{\n\t\"a\": 1\n}";
    assert_eq!(detect_indent(s), "\t");
}

#[test]
fn detect_indent_falls_back_to_two_spaces() {
    assert_eq!(detect_indent("{}"), "  ");
    assert_eq!(detect_indent("{\"a\":1}"), "  ");
}

#[test]
fn detect_indent_skips_closing_brace_lines() {
    assert_eq!(detect_indent("{\n\"a\": {\n   }\n    \"b\": 1\n}"), "    ");
}

#[test]
fn sorted_siblings_get_alphabetical_position() {
    let keys = vec!["a".to_string(), "c".to_string()];
    assert_eq!(sorted_insert_position(&keys, "b"), 1);
    assert_eq!(sorted_insert_position(&keys, "d"), 2);
}

#[test]
fn unsorted_siblings_append_at_end() {
    let keys = vec!["z".to_string(), "a".to_string()];
    assert_eq!(sorted_insert_position(&keys, "b"), 2);
}
