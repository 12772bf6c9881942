use i18n_core::{escape_md, truncate_chars, ParsedValue};

#[test]
fn simple_value_has_one_form() {
    let p = ParsedValue::parse("Hello");
    assert_eq!(p.forms, vec!["Hello"]);
    assert!(!p.is_plural());
    assert!(!p.has_interpolation);
}

#[test]
fn detects_interpolation() {
    let p = ParsedValue::parse("Welcome, {name}!");
    assert!(p.has_interpolation);
    assert!(!p.is_plural());
}

#[test]
fn splits_vue_i18n_plural() {
    let p = ParsedValue::parse("no apples | one apple | {n} apples");
    assert_eq!(p.forms.len(), 3);
    assert_eq!(p.forms, vec!["no apples", "one apple", "{n} apples"]);
    assert!(p.is_plural());
}

#[test]
fn primary_form_prefers_singular() {
    let p = ParsedValue::parse("no apples | one apple | {n} apples");
    assert_eq!(p.primary_form(), "one apple");
    let p2 = ParsedValue::parse("item | items");
    assert_eq!(p2.primary_form(), "item");
    let p3 = ParsedValue::parse("Hello");
    assert_eq!(p3.primary_form(), "Hello");
}

#[test]
fn form_labels_follow_vue_convention() {
    let p = ParsedValue::parse("a | b | c");
    assert_eq!(p.form_label(0), "zero");
    assert_eq!(p.form_label(1), "one");
    assert_eq!(p.form_label(2), "other");
    let p2 = ParsedValue::parse("a | b");
    assert_eq!(p2.form_label(0), "one");
    assert_eq!(p2.form_label(1), "other");
}

#[test]
fn icu_values_are_not_split_on_pipe() {
    let src = "{count, plural, one {# item} other {# items | yes}}";
    let p = ParsedValue::parse(src);
    assert!(p.has_icu);
    assert!(!p.is_plural());
    assert_eq!(p.forms, vec![src]);
}

#[test]
fn truncate_preserves_short_strings() {
    assert_eq!(truncate_chars("hi", 10), "hi");
}

#[test]
fn truncate_appends_ellipsis() {
    assert_eq!(truncate_chars("hello world", 5), "hello…");
}

#[test]
fn truncate_handles_multibyte_chars() {
    assert_eq!(truncate_chars("héllo", 4), "héll…");
    assert_eq!(truncate_chars("😀😀😀😀", 2), "😀😀…");
}

#[test]
fn escape_md_escapes_markdown_specials() {
    assert_eq!(escape_md("a*b_c`d"), "a\\*b\\_c\\`d");
}

#[test]
fn escape_md_escapes_backslash() {
    assert_eq!(escape_md("a\\b"), "a\\\\b");
}

#[test]
fn trims_unicode_white_space_around_forms() {
    let p = ParsedValue::parse("\u{a0}one\t|\u{3000}two ");
    assert_eq!(p.forms, vec!["one", "two"]);
}

#[test]
fn form_label_out_of_convention_is_form() {
    let p = ParsedValue::parse("a | b | c | d");
    assert_eq!(p.form_label(0), "form");
    assert_eq!(p.primary_form(), "b");
}

#[test]
fn selectordinal_counts_as_icu() {
    let p = ParsedValue::parse("{n, selectordinal, one {#st} other {#th}}");
    assert!(p.has_icu);
}
