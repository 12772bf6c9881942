use i18n_core::find_usages;
use i18n_core::framework::{builtin_frameworks, scopes_from_groups, usages_from_groups};
use i18n_core::LineIndex;

#[test]
fn vue_i18n_detects_dollar_t() {
    let src = r#"<template><button>{{ $t("common.submit") }}</button></template>"#;
    let usages = find_usages(src, "Vue.js");
    assert_eq!(usages.len(), 1);
    assert_eq!(usages[0].key, "common.submit");
    assert_eq!(usages[0].framework_id, "vue-i18n");
}

#[test]
fn vue_i18n_detects_composition_t() {
    let src = r#"const greeting = t("hello.world");"#;
    let usages = find_usages(src, "TypeScript");
    assert!(usages.iter().any(|u| u.key == "hello.world"));
}

#[test]
fn vue_i18n_detects_keypath_attribute() {
    let src = r#"<i18n-t keypath="actions.save" :tag="false" />"#;
    let usages = find_usages(src, "Vue.js");
    assert!(usages.iter().any(|u| u.key == "actions.save"));
}

#[test]
fn i18next_detects_trans_component() {
    let src = r#"<Trans i18nKey="welcome.message">Welcome!</Trans>"#;
    let usages = find_usages(src, "TSX");
    assert!(usages.iter().any(|u| u.key == "welcome.message"));
}

#[test]
fn i18next_scope_from_use_translation() {
    let src = r#"
            const { t } = useTranslation('forms');
            const label = t('submit');
        "#;
    let usages = find_usages(src, "TypeScript");
    let submit = usages.iter().find(|u| u.key.ends_with("submit")).expect("submit usage");
    assert_eq!(submit.key, "forms.submit");
    assert_eq!(submit.scope.as_deref(), Some("forms"));
}

#[test]
fn react_intl_detects_format_message() {
    let src = r#"intl.formatMessage({ id: "greeting.hello" })"#;
    let usages = find_usages(src, "TSX");
    assert!(usages.iter().any(|u| u.key == "greeting.hello"));
}

#[test]
fn react_intl_detects_formatted_message() {
    let src = r#"<FormattedMessage id="greeting.hello" defaultMessage="Hi" />"#;
    let usages = find_usages(src, "TSX");
    assert!(usages.iter().any(|u| u.key == "greeting.hello"));
}

#[test]
fn ignores_unrelated_function_calls() {
    let src = r#"const x = toString(other); const y = format("not a key");"#;
    let usages = find_usages(src, "TypeScript");
    assert_eq!(usages, vec![]);
}

#[test]
fn records_precise_key_range() {
    let src = r#"t("abc.def")"#;
    let usages = find_usages(src, "TypeScript");
    let u = &usages[0];
    assert_eq!(&src[u.range.start.offset..u.range.end.offset], "abc.def");
}

#[test]
fn skips_frameworks_for_unknown_language() {
    let src = r#"t("key.value")"#;
    let usages = find_usages(src, "Python");
    assert_eq!(usages, vec![]);
}

#[test]
fn usages_are_merged_and_ordered_by_range() {
    let src = r#"$t("b.key"); $t("a.key")"#;
    let usages = find_usages(src, "Vue.js");
    assert_eq!(usages.len(), 2);
    assert_eq!(usages[0].key, "b.key");
    assert_eq!(usages[1].key, "a.key");
    assert!(usages[0].range.start.offset < usages[1].range.start.offset);
    assert_eq!(usages[0].framework_id, "vue-i18n");
}

#[test]
fn usage_range_counts_utf16_columns() {
    let src = "😀 $t(\"k\")";
    let usages = find_usages(src, "Vue.js");
    assert_eq!(usages.len(), 1);
    assert_eq!(usages[0].range.start.offset, 9);
    assert_eq!(usages[0].range.start.character, 7);
}

#[test]
fn framework_applies_to_its_languages() {
    let fs = builtin_frameworks();
    assert_eq!(fs.len(), 4);
    assert!(fs[0].applies_to("Vue.js"));
    assert!(!fs[3].applies_to("Vue.js"));
    assert!(fs[2].applies_to("HTML"));
}

#[test]
fn usages_from_groups_apply_nearest_scope() {
    let text = r#"useTranslation("ns"); t("home.title"); t("x")"#;
    let lines = LineIndex::new(text);
    let groups = vec![Some((25, 35, "home.title".to_string())), None, Some((42, 43, "x".to_string()))];
    let scopes = vec![(16, "ns".to_string()), (30, "other".to_string())];
    let us = usages_from_groups(&lines, &groups, &scopes, "i18next");
    assert_eq!(us.len(), 2);
    assert_eq!(us[0].key, "ns.home.title");
    assert_eq!(us[0].scope.as_deref(), Some("ns"));
    assert_eq!(us[0].range.start.offset, 25);
    assert_eq!(us[0].range.end.offset, 35);
    assert_eq!(us[0].framework_id, "i18next");
    assert_eq!(us[1].key, "other.x");
}

#[test]
fn scopes_from_groups_keep_present_groups() {
    let groups = vec![Some((5, 9, "ab".to_string())), None, Some((12, 13, "c".to_string()))];
    assert_eq!(scopes_from_groups(&groups), vec![(5, "ab".to_string()), (12, "c".to_string())]);
}
