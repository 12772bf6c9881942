use i18n_core::scan::{is_excluded_dir, language_id_for};
use i18n_core::UsageIndex;

#[test]
fn update_file_collects_literal_keys_from_vue() {
    let mut idx = UsageIndex::new();
    idx.update_file("/x.vue", r#"<template>{{ $t("common.submit") }}{{ $t("common.cancel") }}</template>"#, "Vue.js");
    let used = idx.used_keys();
    assert!(used.iter().any(|k| k == "common.submit"));
    assert!(used.iter().any(|k| k == "common.cancel"));
    assert_eq!(idx.file_count(), 1);
    assert_eq!(idx.total_usages(), 2);
}

#[test]
fn update_file_with_no_usages_drops_entry() {
    let mut idx = UsageIndex::new();
    idx.update_file("/a.ts", r#"const x = format("hello");"#, "TypeScript");
    assert_eq!(idx.file_count(), 0);
}

#[test]
fn update_file_replaces_previous_keys() {
    let mut idx = UsageIndex::new();
    idx.update_file("/a.ts", r#"t("a.b");"#, "TypeScript");
    idx.update_file("/a.ts", r#"t("c.d");"#, "TypeScript");
    assert!(!idx.is_key_used("a.b"));
    assert!(idx.is_key_used("c.d"));
}

#[test]
fn remove_file_drops_keys() {
    let mut idx = UsageIndex::new();
    idx.update_file("/a.ts", r#"t("a.b");"#, "TypeScript");
    assert!(idx.is_key_used("a.b"));
    idx.remove_file("/a.ts");
    assert!(!idx.is_key_used("a.b"));
}

#[test]
fn used_keys_are_sorted_and_unique_across_files() {
    let mut idx = UsageIndex::new();
    idx.update_file("/a.ts", r#"t("z"); t("m"); t("z")"#, "TypeScript");
    idx.update_file("/b.ts", r#"t("a"); t("m")"#, "TypeScript");
    assert_eq!(idx.used_keys(), vec!["a".to_string(), "m".to_string(), "z".to_string()]);
    assert_eq!(idx.total_usages(), 4);
    assert_eq!(idx.file_count(), 2);
}

#[test]
fn languages_and_excluded_dirs() {
    assert_eq!(language_id_for("/src/App.vue"), Some("Vue.js"));
    assert_eq!(language_id_for("/src/a.mts"), Some("TypeScript"));
    assert_eq!(language_id_for("/src/a.md"), None);
    assert!(is_excluded_dir("/w/node_modules"));
    assert!(!is_excluded_dir("/w/src"));
}
