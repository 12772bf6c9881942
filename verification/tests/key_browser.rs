use i18n_core::key_browser::{
    fill_from_source, key_matches_search, key_status, locale_drafts, KeyStatus, missing_key_set, project_label, short_key_label, subtree_matches_search, KeyTreeRoot,
};
use i18n_core::{KeyTree, Locale, LocaleIndex, LocalizedValue, Range};

fn value(text: &str) -> LocalizedValue {
    LocalizedValue { value: text.to_string(), file: "/en.json".to_string(), range: Range::default(), key_range: Range::default() }
}

fn tree(keys: &[&str]) -> KeyTree {
    let mut t = KeyTree::new();
    for k in keys {
        let p: Vec<String> = k.split('.').map(|s| s.to_string()).collect();
        t.insert(&p, value(k));
    }
    t
}

fn index() -> LocaleIndex {
    let mut idx = LocaleIndex::default();
    idx.source_locale = Locale::new("en");
    idx.trees.insert(Locale::new("en"), tree(&["common.submit", "common.cancel", "home.title", "about"]));
    idx.trees.insert(Locale::new("fr"), tree(&["common.submit", "about"]));
    idx.trees.insert(Locale::new("de"), tree(&["common.cancel", "about", "extra.x.y"]));
    idx
}

#[test]
fn from_index_nests_keys_in_order() {
    let root = KeyTreeRoot::from_index(&index());
    let names: Vec<&str> = root.children.iter().map(|(n, _)| n.as_str()).collect();
    assert_eq!(names, vec!["about", "common", "extra", "home"]);
    let (_, about) = &root.children[0];
    assert_eq!(about.leaf_key.as_deref(), Some("about"));
    assert!(about.children.is_empty());
    let (_, common) = &root.children[1];
    assert!(common.leaf_key.is_none());
    let subs: Vec<(&str, Option<&str>)> =
        common.children.iter().map(|(n, c)| (n.as_str(), c.leaf_key.as_deref())).collect();
    assert_eq!(subs, vec![("cancel", Some("common.cancel")), ("submit", Some("common.submit"))]);
}

#[test]
fn branch_paths_list_branches_depth_first() {
    let root = KeyTreeRoot::from_index(&index());
    assert_eq!(root.branch_paths(), vec!["common", "extra", "extra.x", "home"]);
}

#[test]
fn missing_key_set_unites_target_locales() {
    let missing = missing_key_set(&index());
    assert_eq!(missing, vec!["common.cancel".to_string(), "common.submit".to_string(), "home.title".to_string()]);
}

#[test]
fn search_matches_lowercased_keys() {
    assert!(key_matches_search("Common.Submit", "submit"));
    assert!(!key_matches_search("common.submit", "xyz"));
    assert!(key_matches_search("x", ""));
}

#[test]
fn subtree_search_looks_below_branches() {
    let root = KeyTreeRoot::from_index(&index());
    let (_, common) = &root.children[1];
    let (_, home) = &root.children[3];
    assert!(subtree_matches_search(common, "cancel"));
    assert!(!subtree_matches_search(home, "cancel"));
    assert!(subtree_matches_search(home, "home.t"));
}

#[test]
fn short_label_is_last_segment() {
    assert_eq!(short_key_label("a.b.c"), "c");
    assert_eq!(short_key_label("abc"), "abc");
    assert_eq!(short_key_label("a."), "");
}

#[test]
fn drafts_cover_every_locale() {
    let drafts = locale_drafts(&index(), "common.submit");
    let got: Vec<(&str, &str, bool)> = drafts.iter().map(|(l, t, m)| (l.as_str(), t.as_str(), *m)).collect();
    assert_eq!(got, vec![("de", "", true), ("en", "common.submit", false), ("fr", "common.submit", false)]);
}

#[test]
fn project_label_is_last_component() {
    assert_eq!(project_label("/home/me/shop"), "shop");
    assert_eq!(project_label("/home/me/shop/"), "shop");
    assert_eq!(project_label("/"), "/");
    assert_eq!(project_label("a/.."), "a/..");
}

#[test]
fn key_status_prefers_missing() {
    let missing = vec!["a".to_string(), "b".to_string()];
    let unused = vec!["b".to_string(), "c".to_string()];
    assert_eq!(key_status("b", &missing, &unused), KeyStatus::Missing);
    assert_eq!(key_status("c", &missing, &unused), KeyStatus::Unused);
    assert_eq!(key_status("d", &missing, &unused), KeyStatus::Complete);
}

#[test]
fn fill_from_source_targets_missing_drafts() {
    let idx = index();
    let drafts = locale_drafts(&idx, "common.cancel");
    let (value, locales) = fill_from_source(&idx, "common.cancel", &drafts).unwrap();
    assert_eq!(value, "common.cancel");
    let names: Vec<&str> = locales.iter().map(|l| l.as_str()).collect();
    assert_eq!(names, vec!["fr"]);
    let drafts = locale_drafts(&idx, "extra.x.y");
    assert_eq!(fill_from_source(&idx, "extra.x.y", &drafts).unwrap_err(), "No value in source locale");
}
