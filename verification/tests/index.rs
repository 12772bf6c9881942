use i18n_core::{
    IndexBuilder, KeyTree, Locale, LocaleIndex, LocalizedValue, ProjectConfig, Range, SourceFile, UsageIndex,
};

fn value(text: &str) -> LocalizedValue {
    LocalizedValue {
        value: text.to_string(),
        file: "/tmp/en.json".to_string(),
        range: Range::default(),
        key_range: Range::default(),
    }
}

fn path(segs: &[&str]) -> Vec<String> {
    segs.iter().map(|s| s.to_string()).collect()
}

fn source(dir: &str, path: &str, content: &str) -> SourceFile {
    SourceFile { dir: dir.to_string(), path: path.to_string(), content: content.to_string() }
}

#[test]
fn tree_insert_and_lookup() {
    let mut t = KeyTree::new();
    t.insert(&path(&["a", "b"]), value("AB"));
    t.insert(&path(&["a", "c"]), value("AC"));
    assert_eq!(t.lookup(&path(&["a", "b"])).unwrap().value, "AB");
    assert_eq!(t.lookup(&path(&["a", "c"])).unwrap().value, "AC");
    assert!(t.lookup(&path(&["a"])).is_none());
}

#[test]
fn index_missing_keys() {
    let mut idx = LocaleIndex::default();
    idx.source_locale = Locale::new("en");

    let mut en = KeyTree::new();
    en.insert(&path(&["hello"]), value("Hi"));
    en.insert(&path(&["bye"]), value("Bye"));

    let mut fr = KeyTree::new();
    fr.insert(&path(&["hello"]), value("Salut"));

    idx.trees.insert(Locale::new("en"), en);
    idx.trees.insert(Locale::new("fr"), fr);

    let missing = idx.missing_keys(&Locale::new("fr"));
    assert_eq!(missing, vec!["bye".to_string()]);
}

#[test]
fn index_all_keys_union() {
    let mut idx = LocaleIndex::default();
    let mut en = KeyTree::new();
    en.insert(&path(&["a", "b"]), value("1"));
    let mut fr = KeyTree::new();
    fr.insert(&path(&["a", "c"]), value("2"));
    idx.trees.insert(Locale::new("en"), en);
    idx.trees.insert(Locale::new("fr"), fr);

    assert_eq!(idx.all_keys(), vec!["a.b".to_string(), "a.c".to_string()]);
}

#[test]
fn index_unused_keys_filters_against_usage_index() {
    let mut idx = LocaleIndex::default();
    let mut en = KeyTree::new();
    en.insert(&path(&["used"]), value("U"));
    en.insert(&path(&["dead"]), value("D"));
    idx.trees.insert(Locale::new("en"), en);

    let mut usages = UsageIndex::new();
    usages.update_file("/x.ts", r#"t("used");"#, "TypeScript");

    assert_eq!(idx.unused_keys(&usages), vec!["dead".to_string()]);
}

#[test]
fn index_entries_by_file_groups_leaves() {
    let mut idx = LocaleIndex::default();

    let en_value = LocalizedValue {
        value: "Hi".into(),
        file: "/en.json".to_string(),
        range: Range::default(),
        key_range: Range::default(),
    };
    let fr_value = LocalizedValue {
        value: "Salut".into(),
        file: "/fr.json".to_string(),
        range: Range::default(),
        key_range: Range::default(),
    };

    let mut en = KeyTree::new();
    en.insert(&path(&["hello"]), en_value);
    let mut fr = KeyTree::new();
    fr.insert(&path(&["hello"]), fr_value);
    idx.trees.insert(Locale::new("en"), en);
    idx.trees.insert(Locale::new("fr"), fr);

    let by_file = idx.entries_by_file();
    assert_eq!(by_file.len(), 2);
    let group = |f: &str| by_file.iter().find(|(p, _)| p == f).map(|(_, es)| es).unwrap();
    assert_eq!(group("/en.json")[0].0, "hello");
    assert_eq!(group("/fr.json")[0].0, "hello");
}

fn flat_two_file_index(en: &str, fr: Option<&str>) -> LocaleIndex {
    let config = ProjectConfig {
        source_locale: Some("en".into()),
        locale_paths: vec![".".into()],
        ..ProjectConfig::default()
    };
    // The locale path `.` names the workspace itself: `/w/.`.
    let mut sources = vec![source("/w/.", "/w/./en.json", en)];
    if let Some(fr) = fr {
        sources.push(source("/w/.", "/w/./fr.json", fr));
    }
    IndexBuilder::new("/w", &config).build(&sources).unwrap()
}

#[test]
fn update_file_from_buffer_replaces_leaves_and_refreshes_missing_keys() {
    let mut idx = flat_two_file_index(
        r#"{"common":{"submit":"Submit","cancel":"Cancel"}}"#,
        Some(r#"{"common":{"submit":"Envoyer"}}"#),
    );

    let fr = Locale::new("fr");
    assert!(idx.missing_keys(&fr).iter().any(|k| k == "common.cancel"));

    let changed = idx
        .update_file_from_buffer("/w/./fr.json", r#"{"common":{"submit":"Envoyer","cancel":"Annuler"}}"#)
        .unwrap();
    assert!(changed);

    assert!(!idx.missing_keys(&fr).iter().any(|k| k == "common.cancel"));

    let values = idx.lookup("common.cancel");
    assert_eq!(values.get(&fr).map(|v| v.value.as_str()), Some("Annuler"));
}

#[test]
fn update_file_from_buffer_prunes_deleted_keys() {
    let mut idx = flat_two_file_index(r#"{"a":"A","b":"B"}"#, None);
    assert!(idx.lookup("a").contains_key(&Locale::new("en")));

    idx.update_file_from_buffer("/w/./en.json", r#"{"b":"B"}"#).unwrap();
    assert!(idx.lookup("a").is_empty(), "deleted key should vanish");
    assert!(idx.lookup("b").contains_key(&Locale::new("en")));
}

#[test]
fn update_file_from_buffer_is_noop_for_unknown_path() {
    let mut idx = LocaleIndex::default();
    let changed = idx.update_file_from_buffer("/nope/en.json", r#"{"a":"1"}"#).unwrap();
    assert!(!changed);
}

#[test]
fn update_file_from_buffer_propagates_parse_errors() {
    let mut idx = flat_two_file_index(r#"{"a":"A"}"#, None);

    let err = idx.update_file_from_buffer("/w/./en.json", r#"{"a": "#);
    assert!(err.is_err());
    assert_eq!(idx.lookup("a").get(&Locale::new("en")).unwrap().value, "A");
}

#[test]
fn update_file_from_buffer_reports_no_change_for_empty_file_without_leaves() {
    let mut idx = flat_two_file_index(r#"{}"#, Some(r#"{"x":"X"}"#));
    let changed = idx.update_file_from_buffer("/w/./en.json", "{}").unwrap();
    assert!(!changed);
}
