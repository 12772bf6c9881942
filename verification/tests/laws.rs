//! Concrete instances of the laws the library proves.

use i18n_core::{find_usages, resolve_value, KeyTree, Locale, LocaleIndex, LocalizedValue, ParsedValue, Range, ResolvedValue};

fn at(text: &str, file: &str) -> LocalizedValue {
    LocalizedValue { value: text.to_string(), file: file.to_string(), range: Range::default(), key_range: Range::default() }
}

fn segs(p: &[&str]) -> Vec<String> {
    p.iter().map(|s| s.to_string()).collect()
}

#[test]
fn link_chain_starts_at_target_and_repeats_nothing() {
    let mut t = KeyTree::new();
    t.insert(&segs(&["a"]), at("@:b", "/fr.json"));
    t.insert(&segs(&["b"]), at("@:c", "/fr.json"));
    t.insert(&segs(&["c"]), at("end", "/fr.json"));
    let mut idx = LocaleIndex { source_locale: Locale::new("fr"), ..LocaleIndex::default() };
    idx.trees.insert(Locale::new("fr"), t);
    match resolve_value(&idx, &Locale::new("fr"), "@:a") {
        ResolvedValue::Linked { chain, target_key, display, .. } => {
            assert_eq!(chain, vec!["a".to_string(), "b".to_string(), "c".to_string()]);
            assert_eq!(target_key, chain[0]);
            assert_eq!(display, "end");
        }
        other => panic!("expected Linked, got {other:?}"),
    }
    // No link: the value itself.
    assert!(matches!(resolve_value(&idx, &Locale::new("fr"), "plain"), ResolvedValue::Literal { text: "plain" }));
}

#[test]
fn plural_value_has_a_bar_and_no_icu() {
    let p = ParsedValue::parse("no apple | one apple | {n} apples");
    assert!(p.is_plural());
    assert!(!p.has_icu);
    assert!(p.raw.contains('|'));
    let icu = ParsedValue::parse("{n, plural, one {# a|b} other {# c}}");
    assert!(icu.has_icu);
    assert!(!icu.is_plural());
}

#[test]
fn entries_for_file_is_the_group_of_entries_by_file() {
    let mut en = KeyTree::new();
    en.insert(&segs(&["a"]), at("A", "/l/en/one.json"));
    en.insert(&segs(&["b"]), at("B", "/l/en/two.json"));
    en.insert(&segs(&["c", "d"]), at("D", "/l/en/one.json"));
    let mut idx = LocaleIndex { source_locale: Locale::new("en"), ..LocaleIndex::default() };
    idx.trees.insert(Locale::new("en"), en);
    let by_file = idx.entries_by_file();
    for (file, group) in &by_file {
        let direct = idx.entries_for_file(file);
        let a: Vec<(String, String)> = group.iter().map(|(k, v)| (k.clone(), v.value.clone())).collect();
        let b: Vec<(String, String)> = direct.iter().map(|(k, v)| (k.clone(), v.value.clone())).collect();
        assert_eq!(a, b);
    }
    let one: Vec<String> = idx.entries_for_file("/l/en/one.json").iter().map(|(k, _)| k.clone()).collect();
    assert_eq!(one, vec!["a".to_string(), "c.d".to_string()]);
    assert!(idx.entries_for_file("/l/en/none.json").is_empty());
    assert!(by_file.iter().all(|(f, _)| f != "/l/en/none.json"));
}

#[test]
fn missing_keys_lists_each_disagreement_once() {
    let mut en = KeyTree::new();
    en.insert(&segs(&["a"]), at("A", "/en.json"));
    en.insert(&segs(&["b", "x"]), at("BX", "/en.json"));
    en.insert(&segs(&["b", "y"]), at("BY", "/en.json"));
    en.insert(&segs(&["c", "z"]), at("CZ", "/en.json"));
    en.insert(&segs(&["d"]), at("D", "/en.json"));
    let mut fr = KeyTree::new();
    fr.insert(&segs(&["a"]), at("A", "/fr.json"));
    fr.insert(&segs(&["b", "x"]), at("BX", "/fr.json"));
    fr.insert(&segs(&["c"]), at("C", "/fr.json"));
    fr.insert(&segs(&["d", "w"]), at("DW", "/fr.json"));
    let mut idx = LocaleIndex { source_locale: Locale::new("en"), ..LocaleIndex::default() };
    idx.trees.insert(Locale::new("en"), en);
    idx.trees.insert(Locale::new("fr"), fr);
    // `b.y` is absent, `c` is a leaf where the source has a branch, `d` is a
    // branch where the source has a leaf; `a` and `b.x` are leaves in both.
    assert_eq!(idx.missing_keys(&Locale::new("fr")), vec!["b.y".to_string(), "c".to_string(), "d".to_string()]);
    assert!(idx.missing_keys(&Locale::new("en")).is_empty());
}

#[test]
fn usage_key_is_the_source_text_at_its_range() {
    let src = "// café 🍰\nconst { t } = useI18n();\nt('nav.home'); t(\"menu.ok\");";
    let usages = find_usages(src, "TypeScript");
    assert!(!usages.is_empty());
    for u in &usages {
        let slice = &src[u.range.start.offset as usize..u.range.end.offset as usize];
        match &u.scope {
            Some(ns) => assert_eq!(u.key, format!("{ns}.{slice}")),
            None => assert_eq!(u.key, slice),
        }
    }
    assert!(usages.iter().any(|u| u.key == "nav.home"));
    assert!(usages.iter().any(|u| u.key == "menu.ok"));
}

#[test]
fn update_file_records_the_keys_a_usage_scan_finds() {
    let src = "t('a.b'); t('c.d'); t('a.b');";
    let mut idx = i18n_core::UsageIndex::new();
    idx.update_file("/x.ts", src, "TypeScript");
    let mut found: Vec<String> = find_usages(src, "TypeScript").into_iter().map(|u| u.key).collect();
    found.sort();
    found.dedup();
    for k in &found {
        assert!(idx.is_key_used(k));
    }
    assert_eq!(found, vec!["a.b".to_string(), "c.d".to_string()]);
    assert_eq!(idx.total_usages(), found.len());
    idx.update_file("/x.ts", "t('e.f');", "TypeScript");
    assert!(!idx.is_key_used("a.b"));
    assert!(idx.is_key_used("e.f"));
    assert_eq!(idx.file_count(), 1);
}
