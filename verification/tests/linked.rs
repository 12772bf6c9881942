use i18n_core::{apply_modifier, parse_linked_message, resolve_value, IndexBuilder, KeyTree, Locale, LocaleIndex,
    LocalizedValue, ProjectConfig, Range, ResolvedValue, SourceFile};

fn fr_value(text: &str) -> LocalizedValue {
    LocalizedValue { value: text.to_string(), file: "/fr.json".to_string(), range: Range::default(), key_range: Range::default() }
}

#[test]
fn parses_colon_link() {
    let l = parse_linked_message("@:global.providers.payfip").unwrap();
    assert_eq!(l.target_key, "global.providers.payfip");
    assert_eq!(l.modifier, None);
}

#[test]
fn parses_modifier_link() {
    let l = parse_linked_message("@.lower:common.greeting").unwrap();
    assert_eq!(l.target_key, "common.greeting");
    assert_eq!(l.modifier, Some("lower"));
}

#[test]
fn rejects_non_links() {
    assert!(parse_linked_message("plain").is_none());
    assert!(parse_linked_message("@:   ").is_none());
    assert!(parse_linked_message("@.upper").is_none());
    assert!(parse_linked_message("@x").is_none());
    let l = parse_linked_message("  @. upper : a.b ").unwrap();
    assert_eq!(l.target_key, "a.b");
    assert_eq!(l.modifier, Some("upper"));
}

#[test]
fn modifiers_change_case() {
    assert_eq!(apply_modifier("HeLLo", Some("lower")), "hello");
    assert_eq!(apply_modifier("HeLLo", Some("uppercase")), "HELLO");
    assert_eq!(apply_modifier("élan", Some("capitalize")), "Élan");
    assert_eq!(apply_modifier("x", Some("unknown")), "x");
    assert_eq!(apply_modifier("x", None), "x");
}

fn fr_index(entries: &[(&[&str], &str)]) -> LocaleIndex {
    let mut fr = KeyTree::new();
    for (path, value) in entries {
        let p: Vec<String> = path.iter().map(|s| s.to_string()).collect();
        fr.insert(&p, fr_value(value));
    }
    let mut idx = LocaleIndex { source_locale: Locale::new("fr"), ..LocaleIndex::default() };
    idx.trees.insert(Locale::new("fr"), fr);
    idx
}

#[test]
fn resolves_linked_chain() {
    let idx = fr_index(&[
        (&["global", "providers", "payfip"], "PayFiP"),
        (&["global", "payfip"], "@:global.providers.payfip"),
    ]);
    match resolve_value(&idx, &Locale::new("fr"), "@:global.providers.payfip") {
        ResolvedValue::Linked { display, target_key, .. } => {
            assert_eq!(target_key, "global.providers.payfip");
            assert_eq!(display, "PayFiP");
        }
        other => panic!("expected Linked, got {other:?}"),
    }
    match resolve_value(&idx, &Locale::new("fr"), "@:global.payfip") {
        ResolvedValue::Linked { display, chain, .. } => {
            assert_eq!(display, "PayFiP");
            assert!(chain.len() >= 2);
        }
        other => panic!("expected Linked, got {other:?}"),
    }
}

#[test]
fn applies_modifier_after_link_chain() {
    let idx = fr_index(&[(&["common", "greeting"], "HELLO"), (&["title"], "@.lower:common.greeting")]);
    match resolve_value(&idx, &Locale::new("fr"), "@.lower:common.greeting") {
        ResolvedValue::Linked { display, .. } => assert_eq!(display, "hello"),
        other => panic!("expected Linked, got {other:?}"),
    }
}

#[test]
fn detects_broken_link() {
    let idx = LocaleIndex::default();
    match resolve_value(&idx, &Locale::new("fr"), "@:missing.key") {
        ResolvedValue::Broken { .. } => {}
        other => panic!("expected Broken, got {other:?}"),
    }
}

#[test]
fn detects_circular_link() {
    let idx = fr_index(&[(&["a"], "@:b"), (&["b"], "@:a")]);
    match resolve_value(&idx, &Locale::new("fr"), "@:a") {
        ResolvedValue::Broken { target_key, reason } => {
            assert_eq!(target_key, "a");
            assert_eq!(reason, "circular link");
        }
        other => panic!("expected Broken, got {other:?}"),
    }
    assert_eq!(idx.display_for_locale(&Locale::new("fr"), "@:a"), "⛔ circular link: `a`");
}

#[test]
fn literal_values_resolve_to_themselves() {
    let idx = LocaleIndex::default();
    match resolve_value(&idx, &Locale::new("fr"), "plain text") {
        ResolvedValue::Literal { text } => assert_eq!(text, "plain text"),
        other => panic!("expected Literal, got {other:?}"),
    }
}

#[test]
fn keys_linking_to_finds_aliases() {
    let config = ProjectConfig {
        locale_paths: vec!["locales".into()],
        namespace: Some(false),
        source_locale: Some("fr".into()),
        ..ProjectConfig::default()
    };
    let sources = vec![SourceFile {
        dir: "/ws/locales".into(),
        path: "/ws/locales/fr/global.json".into(),
        content: r#"{"global":{"providers":{"payfip":"PayFiP"},"payfip":"@:global.providers.payfip"}}"#.into(),
    }];
    let idx = IndexBuilder::new("/ws", &config).build(&sources).unwrap();
    let links = idx.keys_linking_to("global.providers.payfip");
    assert!(links.iter().any(|k| k == "global.payfip"));
}

fn chain_index(links: usize) -> LocaleIndex {
    let names: Vec<String> = (0..=links).map(|i| format!("k{i}")).collect();
    let mut entries: Vec<(Vec<String>, String)> = Vec::new();
    for i in 1..links {
        entries.push((vec![names[i].clone()], format!("@:{}", names[i + 1])));
    }
    entries.push((vec![names[links].clone()], "end".to_string()));
    let mut fr = KeyTree::new();
    for (p, v) in &entries {
        fr.insert(p, fr_value(v));
    }
    let mut idx = LocaleIndex { source_locale: Locale::new("fr"), ..LocaleIndex::default() };
    idx.trees.insert(Locale::new("fr"), fr);
    idx
}

#[test]
fn link_chains_stop_after_twelve_links() {
    let idx = chain_index(12);
    match resolve_value(&idx, &Locale::new("fr"), "@:k1") {
        ResolvedValue::Linked { display, chain, .. } => {
            assert_eq!(display, "end");
            assert_eq!(chain.len(), 12);
        }
        other => panic!("expected Linked, got {other:?}"),
    }
    let idx = chain_index(13);
    match resolve_value(&idx, &Locale::new("fr"), "@:k1") {
        ResolvedValue::Broken { target_key, reason } => {
            assert_eq!(target_key, "k13");
            assert_eq!(reason, "link chain too deep");
        }
        other => panic!("expected Broken, got {other:?}"),
    }
}
