use i18n_core::tools::{
    get_value, list_keys, reload_summary, resolve_workspace, set_value_plan, slugify_segment, suggest_key,
    translate_key_refusal, ResolvedReport,
};
use i18n_core::{IndexBuilder, LocaleIndex, ProjectConfig, SourceFile};

fn source(dir: &str, path: &str, content: &str) -> SourceFile {
    SourceFile { dir: dir.to_string(), path: path.to_string(), content: content.to_string() }
}

fn nested_index() -> LocaleIndex {
    let files = vec![
        source(
            "/fx/nested_project/locales",
            "/fx/nested_project/locales/en/common.json",
            r#"{"greeting":"Hello","actions":{"submit":"Submit","cancel":"Cancel"}}"#,
        ),
        source(
            "/fx/nested_project/locales",
            "/fx/nested_project/locales/fr/common.json",
            r#"{"greeting":"Bonjour","actions":{"submit":"Valider"}}"#,
        ),
    ];
    let config = ProjectConfig::auto_detect(&vec!["locales".to_string()]);
    IndexBuilder::new("/fx/nested_project", &config).build(&files).expect("build")
}

fn linked_index() -> LocaleIndex {
    let files = vec![source("/fx/l/locales", "/fx/l/locales/en.json", r#"{"hello":"Hi","greet":"@.upper:hello","bad":"@:missing.key"}"#)];
    let config = ProjectConfig::auto_detect(&vec!["locales".to_string()]);
    IndexBuilder::new("/fx/l", &config).build(&files).expect("build")
}

#[test]
fn slugify_keeps_lowercase_alphanumerics() {
    assert_eq!(slugify_segment("Hello, World!"), "hello_world");
    assert_eq!(slugify_segment("  --Foo--Bar  "), "foo_bar");
    assert_eq!(slugify_segment("!!!"), "");
    assert_eq!(slugify_segment("Élan 2"), "lan_2");
}

#[test]
fn suggest_key_prefixes_context_stem() {
    assert_eq!(suggest_key("Save changes", Some("src/components/UserProfile.vue")).unwrap(), "userprofile.save_changes");
    assert_eq!(suggest_key("Save", None).unwrap(), "save");
    assert_eq!(suggest_key("Save", Some("src/---.vue")).unwrap(), "context.save");
    assert_eq!(suggest_key("!!!", None).unwrap_err(), "text is empty after slugify");
}

#[test]
fn list_keys_filters_by_prefix_and_locale() {
    let idx = nested_index();
    assert_eq!(list_keys(&idx, None, Some("common.actions")), vec!["common.actions.cancel", "common.actions.submit"]);
    assert_eq!(list_keys(&idx, Some("fr"), None), vec!["common.actions.submit", "common.greeting"]);
    assert_eq!(list_keys(&idx, None, None).len(), 3);
    assert!(list_keys(&idx, Some("de"), None).is_empty());
}

#[test]
fn get_value_reports_value_and_file() {
    let idx = nested_index();
    let rep = get_value(&idx, "common.greeting", "fr").expect("value");
    assert_eq!(rep.key, "common.greeting");
    assert_eq!(rep.locale, "fr");
    assert_eq!(rep.value, "Bonjour");
    assert_eq!(rep.file, "/fx/nested_project/locales/fr/common.json");
    assert!(matches!(rep.resolved, ResolvedReport::Text(ref t) if t == "Bonjour"));
    assert!(!rep.is_linked);
    assert!(rep.modifier.is_none());
    assert_eq!(
        get_value(&idx, "common.nope", "en").unwrap_err(),
        "key `common.nope` not defined for locale `en`"
    );
}

#[test]
fn get_value_follows_links() {
    let idx = linked_index();
    let rep = get_value(&idx, "greet", "en").expect("value");
    assert!(rep.is_linked);
    assert_eq!(rep.modifier.as_deref(), Some("upper"));
    match rep.resolved {
        ResolvedReport::Linked { display, target, .. } => {
            assert_eq!(display, "HI");
            assert_eq!(target, "hello");
        }
        other => panic!("expected a link, got {other:?}"),
    }
    let bad = get_value(&idx, "bad", "en").expect("value");
    assert!(matches!(bad.resolved, ResolvedReport::Broken { ref target, .. } if target == "missing.key"));
}

#[test]
fn reload_summary_counts_locales_and_keys() {
    assert_eq!(reload_summary(&nested_index()), "indexed 2 locale(s), 3 key(s)");
}

#[test]
fn set_value_plan_names_the_tool() {
    let idx = nested_index();
    let (path, segs) = set_value_plan(&idx, "common.x", "fr").unwrap();
    assert_eq!(path, "/fx/nested_project/locales/fr/common.json");
    assert_eq!(segs, vec!["common".to_string(), "x".to_string()]);
    assert_eq!(set_value_plan(&idx, "a", "de").unwrap_err(), "no locale file for `de`");
    let files = vec![source("/fx/y/locales", "/fx/y/locales/en.yml", "a: b\n")];
    let config = ProjectConfig::auto_detect(&vec!["locales".to_string()]);
    let yidx = IndexBuilder::new("/fx/y", &config).build(&files).expect("build");
    assert_eq!(set_value_plan(&yidx, "a", "en").unwrap_err(), "set_value only supports JSON locale files right now (got .yml)");
}

#[test]
fn workspace_comes_from_env_then_argument_then_cwd() {
    assert_eq!(resolve_workspace(Some("/env"), Some("/legacy"), Some("/arg"), Some("/cwd")), "/env");
    assert_eq!(resolve_workspace(Some(""), Some("/legacy"), Some("/arg"), Some("/cwd")), "/legacy");
    assert_eq!(resolve_workspace(None, Some(""), Some("/arg"), Some("/cwd")), "/arg");
    assert_eq!(resolve_workspace(None, None, None, Some("/cwd")), "/cwd");
    assert_eq!(resolve_workspace(None, None, None, None), ".");
}

#[test]
fn translate_key_explains_refusal() {
    assert_eq!(translate_key_refusal(false, false), "no translation API key found (set LOKALIZED_DEEPL_KEY or OPENAI_API_KEY)");
    assert_eq!(
        translate_key_refusal(true, false),
        "automatic translation is not implemented yet — use set_value after translating externally"
    );
}
