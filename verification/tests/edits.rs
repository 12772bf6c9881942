use i18n_core::edits::{add_key_steps, ensure_json, is_valid_key, key_holders, rename_refusal, value_at_path_exists};
use i18n_core::mutation::JsonValue;
use i18n_core::{IndexBuilder, LocaleIndex, ProjectConfig, SourceFile};

fn source(dir: &str, path: &str, content: &str) -> SourceFile {
    SourceFile { dir: dir.to_string(), path: path.to_string(), content: content.to_string() }
}

fn nested_index() -> LocaleIndex {
    let files = vec![
        source(
            "/fx/nested_project/locales",
            "/fx/nested_project/locales/en/common.json",
            r#"{"greeting":"Hello","actions":{"submit":"Submit","cancel":"Cancel"}}"#,
        ),
        source(
            "/fx/nested_project/locales",
            "/fx/nested_project/locales/fr/common.json",
            r#"{"greeting":"Bonjour","actions":{"submit":"Valider"}}"#,
        ),
    ];
    let config = ProjectConfig::auto_detect(&vec!["locales".to_string()]);
    IndexBuilder::new("/fx/nested_project", &config).build(&files).expect("build")
}

fn mixed_index() -> LocaleIndex {
    let files = vec![
        source("/fx/m/locales", "/fx/m/locales/en.json", r#"{"hello":"Hi"}"#),
        source("/fx/m/locales", "/fx/m/locales/fr.yml", "hello: Salut\n"),
    ];
    let config = ProjectConfig::auto_detect(&vec!["locales".to_string()]);
    IndexBuilder::new("/fx/m", &config).build(&files).expect("build")
}

#[test]
fn ensure_json_accepts_json_family_only() {
    assert!(ensure_json("/a/fr.json").is_ok());
    assert!(ensure_json("/a/fr.jsonc").is_ok());
    assert!(ensure_json("/a/fr.json5").is_ok());
    assert_eq!(ensure_json("/a/fr.yaml").unwrap_err(), "only JSON locale files are editable in the GUI (got .yaml for /a/fr.yaml)");
    assert_eq!(ensure_json("/a/README").unwrap_err(), "only JSON locale files are editable in the GUI (got . for /a/README)");
}

#[test]
fn keys_must_be_non_blank_without_spaces() {
    assert!(is_valid_key("a.b"));
    assert!(!is_valid_key("a b"));
    assert!(!is_valid_key("   "));
    assert!(!is_valid_key(""));
    assert!(is_valid_key("\ta"));
}

#[test]
fn rename_refuses_same_or_invalid_key() {
    assert_eq!(rename_refusal("a", "a").as_deref(), Some("new key is the same as the old key"));
    assert_eq!(rename_refusal("a", "b c").as_deref(), Some("key must be a non-empty dotted path without spaces"));
    assert_eq!(rename_refusal("a", "b"), None);
}

#[test]
fn value_at_path_follows_objects() {
    let doc = JsonValue::Object(vec![(
        "a".to_string(),
        JsonValue::Object(vec![("b".to_string(), JsonValue::Str("x".to_string()))]),
    )]);
    let p = |s: &[&str]| s.iter().map(|x| x.to_string()).collect::<Vec<String>>();
    assert!(value_at_path_exists(&doc, &p(&["a", "b"])));
    assert!(value_at_path_exists(&doc, &p(&["a"])));
    assert!(value_at_path_exists(&doc, &p(&[])));
    assert!(!value_at_path_exists(&doc, &p(&["a", "c"])));
    assert!(!value_at_path_exists(&doc, &p(&["a", "b", "c"])));
}

#[test]
fn add_key_steps_cover_every_locale() {
    let idx = nested_index();
    let (steps, err) = add_key_steps(&idx, "common.actions.reset", "Reset");
    assert!(err.is_none());
    let got: Vec<(&str, &str, &str)> = steps.iter().map(|s| (s.locale.as_str(), s.path.as_str(), s.value.as_str())).collect();
    assert_eq!(
        got,
        vec![
            ("en", "/fx/nested_project/locales/en/common.json", "Reset"),
            ("fr", "/fx/nested_project/locales/fr/common.json", ""),
        ]
    );
    let (steps, _) = add_key_steps(&idx, "common.actions.cancel", "Ignored");
    assert_eq!(steps[1].value, "Cancel");
}

#[test]
fn add_key_steps_refuse_invalid_key() {
    let (steps, err) = add_key_steps(&nested_index(), "bad key", "x");
    assert!(steps.is_empty());
    assert_eq!(err.as_deref(), Some("invalid key path"));
}

#[test]
fn add_key_steps_stop_at_non_json_file() {
    let (steps, err) = add_key_steps(&mixed_index(), "bye", "Bye");
    assert_eq!(steps.len(), 1);
    assert_eq!(steps[0].locale.as_str(), "en");
    assert_eq!(err.as_deref(), Some("only JSON locale files are editable in the GUI (got .yml for /fx/m/locales/fr.yml)"));
}

#[test]
fn key_holders_are_locales_with_the_key() {
    let idx = nested_index();
    let (files, err) = key_holders(&idx, "common.actions.cancel");
    assert!(err.is_none());
    assert_eq!(files.len(), 1);
    assert_eq!(files[0].locale.as_str(), "en");
    assert_eq!(files[0].path, "/fx/nested_project/locales/en/common.json");
    let (files, _) = key_holders(&idx, "common.greeting");
    assert_eq!(files.len(), 2);
    let (files, err) = key_holders(&idx, "nope");
    assert!(files.is_empty() && err.is_none());
}
