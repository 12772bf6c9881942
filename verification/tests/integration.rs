//! End-to-end: configuration from the directories found in a workspace, then
//! the index built from the files found under them. The workspaces are
//! written out here as the list of files a walk of them would hand over.

use i18n_core::{resolve_value, IndexBuilder, IndexError, Locale, LocaleLayout, ProjectConfig, ResolvedValue, SourceFile};

fn source(dir: &str, path: &str, content: &str) -> SourceFile {
    SourceFile { dir: dir.to_string(), path: path.to_string(), content: content.to_string() }
}

fn nested_project() -> Vec<SourceFile> {
    vec![
        source(
            "/fx/nested_project/locales",
            "/fx/nested_project/locales/en/common.json",
            r#"{"greeting":"Hello","actions":{"submit":"Submit","cancel":"Cancel"}}"#,
        ),
        source(
            "/fx/nested_project/locales",
            "/fx/nested_project/locales/fr/common.json",
            r#"{"greeting":"Bonjour","actions":{"submit":"Valider"}}"#,
        ),
    ]
}

fn flat_project() -> Vec<SourceFile> {
    vec![
        source("/fx/flat_project/locales", "/fx/flat_project/locales/en.json", r#"{"hello":"Hi","bye":"Bye"}"#),
        source("/fx/flat_project/locales", "/fx/flat_project/locales/fr.json", r#"{"hello":"Salut","bye":"Au revoir"}"#),
    ]
}

#[test]
fn nested_project_builds_complete_index() {
    let config = ProjectConfig::auto_detect(&vec!["locales".to_string()]);
    assert_eq!(config.locale_paths, vec!["locales".to_string()]);

    let index = IndexBuilder::new("/fx/nested_project", &config).build(&nested_project()).expect("build");

    assert_eq!(index.layout, Some(LocaleLayout::Nested));
    assert_eq!(index.source_locale.as_str(), "en");
    assert_eq!(index.trees.len(), 2);
    assert!(index.trees.contains_key(&Locale::new("en")));
    assert!(index.trees.contains_key(&Locale::new("fr")));

    let en_submit = index.lookup("common.actions.submit").get(&Locale::new("en")).expect("en submit");
    assert_eq!(en_submit.value, "Submit");

    let fr_greeting = index.lookup("common.greeting").get(&Locale::new("fr")).expect("fr greeting");
    assert_eq!(fr_greeting.value, "Bonjour");

    let missing = index.missing_keys(&Locale::new("fr"));
    assert_eq!(missing, vec!["common.actions.cancel".to_string()]);
}

#[test]
fn flat_project_builds_complete_index() {
    let config = ProjectConfig::auto_detect(&vec!["locales".to_string()]);
    let index = IndexBuilder::new("/fx/flat_project", &config).build(&flat_project()).expect("build");

    assert_eq!(index.layout, Some(LocaleLayout::Flat));
    assert_eq!(index.trees.len(), 2);

    let en_hello = index.lookup("hello").get(&Locale::new("en")).expect("en hello");
    assert_eq!(en_hello.value, "Hi");
    assert!(en_hello.range.end.offset > en_hello.range.start.offset);
    assert!(en_hello.file.ends_with("en.json"));

    assert_eq!(index.missing_keys(&Locale::new("fr")), Vec::<String>::new());
}

#[test]
fn monorepo_project_finds_front_locale_dir() {
    let found = vec!["front/i18n/locales".to_string(), "back/locales".to_string()];
    let config = ProjectConfig::auto_detect(&found);
    assert!(
        config.locale_paths.iter().any(|p| p == "front/i18n/locales"),
        "locale_paths = {:?}",
        config.locale_paths
    );

    let sources = vec![source(
        "/fx/monorepo_project/front/i18n/locales",
        "/fx/monorepo_project/front/i18n/locales/fr/app.json",
        r#"{"hello":"bonjour"}"#,
    )];
    let index = IndexBuilder::new("/fx/monorepo_project", &config).build(&sources).expect("build");
    assert_eq!(index.source_locale.as_str(), "fr");
    let hello = index.lookup("app.hello").get(&Locale::new("fr")).expect("fr hello");
    assert_eq!(hello.value, "bonjour");
}

fn namespaced_config(namespace: bool) -> ProjectConfig {
    ProjectConfig { locale_paths: vec!["locales".into()], namespace: Some(namespace), ..ProjectConfig::default() }
}

#[test]
fn namespace_false_keeps_json_root_keys_without_filename_prefix() {
    let config = namespaced_config(false);
    let sources = vec![source("/w/locales", "/w/locales/en/slots.json", r#"{"slots":{"title":"Title","save":"Save"}}"#)];
    let index = IndexBuilder::new("/w", &config).build(&sources).expect("build");

    assert!(index.lookup("slots.title").contains_key(&Locale::new("en")), "expected slots.title without double prefix");
    assert!(index.lookup("slots.slots.title").is_empty());
}

#[test]
fn namespace_true_avoids_double_prefix_when_json_is_self_wrapped() {
    let config = namespaced_config(true);
    let sources = vec![source("/w/locales", "/w/locales/en/slots.json", r#"{"slots":{"title":"Title"}}"#)];
    let index = IndexBuilder::new("/w", &config).build(&sources).expect("build");

    assert!(index.lookup("slots.title").contains_key(&Locale::new("en")));
    assert!(index.lookup("slots.slots.title").is_empty());
}

#[test]
fn namespace_true_prepends_stem_for_flat_json_content() {
    let config = namespaced_config(true);
    let sources = vec![source("/w/locales", "/w/locales/en/common.json", r#"{"actions":{"submit":"Submit"}}"#)];
    let index = IndexBuilder::new("/w", &config).build(&sources).expect("build");

    assert!(index.lookup("common.actions.submit").contains_key(&Locale::new("en")));
}

#[test]
fn nuxt_per_locale_folder_indexes_global_cant_select() {
    let config = ProjectConfig {
        locale_paths: vec!["locales/fr".into()],
        namespace: Some(true),
        source_locale: Some("fr".into()),
        ..ProjectConfig::default()
    };
    let sources = vec![source("/w/locales/fr", "/w/locales/fr/global.json", r#"{"global":{"cantSelect":"nope"}}"#)];
    let index = IndexBuilder::new("/w", &config).build(&sources).expect("build");
    assert_eq!(index.source_locale.as_str(), "fr");
    assert!(
        index.lookup("global.cantSelect").contains_key(&Locale::new("fr")),
        "trees={:?}",
        index.trees.keys()
    );
}

#[test]
fn linked_messages_resolve_through_index() {
    let config = ProjectConfig {
        locale_paths: vec!["locales".into()],
        namespace: Some(false),
        source_locale: Some("en".into()),
        ..ProjectConfig::default()
    };
    let sources = vec![source(
        "/fx/linked_messages/locales",
        "/fx/linked_messages/locales/en/common.json",
        r#"{"common":{"providers":{"payfip":"PayFiP"},"payfip":"@:common.providers.payfip"}}"#,
    )];
    let index = IndexBuilder::new("/fx/linked_messages", &config).build(&sources).expect("build");

    let values = index.lookup("common.payfip");
    let alias = values.get(&Locale::new("en")).expect("alias");
    assert_eq!(alias.value, "@:common.providers.payfip");

    match resolve_value(&index, &Locale::new("en"), &alias.value) {
        ResolvedValue::Linked { display, target_key, .. } => {
            assert_eq!(target_key, "common.providers.payfip");
            assert_eq!(display, "PayFiP");
        }
        other => panic!("expected Linked, got {other:?}"),
    }

    let backlinks = index.keys_linking_to("common.providers.payfip");
    assert!(backlinks.iter().any(|k| k == "common.payfip"));
}

#[test]
fn missing_locale_dir_yields_no_locales_error() {
    let config = ProjectConfig::auto_detect(&Vec::new());
    let err = IndexBuilder::new("/fx/nonexistent", &config).build(&Vec::new()).unwrap_err();
    match err {
        IndexError::NoLocalesFound => {}
        other => panic!("unexpected error: {other:?}"),
    }
}

#[test]
fn wrong_locale_paths_from_front_subfolder_breaks_index() {
    // The configuration of the monorepo root names `front/i18n/locales`;
    // resolved against the `front` subfolder nothing is found there.
    let config = ProjectConfig { locale_paths: vec!["front/i18n/locales".into()], ..ProjectConfig::default() };
    let err = IndexBuilder::new("/w/front", &config).build(&Vec::new()).unwrap_err();
    match err {
        IndexError::NoLocalesFound => {}
        other => panic!("expected NoLocalesFound, got {other:?}"),
    }
}

#[test]
fn non_locale_files_are_not_indexed() {
    let config = ProjectConfig::auto_detect(&vec!["locales".to_string()]);
    let sources = vec![source("/w/locales", "/w/locales/README.md", "# notes")];
    let err = IndexBuilder::new("/w", &config).build(&sources).unwrap_err();
    assert!(matches!(err, IndexError::NoLocalesFound));
}

#[test]
fn build_reports_parse_error_of_a_locale_file() {
    let config = ProjectConfig::auto_detect(&vec!["locales".to_string()]);
    let sources = vec![source("/w/locales", "/w/locales/en.json", r#"{"a": }"#)];
    let err = IndexBuilder::new("/w", &config).build(&sources).unwrap_err();
    assert!(matches!(err, IndexError::Parse(_)));
}

#[test]
fn flat_yaml_project_builds_complete_index() {
    let config = ProjectConfig::auto_detect(&vec!["locales".to_string()]);
    let sources = vec![
        source("/fx/flat_project_yaml/locales", "/fx/flat_project_yaml/locales/en.yml", "hello: Hi\nbye: Bye\n"),
        source("/fx/flat_project_yaml/locales", "/fx/flat_project_yaml/locales/fr.yml", "hello: Salut\nbye: Au revoir\n"),
    ];
    let index = IndexBuilder::new("/fx/flat_project_yaml", &config).build(&sources).expect("build");

    assert_eq!(index.layout, Some(LocaleLayout::Flat));
    assert_eq!(index.trees.len(), 2);

    let en_hello = index.lookup("hello").get(&Locale::new("en")).expect("en hello");
    assert_eq!(en_hello.value, "Hi");
    assert!(en_hello.file.ends_with("en.yml"));
    assert!(en_hello.range.end.offset > en_hello.range.start.offset);
}

#[test]
fn nested_yaml_project_builds_complete_index() {
    let config = ProjectConfig::auto_detect(&vec!["locales".to_string()]);
    let sources = vec![
        source(
            "/fx/nested_project_yaml/locales",
            "/fx/nested_project_yaml/locales/en/common.yml",
            "greeting: Hello\nactions:\n  submit: Submit\n  cancel: Cancel\n",
        ),
        source(
            "/fx/nested_project_yaml/locales",
            "/fx/nested_project_yaml/locales/fr/common.yml",
            "greeting: Bonjour\nactions:\n  submit: Valider\n",
        ),
    ];
    let index = IndexBuilder::new("/fx/nested_project_yaml", &config).build(&sources).expect("build");

    assert_eq!(index.layout, Some(LocaleLayout::Nested));
    let en_submit = index.lookup("common.actions.submit").get(&Locale::new("en")).expect("en submit");
    assert_eq!(en_submit.value, "Submit");
    assert!(en_submit.file.ends_with("common.yml"));

    let missing = index.missing_keys(&Locale::new("fr"));
    assert_eq!(missing, vec!["common.actions.cancel".to_string()]);
}
