use i18n_core::editor::{
    build_inlay_hint, completion_items, definition_targets, fill_missing_plans, inlay_hints, locale_diagnostics,
    is_locale_event, unused_key_at, workspace_roots, workspace_symbol_matches, workspace_symbols, pick_symbols, WatchEventKind, format_hover_markdown, hover_markdown_with_urls, humanize_key, index_summary,
    is_indexed_locale_path, is_supported_source_lang, range_contains_position, should_update_usages, source_diagnostics,
    usage_at_position, whole_file_end, Severity,
};
use i18n_core::index::key_path_in_file;
use i18n_core::{IndexBuilder, UsageIndex, KeyUsage, Locale, LocaleIndex, LocalizedValue, Position, ProjectConfig, Range, SourceFile};

fn source(dir: &str, path: &str, content: &str) -> SourceFile {
    SourceFile { dir: dir.to_string(), path: path.to_string(), content: content.to_string() }
}

fn nested_index() -> LocaleIndex {
    let files = vec![
        source(
            "/fx/nested_project/locales",
            "/fx/nested_project/locales/en/common.json",
            r#"{"greeting":"Hello","actions":{"submit":"Submit","cancel":"Cancel"}}"#,
        ),
        source(
            "/fx/nested_project/locales",
            "/fx/nested_project/locales/fr/common.json",
            r#"{"greeting":"Bonjour","actions":{"submit":"Valider"}}"#,
        ),
    ];
    let config = ProjectConfig::auto_detect(&vec!["locales".to_string()]);
    IndexBuilder::new("/fx/nested_project", &config).build(&files).expect("build")
}

fn pos(line: u32, character: u32) -> Position {
    Position { line, character, offset: 0 }
}

#[test]
fn humanize_key_splits_camel_case_of_last_segment() {
    assert_eq!(humanize_key("some.nested.myKey"), "my key");
    assert_eq!(humanize_key("Title"), "title");
    assert_eq!(humanize_key("a.HTMLName"), "h t m l name");
    assert_eq!(humanize_key("a."), "");
}

#[test]
fn supported_source_languages_ignore_case() {
    assert!(is_supported_source_lang("TypeScript"));
    assert!(is_supported_source_lang("vue.js"));
    assert!(is_supported_source_lang("html"));
    assert!(!is_supported_source_lang("rust"));
    assert!(!is_supported_source_lang("vue"));
}

#[test]
fn whole_file_end_is_last_line_and_its_length() {
    assert_eq!(whole_file_end("a\nbcd"), (1, 3));
    assert_eq!(whole_file_end(""), (0, 0));
    assert_eq!(whole_file_end("x\n"), (1, 0));
    assert_eq!(whole_file_end("héé"), (0, 3));
}

#[test]
fn range_contains_its_ends() {
    let r = Range { start: pos(1, 2), end: pos(1, 5) };
    assert!(range_contains_position(&r, 1, 2));
    assert!(range_contains_position(&r, 1, 5));
    assert!(!range_contains_position(&r, 1, 6));
    assert!(!range_contains_position(&r, 0, 9));
    assert!(!range_contains_position(&r, 2, 0));
}

#[test]
fn index_summary_counts_locales_files_and_keys() {
    assert_eq!(index_summary(&nested_index()), "indexed 2 locale(s), 2 file(s), 3 unique key(s)");
}

#[test]
fn hover_lists_source_others_and_files() {
    let idx = nested_index();
    let values = idx.lookup("common.greeting");
    let urls = vec![Some("file:///fx/en/common.json".to_string()), None];
    let md = hover_markdown_with_urls("common.greeting", &values, &idx.source_locale, &urls);
    assert_eq!(
        md,
        "**`common.greeting`**\n\n> **en** — Hello\n\n**Other locales**\n\n- **fr** — Bonjour\n\n---\n**Open translation file:**\n\n- **en** — [`common.json:1`](file:///fx/en/common.json)\n- **fr** — `common.json:1`\n\n*Press `F12` to jump to a translation in a picker.*"
    );
}

#[test]
fn hover_links_absolute_files_by_file_url() {
    let idx = nested_index();
    let values = idx.lookup("common.greeting");
    let md = format_hover_markdown("common.greeting", &values, &idx.source_locale);
    assert!(md.contains("- **en** — [`common.json:1`](file:///fx/nested_project/locales/en/common.json)\n"));
    assert!(md.contains("- **fr** — [`common.json:1`](file:///fx/nested_project/locales/fr/common.json)\n"));
    // A relative path has no file URL: the line names the file without a link.
    let v = LocalizedValue { value: "x".to_string(), file: "rel/en.json".to_string(), range: Range::default(), key_range: Range::default() };
    let mut idx2 = LocaleIndex::default();
    idx2.source_locale = Locale::new("en");
    let mut t = i18n_core::KeyTree::new();
    t.insert(&vec!["k".to_string()], v);
    idx2.trees.insert(Locale::new("en"), t);
    let md2 = format_hover_markdown("k", &idx2.lookup("k"), &idx2.source_locale);
    assert!(md2.contains("- **en** — `en.json:1`\n"));
}

#[test]
fn hover_lists_plural_forms_of_source() {
    let v = LocalizedValue { value: "no car | one car | {n} cars".to_string(), file: "/l/en.json".to_string(), range: Range::default(), key_range: Range::default() };
    let mut idx = LocaleIndex::default();
    idx.source_locale = Locale::new("en");
    let mut t = i18n_core::KeyTree::new();
    t.insert(&vec!["cars".to_string()], v);
    idx.trees.insert(Locale::new("en"), t);
    let values = idx.lookup("cars");
    let md = hover_markdown_with_urls("cars", &values, &idx.source_locale, &vec![None]);
    assert_eq!(
        md,
        "**`cars`**\n\n> **en** (pluralised)\n>\n> - `zero` — no car\n> - `one` — one car\n> - `other` — {n} cars\n\n---\n**Open translation file:**\n\n- **en** — `en.json:1`\n\n*Press `F12` to jump to a translation in a picker.*"
    );
}

#[test]
fn inlay_hint_previews_value_after_usage() {
    let usage = KeyUsage { key: "cars".to_string(), range: Range { start: pos(3, 4), end: pos(3, 10) }, scope: None, framework_id: "vue-i18n" };
    let value = LocalizedValue { value: "car | cars".to_string(), file: "/en.json".to_string(), range: Range::default(), key_range: Range::default() };
    let hint = build_inlay_hint(&usage, &value);
    assert_eq!(hint.position, pos(3, 10));
    assert_eq!(hint.label, " = car …");
    assert_eq!(hint.tooltip, "car | cars");
    let single = LocalizedValue { value: "Hello".to_string(), ..value };
    assert_eq!(build_inlay_hint(&usage, &single).label, " = Hello");
}

#[test]
fn usage_at_position_finds_key_under_cursor() {
    let text = r#"t("home.title")"#;
    let u = usage_at_position(text, "TypeScript", 0, 5).expect("usage");
    assert_eq!(u.key, "home.title");
    assert!(usage_at_position(text, "TypeScript", 1, 0).is_none());
}

#[test]
fn source_diagnostics_warn_on_unknown_keys() {
    let idx = nested_index();
    let text = r#"t("common.greeting"); t("nope.key");"#;
    let ds = source_diagnostics(&idx, text, "TypeScript");
    assert_eq!(ds.len(), 1);
    assert_eq!(ds[0].severity, Severity::Warning);
    assert_eq!(ds[0].message, "Missing translation for key `nope.key`");
}

#[test]
fn fill_missing_plans_target_mirror_file() {
    let idx = nested_index();
    let plans = fill_missing_plans(&idx, "common.actions.cancel");
    assert_eq!(plans.len(), 1);
    assert_eq!(plans[0].locale.as_str(), "fr");
    assert_eq!(plans[0].path, "/fx/nested_project/locales/fr/common.json");
    assert_eq!(plans[0].key_path, vec!["actions".to_string(), "cancel".to_string()]);
    assert_eq!(plans[0].value, "Cancel");
    assert!(fill_missing_plans(&idx, "common.greeting").is_empty());
}

#[test]
fn usage_refresh_skips_locale_files() {
    let idx = nested_index();
    assert!(is_indexed_locale_path(&idx, "/fx/nested_project/locales/fr/common.json"));
    assert!(!is_indexed_locale_path(&idx, "/fx/nested_project/src/App.vue"));
    assert!(should_update_usages(&idx, "/fx/nested_project/src/App.vue", "Vue.js"));
    assert!(!should_update_usages(&idx, "/fx/nested_project/locales/fr/common.json", "TypeScript"));
    assert!(!should_update_usages(&idx, "/fx/nested_project/README.md", "Markdown"));
}

#[test]
fn definitions_are_the_files_of_each_locale() {
    let idx = nested_index();
    let targets = definition_targets(&idx, "common.actions.submit");
    let files: Vec<&str> = targets.iter().map(|(f, _)| f.as_str()).collect();
    assert_eq!(files, vec!["/fx/nested_project/locales/en/common.json", "/fx/nested_project/locales/fr/common.json"]);
    assert!(definition_targets(&idx, "nope").is_empty());
}

const EN_COMMON: &str = r#"{"greeting":"Hello","actions":{"submit":"Submit","cancel":"Cancel"}}"#;

fn greeting_usages() -> UsageIndex {
    let mut u = UsageIndex::new();
    u.update_file("/fx/nested_project/src/a.ts", r#"t("common.greeting")"#, "TypeScript");
    u
}

#[test]
fn locale_diagnostics_mark_unused_keys() {
    let idx = nested_index();
    let path = "/fx/nested_project/locales/en/common.json";
    let ds = locale_diagnostics(&idx, &greeting_usages(), path, EN_COMMON);
    let msgs: Vec<&str> = ds.iter().map(|d| d.message.as_str()).collect();
    assert_eq!(
        msgs,
        vec![
            "Translation key `common.actions.submit` is not referenced by any scanned source file.",
            "Translation key `common.actions.cancel` is not referenced by any scanned source file.",
        ]
    );
    assert!(ds.iter().all(|d| d.severity == Severity::Hint && d.unnecessary && d.code == "unused-key"));
    assert!(locale_diagnostics(&idx, &UsageIndex::new(), path, EN_COMMON).is_empty());
}

#[test]
fn unused_key_under_cursor() {
    let idx = nested_index();
    let path = "/fx/nested_project/locales/en/common.json";
    let (segs, key) = unused_key_at(&idx, &greeting_usages(), path, EN_COMMON, 0, 34).expect("unused key");
    assert_eq!(segs, vec!["actions".to_string(), "submit".to_string()]);
    assert_eq!(key, "common.actions.submit");
    assert!(unused_key_at(&idx, &greeting_usages(), path, EN_COMMON, 0, 5).is_none());
}

#[test]
fn inlay_hints_follow_source_values() {
    let idx = nested_index();
    let hints = inlay_hints(&idx, r#"t("common.greeting"); t("nope")"#, "TypeScript");
    assert_eq!(hints.len(), 1);
    assert_eq!(hints[0].label, " = Hello");
}

#[test]
fn completion_lists_every_key_with_preview() {
    let items = completion_items(&nested_index());
    let got: Vec<(&str, Option<&str>)> = items.iter().map(|(k, d)| (k.as_str(), d.as_deref())).collect();
    assert_eq!(
        got,
        vec![
            ("common.actions.cancel", Some("Cancel")),
            ("common.actions.submit", Some("Submit")),
            ("common.greeting", Some("Hello")),
        ]
    );
}

#[test]
fn workspace_symbols_match_case_insensitively() {
    let idx = nested_index();
    let found = workspace_symbol_matches(&idx, " GREET ");
    assert_eq!(found.len(), 1);
    assert_eq!(found[0].0, "common.greeting");
    assert_eq!(found[0].1.value, "Hello");
    assert_eq!(workspace_symbol_matches(&idx, "").len(), 3);
}

#[test]
fn workspace_symbols_carry_file_urls() {
    let idx = nested_index();
    let found = workspace_symbols(&idx, "greet");
    assert_eq!(found.len(), 1);
    assert_eq!(found[0].0, "common.greeting");
    assert_eq!(found[0].2, "file:///fx/nested_project/locales/en/common.json");
}

#[test]
fn pick_symbols_skips_files_without_url_and_stops_at_the_cap() {
    let v = LocalizedValue { value: "x".to_string(), file: "/a.json".to_string(), range: Range::default(), key_range: Range::default() };
    let matches: Vec<(String, &LocalizedValue)> = (0..250).map(|i| (format!("k{i}"), &v)).collect();
    let urls: Vec<Option<String>> = (0..250).map(|i| if i == 1 { None } else { Some(format!("file:///{i}")) }).collect();
    let picked = pick_symbols(&matches, &urls);
    assert_eq!(picked.len(), 200);
    assert_eq!(picked[0].0, "k0");
    assert_eq!(picked[1].0, "k2");
    assert_eq!(picked[1].2, "file:///2");
    assert_eq!(picked[199].0, "k200");
}

#[test]
fn key_path_in_file_strips_namespace() {
    let idx = nested_index();
    let segs = key_path_in_file("common.actions.submit", &idx.files[0], idx.layout.unwrap(), &idx.config);
    assert_eq!(segs, vec!["actions".to_string(), "submit".to_string()]);
}

#[test]
fn workspace_roots_prefer_folders() {
    let folders = vec![Some("/a".to_string()), None, Some("/b".to_string())];
    assert_eq!(workspace_roots(Some(&folders), Some(Some("/root".into())), Some("/p")), vec!["/a".to_string(), "/b".to_string()]);
    assert!(workspace_roots(Some(&vec![]), Some(Some("/root".into())), None).is_empty());
    assert_eq!(workspace_roots(None, Some(Some("/root".into())), Some("/p")), vec!["/root".to_string()]);
    assert_eq!(workspace_roots(None, Some(None), Some("/p")), vec!["/p".to_string()]);
    assert!(workspace_roots(None, None, None).is_empty());
}

#[test]
fn locale_events_need_a_locale_file() {
    let paths = vec!["/w/src/a.ts".to_string(), "/w/locales/fr.yml".to_string()];
    assert!(is_locale_event(WatchEventKind::Modify, &paths));
    assert!(is_locale_event(WatchEventKind::Remove, &paths));
    assert!(!is_locale_event(WatchEventKind::Other, &paths));
    assert!(!is_locale_event(WatchEventKind::Create, &vec!["/w/src/a.ts".to_string()]));
}
