use i18n_core::paths::join_path;
use i18n_core::cli::{run_check, run_missing, run_set_plan, run_validate, Context, OutputFormat};
use i18n_core::index::IndexError;
use i18n_core::mutation::MutationError;
use i18n_core::parser::ParseError;
use i18n_core::project::load_error_message;
use i18n_core::{FileRead, ProjectConfig, ProjectError, ProjectSnapshot, SourceFile, UsageIndex};

fn source(dir: &str, path: &str, content: &str) -> SourceFile {
    SourceFile { dir: dir.to_string(), path: path.to_string(), content: content.to_string() }
}

fn nested_project() -> Vec<SourceFile> {
    vec![
        source(
            "/fx/nested_project/locales",
            "/fx/nested_project/locales/en/common.json",
            r#"{"greeting":"Hello","actions":{"submit":"Submit","cancel":"Cancel"}}"#,
        ),
        source(
            "/fx/nested_project/locales",
            "/fx/nested_project/locales/fr/common.json",
            r#"{"greeting":"Bonjour","actions":{"submit":"Valider"}}"#,
        ),
    ]
}

const FLAT_EN: &str = r#"{"hello":"Hi","bye":"Bye"}"#;
const FLAT_FR: &str = r#"{"hello":"Salut","bye":"Au revoir"}"#;

fn flat_project() -> Vec<SourceFile> {
    vec![
        source("/fx/flat_project/locales", "/fx/flat_project/locales/en.json", FLAT_EN),
        source("/fx/flat_project/locales", "/fx/flat_project/locales/fr.json", FLAT_FR),
    ]
}

fn flat_reads() -> Vec<FileRead> {
    vec![
        FileRead { path: "/fx/flat_project/locales/en.json".into(), content: Ok(FLAT_EN.into()) },
        FileRead { path: "/fx/flat_project/locales/fr.json".into(), content: Ok(FLAT_FR.into()) },
    ]
}

fn load(root: &str, sources: &Vec<SourceFile>) -> ProjectSnapshot {
    let config = ProjectConfig::auto_detect(&vec!["locales".to_string()]);
    ProjectSnapshot::load(root, config, sources, UsageIndex::new()).unwrap()
}

#[test]
fn load_nested_fixture() {
    let snap = load("/fx/nested_project", &nested_project());
    assert_eq!(snap.index.source_locale.as_str(), "en");
    assert!(!snap.index.all_keys().is_empty());
    let missing = snap.missing_by_locale(None);
    assert!(missing
        .iter()
        .find(|(l, _)| l == "fr")
        .is_some_and(|(_, m)| m.contains(&"common.actions.cancel".to_string())));
}

#[test]
fn validate_succeeds_on_fixtures() {
    let snap = load("/fx/flat_project", &flat_project());
    assert!(snap.validate(&flat_reads()).is_empty());
}

#[test]
fn validate_reports_unreadable_and_broken_files() {
    let snap = load("/fx/flat_project", &flat_project());
    let reads = vec![
        FileRead { path: "/a/en.json".into(), content: Err("permission denied".into()) },
        FileRead { path: "/a/fr.json".into(), content: Ok(r#"{"a": }"#.into()) },
        FileRead { path: "/a/de.json".into(), content: Ok(r#"{"a": "b"}"#.into()) },
    ];
    let issues = snap.validate(&reads);
    assert_eq!(issues.len(), 2);
    assert_eq!(issues[0].path, "/a/en.json");
    assert_eq!(issues[0].message, "I/O error reading /a/en.json: permission denied");
    assert_eq!(issues[1].path, "/a/fr.json");
}

#[test]
fn load_without_locale_paths_is_an_error() {
    let config = ProjectConfig::default();
    let err = ProjectSnapshot::load("/w", config, &Vec::new(), UsageIndex::new()).unwrap_err();
    assert!(matches!(err, ProjectError::NoLocalePaths));
}

#[test]
fn check_fails_on_missing_keys() {
    let ctx = Context { format: OutputFormat::Json, snapshot: load("/fx/nested_project", &nested_project()) };
    let (_, code) = run_check(&ctx, None, Vec::new());
    assert_eq!(code, 1);
}

#[test]
fn validate_and_missing_pass_on_flat_project() {
    let ctx = Context { format: OutputFormat::Text, snapshot: load("/fx/flat_project", &flat_project()) };
    let issues = ctx.snapshot.validate(&flat_reads());
    assert_eq!(run_validate(&issues), 0);
    assert_eq!(run_missing(&ctx, None).1, 0);
}

#[test]
fn check_fails_when_keys_are_unused_without_source_scan_hits() {
    let ctx = Context { format: OutputFormat::Text, snapshot: load("/fx/flat_project", &flat_project()) };
    let (report, code) = run_check(&ctx, None, Vec::new());
    assert_eq!(code, 1);
    assert_eq!(report.unused, vec!["bye".to_string(), "hello".to_string()]);
}

#[test]
fn check_passes_when_every_key_is_used() {
    let mut usages = UsageIndex::new();
    usages.update_file("/fx/flat_project/app.ts", r#"t("hello"); t("bye");"#, "TypeScript");
    let config = ProjectConfig::auto_detect(&vec!["locales".to_string()]);
    let snapshot = ProjectSnapshot::load("/fx/flat_project", config, &flat_project(), usages).unwrap();
    let ctx = Context { format: OutputFormat::Text, snapshot };
    let (report, code) = run_check(&ctx, None, Vec::new());
    assert!(report.ok);
    assert_eq!(code, 0);
}

#[test]
fn source_locale_defaults_to_en() {
    let cfg = ProjectConfig::default();
    assert_eq!(cfg.resolved_source_locale().as_str(), "en");
}

#[test]
fn detects_monorepo_front_locale_dir() {
    let found = vec!["front/i18n/locales".to_string()];
    let cfg = ProjectConfig::auto_detect(&found);
    assert!(
        cfg.locale_paths.iter().any(|p| p == "front/i18n/locales"),
        "expected front/i18n/locales, got {:?}",
        cfg.locale_paths
    );
}

#[test]
fn detected_locale_dirs_are_sorted_and_unique() {
    let found = vec!["src/locales".to_string(), "locales".to_string(), "src/locales".to_string()];
    let cfg = ProjectConfig::auto_detect(&found);
    assert_eq!(cfg.locale_paths, vec!["locales".to_string(), "src/locales".to_string()]);
}

#[test]
fn resolved_locale_dirs_keep_existing_joined_paths() {
    let mut cfg = i18n_core::ProjectConfig::auto_detect(&vec!["locales".to_string()]);
    cfg.locale_paths = vec!["locales".to_string(), "/abs/i18n".to_string(), "src/i18n".to_string()];
    assert_eq!(cfg.resolved_locale_dirs("/ws", &vec![true, true, false]), vec!["/ws/locales".to_string(), "/abs/i18n".to_string()]);
    assert!(cfg.resolved_locale_dirs("/ws", &vec![false, false, false]).is_empty());
}

#[test]
fn join_path_adds_one_separator() {
    assert_eq!(join_path("/ws/", "x"), "/ws/x");
    assert_eq!(join_path("/ws", "x"), "/ws/x");
    assert_eq!(join_path("", "x"), "x");
    assert_eq!(join_path("/ws", "/abs"), "/abs");
}

#[test]
fn set_plan_targets_json_file_of_locale() {
    let ctx = Context { format: OutputFormat::Text, snapshot: load("/fx/flat_project", &flat_project()) };
    let (path, segs) = run_set_plan(&ctx, "a.b", "fr").unwrap();
    assert_eq!(path, "/fx/flat_project/locales/fr.json");
    assert_eq!(segs, vec!["a".to_string(), "b".to_string()]);
    assert_eq!(run_set_plan(&ctx, "a", "de").unwrap_err(), "no locale file for `de`");
    let yaml = vec![source("/fx/y/locales", "/fx/y/locales/en.yaml", "a: b\n")];
    let ctx = Context { format: OutputFormat::Text, snapshot: load("/fx/y", &yaml) };
    assert_eq!(run_set_plan(&ctx, "a", "en").unwrap_err(), "set only supports JSON locale files right now (got .yaml)");
}

#[test]
fn load_errors_read_as_the_tool_prints_them() {
    assert_eq!(load_error_message(&ProjectError::WorkspaceNotFound("/nope".into()), "/nope"), "workspace not found: /nope");
    assert_eq!(
        load_error_message(&ProjectError::NoLocalePaths, "/ws"),
        "no locale directories under /ws; add locales/ or .zed/lokalized.json"
    );
    assert_eq!(load_error_message(&ProjectError::Index(IndexError::NoLocalesFound), "/ws"), "no locale files discovered in workspace");
    assert_eq!(
        load_error_message(&ProjectError::Index(IndexError::Parse(ParseError::Syntax { offset: 12, message: "bad".into() })), "/ws"),
        "syntax error at byte offset 12: bad"
    );
    assert_eq!(
        load_error_message(&ProjectError::Parse { path: "/a.json".into(), source: ParseError::Unsupported("txt".into()) }, "/ws"),
        "/a.json: unsupported locale file format: txt"
    );
}

#[test]
fn mutation_errors_have_messages() {
    assert_eq!(MutationError::KeyAlreadyExists("a.b".into()).message(), "key `a.b` already exists");
    assert_eq!(MutationError::PathCollision("a".into()).message(), "path collision at `a` (non-object in the way)");
    assert_eq!(MutationError::EmptyPath.message(), "empty key path");
    assert_eq!(MutationError::Parse("eof".into()).message(), "JSON parse error: eof");
}
