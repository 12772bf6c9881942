use i18n_core::binary::{
    absolutize, extension_dev_root, extension_repo_roots, home_cargo_bin_path, sibling_path, local_binary_filename, local_build_candidates,
    newest_cached_version, no_binary_help, push_unique, release_asset_name, Architecture, BinaryInstaller, Os,
};

#[test]
fn release_asset_names_per_platform() {
    assert_eq!(release_asset_name("lokalized-lsp", Os::Linux, Architecture::X8664).unwrap(), "lokalized-lsp-x86_64-unknown-linux-gnu");
    assert_eq!(release_asset_name("lokalized-lsp", Os::Mac, Architecture::Aarch64).unwrap(), "lokalized-lsp-aarch64-apple-darwin");
    assert_eq!(release_asset_name("lokalized-mcp", Os::Windows, Architecture::X8664).unwrap(), "lokalized-mcp-x86_64-pc-windows-msvc.exe");
    assert_eq!(release_asset_name("lokalized-lsp", Os::Windows, Architecture::Aarch64).unwrap_err(), "unsupported platform/architecture: Aarch64");
    assert_eq!(release_asset_name("lokalized-lsp", Os::Mac, Architecture::X86).unwrap_err(), "unsupported platform/architecture: X86");
}

#[test]
fn local_file_name_has_exe_on_windows() {
    assert_eq!(local_binary_filename("lokalized-mcp", Os::Windows), "lokalized-mcp.exe");
    assert_eq!(local_binary_filename("lokalized-mcp", Os::Linux), "lokalized-mcp");
}

#[test]
fn repo_roots_keep_checkouts_once_in_order() {
    let cands = vec![
        ("/r".to_string(), true),
        ("/x".to_string(), false),
        ("/r".to_string(), true),
        ("/cwd".to_string(), true),
    ];
    assert_eq!(extension_repo_roots(&cands), vec!["/r".to_string(), "/cwd".to_string()]);
    assert_eq!(extension_dev_root(&cands).as_deref(), Some("/r"));
    assert_eq!(extension_dev_root(&vec![("/x".to_string(), false)]), None);
    let mut roots = vec!["/a".to_string()];
    push_unique(&mut roots, "/a".to_string());
    push_unique(&mut roots, "/b".to_string());
    assert_eq!(roots, vec!["/a".to_string(), "/b".to_string()]);
}

#[test]
fn local_builds_release_before_debug() {
    let roots = vec!["/r".to_string(), "/s/".to_string()];
    assert_eq!(
        local_build_candidates(&roots, "lokalized-lsp"),
        vec![
            "/r/target/release/lokalized-lsp".to_string(),
            "/r/target/debug/lokalized-lsp".to_string(),
            "/s/target/release/lokalized-lsp".to_string(),
            "/s/target/debug/lokalized-lsp".to_string(),
        ]
    );
}

#[test]
fn newest_cached_version_is_greatest_with_binary() {
    let entries = vec![
        ("lokalized-lsp-v0.1.0".to_string(), true),
        ("lokalized-lsp-v0.3.0".to_string(), false),
        ("lokalized-lsp-v0.2.0".to_string(), true),
        ("lokalized-mcp-v9.0.0".to_string(), true),
        ("other".to_string(), true),
    ];
    assert_eq!(newest_cached_version("lokalized-lsp", &entries).as_deref(), Some("lokalized-lsp-v0.2.0"));
    assert_eq!(newest_cached_version("lokalized-mcp", &entries).as_deref(), Some("lokalized-mcp-v9.0.0"));
    assert_eq!(newest_cached_version("lokalized", &vec![("lokalized".to_string(), true)]), None);
}

#[test]
fn no_binary_help_explains_local_setup() {
    assert_eq!(
        no_binary_help("lokalized-lsp"),
        "could not find `lokalized-lsp`. There is no published release on https://github.com/edimitchel/lokalized/releases yet.\n\nLocal development:\n1. In the extension repo: `cargo build -p lokalized-lsp --release`\n2. Either copy to `~/.cargo/bin/`, or set `LOKALIZED_LSP_PATH` in Zed settings, or set `LOKALIZED_EXTENSION_ROOT` to the extension repo path."
    );
}

#[test]
fn installer_starts_empty() {
    let b = BinaryInstaller::new();
    assert!(b.cached_lsp.is_none() && b.cached_mcp.is_none());
}

#[test]
fn binary_locations_are_joined_paths() {
    assert_eq!(home_cargo_bin_path("/home/me", "lokalized-lsp"), "/home/me/.cargo/bin/lokalized-lsp");
    assert_eq!(sibling_path("/home/me/.cargo/bin/lokalized-lsp", "lokalized-mcp"), "/home/me/.cargo/bin/lokalized-mcp");
    assert_eq!(absolutize("/abs/x", Some("/cwd")), "/abs/x");
    assert_eq!(absolutize("rel/x", Some("/cwd")), "/cwd/rel/x");
    assert_eq!(absolutize("rel/x", None), "rel/x");
}
