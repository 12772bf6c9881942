//! Project configuration (`.zed/lokalized.json`) and locale-directory detection rules.
use vstd::prelude::*;
use crate::text::{views, str_eq, lemma_contains_push};
use crate::index::{strictly_sorted, insert_sorted_unique, is_locale_extension, is_locale_ext_str};
use crate::paths::{extension_of, extension, joined_path, join_path};
use crate::locale::{Locale, normalize_locale};

verus! {

/// Configuration for a Lokalized-enabled workspace. All fields are
/// optional; missing values fall back to filesystem heuristics.
#[derive(Debug)]
pub struct ProjectConfig {
    /// Directories (relative to the workspace root) to scan for locale files.
    pub locale_paths: Vec<String>,
    /// The source locale (defaults to `"en"`).
    pub source_locale: Option<String>,
    /// Explicitly enabled frameworks by id; empty means "auto".
    pub enabled_frameworks: Vec<String>,
    /// Key style: `nested` (a.b.c) vs `flat` (literal dotted key), or `auto`.
    pub key_style: Option<KeyStyle>,
    /// In nested layouts, whether the filename stem is prepended as the
    /// top-level namespace of every key (default `true`).
    pub namespace: Option<bool>,
}

#[derive(Clone, Copy, Debug, Eq, PartialEq, Structural)]
pub enum KeyStyle {
    Nested,
    Flat,
    Auto,
}

impl Default for KeyStyle {
    fn default() -> (r: KeyStyle)
        ensures
            r == KeyStyle::Auto,
    {
        KeyStyle::Auto
    }
}

/// The paths of `paths` joined onto `root` whose flag in `is_dir` is set, in order.
pub open spec fn kept_dirs(root: Seq<char>, paths: Seq<Seq<char>>, is_dir: Seq<bool>) -> Seq<Seq<char>>
    decreases paths.len(),
{
    if paths.len() == 0 {
        Seq::empty()
    } else {
        let prev = kept_dirs(root, paths.drop_last(), is_dir.take(paths.len() - 1));
        if is_dir[paths.len() - 1] {
            prev.push(joined_path(root, paths.last()))
        } else {
            prev
        }
    }
}

impl ProjectConfig {
    /// The configured locale directories under `workspace_root` that exist:
    /// `is_dir[i]` tells whether the `i`-th of them, joined onto the root
    /// with [`join_path`], is a directory.
    pub fn resolved_locale_dirs(&self, workspace_root: &str, is_dir: &Vec<bool>) -> (r: Vec<String>)
        requires
            is_dir@.len() == self.locale_paths@.len(),
        ensures
            views(r@) == kept_dirs(workspace_root@, views(self.locale_paths@), is_dir@),
    {
        let ghost ps = views(self.locale_paths@);
        let mut out: Vec<String> = Vec::new();
        let mut i: usize = 0;
        while i < self.locale_paths.len()
            invariant
                ps == views(self.locale_paths@),
                is_dir@.len() == ps.len(),
                i <= ps.len(),
                views(out@) == kept_dirs(workspace_root@, ps.take(i as int), is_dir@.take(i as int)),
            decreases ps.len() - i,
        {
            assert(ps.take(i + 1).drop_last() =~= ps.take(i as int));
            assert(is_dir@.take(i + 1).take(i as int) =~= is_dir@.take(i as int));
            if is_dir[i] {
                let j = join_path(workspace_root, self.locale_paths[i].as_str());
                let ghost o = views(out@);
                out.push(j);
                assert(views(out@) =~= o.push(j@));
            }
            i = i + 1;
        }
        assert(ps.take(ps.len() as int) =~= ps);
        assert(is_dir@.take(ps.len() as int) =~= is_dir@);
        out
    }
}

/// Copies of the strings of `v`.
pub fn clone_strings(v: &Vec<String>) -> (r: Vec<String>)
    ensures
        views(r@) == views(v@),
{
    let mut r: Vec<String> = Vec::new();
    let mut i: usize = 0;
    while i < v.len()
        invariant
            i <= v@.len(),
            views(r@) == views(v@.take(i as int)),
        decreases v@.len() - i,
    {
        r.push(v[i].clone());
        assert(views(v@.take(i + 1)) =~= views(v@.take(i as int)).push(v@[i as int]@));
        i = i + 1;
    }
    assert(v@.take(v@.len() as int) =~= v@);
    r
}

pub fn clone_opt_string(s: &Option<String>) -> (r: Option<String>)
    ensures
        r is Some == s is Some,
        r is Some ==> r->0@ == s->0@,
{
    match s {
        Some(x) => Some(x.clone()),
        None => None,
    }
}

impl Default for ProjectConfig {
    fn default() -> (r: ProjectConfig)
        ensures
            r.locale_paths@.len() == 0,
            r.source_locale is None,
            r.enabled_frameworks@.len() == 0,
            r.key_style is None,
            r.namespace is None,
    {
        ProjectConfig {
            locale_paths: Vec::new(),
            source_locale: None,
            enabled_frameworks: Vec::new(),
            key_style: None,
            namespace: None,
        }
    }
}

impl ProjectConfig {
    /// Whether the filename stem is prepended as the top-level namespace.
    pub open spec fn spec_use_file_namespace(&self) -> bool {
        match self.namespace {
            Some(b) => b,
            None => true,
        }
    }

    #[verifier::when_used_as_spec(spec_use_file_namespace)]
    pub fn use_file_namespace(&self) -> (r: bool)
        ensures
            r == self.spec_use_file_namespace(),
    {
        match self.namespace {
            Some(b) => b,
            None => true,
        }
    }

    /// Code of the configured source locale, `"en"` when unset.
    pub open spec fn source_locale_code(&self) -> Seq<char> {
        match self.source_locale {
            Some(s) => normalize_locale(s@),
            None => seq!['e', 'n'],
        }
    }

    /// The configured source locale, `"en"` when unset.
    pub fn resolved_source_locale(&self) -> (r: Locale)
        ensures
            r@ == self.source_locale_code(),
    {
        match &self.source_locale {
            Some(s) => Locale::new(s.as_str()),
            None => {
                let r = Locale::new("en");
                proof {
                    reveal_strlit("en");
                    assert(normalize_locale("en"@) =~= seq!['e', 'n']);
                }
                r
            },
        }
    }

    /// An equal copy of this configuration.
    pub fn duplicate(&self) -> (r: ProjectConfig)
        ensures
            r.same_as(*self),
    {
        ProjectConfig {
            locale_paths: clone_strings(&self.locale_paths),
            source_locale: clone_opt_string(&self.source_locale),
            enabled_frameworks: clone_strings(&self.enabled_frameworks),
            key_style: self.key_style,
            namespace: self.namespace,
        }
    }

    /// Equal field by field.
    pub open spec fn same_as(&self, other: ProjectConfig) -> bool {
        &&& views(self.locale_paths@) == views(other.locale_paths@)
        &&& (self.source_locale is Some) == (other.source_locale is Some)
        &&& self.source_locale is Some ==> self.source_locale->0@ == other.source_locale->0@
        &&& views(self.enabled_frameworks@) == views(other.enabled_frameworks@)
        &&& self.key_style == other.key_style
        &&& self.namespace == other.namespace
    }
}


/// Directories commonly holding locale files at a workspace root, then
/// common locale roots of monorepos.
pub open spec fn candidate_dirs() -> Seq<Seq<char>> {
    seq![
        "locales"@, "src/locales"@, "i18n/locales"@, "i18n"@, "public/locales"@, "lib/l10n"@,
        "app/locales"@, "assets/locales"@,
        "front/i18n/locales"@, "front/locales"@, "frontend/i18n/locales"@, "frontend/locales"@,
        "client/i18n/locales"@, "client/locales"@, "web/i18n/locales"@, "web/locales"@,
        "apps/web/locales"@, "apps/frontend/locales"@, "packages/app/locales"@,
    ]
}

/// The directories tried, in order, before walking the workspace.
pub fn candidate_locale_dirs() -> (r: Vec<&'static str>)
    ensures
        r@.map_values(|s: &'static str| s@) == candidate_dirs(),
{
    let mut v: Vec<&'static str> = Vec::new();
    v.push("locales");
    v.push("src/locales");
    v.push("i18n/locales");
    v.push("i18n");
    v.push("public/locales");
    v.push("lib/l10n");
    v.push("app/locales");
    v.push("assets/locales");
    v.push("front/i18n/locales");
    v.push("front/locales");
    v.push("frontend/i18n/locales");
    v.push("frontend/locales");
    v.push("client/i18n/locales");
    v.push("client/locales");
    v.push("web/i18n/locales");
    v.push("web/locales");
    v.push("apps/web/locales");
    v.push("apps/frontend/locales");
    v.push("packages/app/locales");
    assert(v@.map_values(|s: &'static str| s@) =~= candidate_dirs());
    v
}

/// Depth of the walk looking for locale directories.
pub const DISCOVER_MAX_DEPTH: usize = 8;

/// Names of the directories a workspace walk looks for.
pub fn is_locale_dir_name(name: &str) -> (r: bool)
    ensures
        r == (name@ == "locales"@ || name@ == "l10n"@),
{
    str_eq(name, "locales") || str_eq(name, "l10n")
}

/// Directory names a workspace walk skips.
pub open spec fn discover_excluded() -> Seq<Seq<char>> {
    seq![
        "node_modules"@, "dist"@, "build"@, "out"@, "target"@, "coverage"@, ".git"@, ".nuxt"@,
        ".output"@, ".next"@, ".svelte-kit"@, ".turbo"@, ".vercel"@, ".cache"@, ".idea"@, ".vscode"@,
        ".pnpm-store"@, "vendor"@,
    ]
}

fn discover_excluded_names() -> (r: Vec<&'static str>)
    ensures
        r@.map_values(|s: &'static str| s@) == discover_excluded(),
{
    let mut v: Vec<&'static str> = Vec::new();
    v.push("node_modules");
    v.push("dist");
    v.push("build");
    v.push("out");
    v.push("target");
    v.push("coverage");
    v.push(".git");
    v.push(".nuxt");
    v.push(".output");
    v.push(".next");
    v.push(".svelte-kit");
    v.push(".turbo");
    v.push(".vercel");
    v.push(".cache");
    v.push(".idea");
    v.push(".vscode");
    v.push(".pnpm-store");
    v.push("vendor");
    assert(v@.map_values(|s: &'static str| s@) =~= discover_excluded());
    v
}

/// Some `/`-separated component of `path` is a skipped directory name.
pub open spec fn has_excluded_component(path: Seq<char>) -> bool {
    exists|c: Seq<char>| #[trigger] crate::text::split_spec(path, '/').contains(c) && discover_excluded().contains(c)
}

/// Whether a workspace walk skips `path`.
pub fn is_excluded_discover_dir(path: &str) -> (r: bool)
    ensures
        r == has_excluded_component(path@),
{
    let parts = crate::text::split_char(path, '/');
    let names = discover_excluded_names();
    let ghost ps = views(parts@);
    let ghost ns = discover_excluded();
    let mut i: usize = 0;
    while i < parts.len()
        invariant
            ps == views(parts@),
            ps == crate::text::split_spec(path@, '/'),
            ns == discover_excluded(),
            names@.map_values(|s: &'static str| s@) == ns,
            i <= ps.len(),
            forall|k: int| 0 <= k < i ==> !ns.contains(#[trigger] ps[k]),
        decreases ps.len() - i,
    {
        let mut j: usize = 0;
        while j < names.len()
            invariant
                ps == views(parts@),
                ps == crate::text::split_spec(path@, '/'),
                ns == discover_excluded(),
                names@.map_values(|s: &'static str| s@) == ns,
                i < ps.len(),
                j <= ns.len(),
                forall|k: int| 0 <= k < j ==> ns[k] != ps[i as int],
            decreases ns.len() - j,
        {
            assert(ns[j as int] == names@[j as int]@);
            if str_eq(names[j], parts[i].as_str()) {
                proof {
                    assert(ns.contains(ps[i as int]));
                    assert(ps.contains(ps[i as int]));
                }
                return true;
            }
            j = j + 1;
        }
        assert(!ns.contains(ps[i as int])) by {
            if ns.contains(ps[i as int]) {
                let k = choose|k: int| 0 <= k < ns.len() && ns[k] == ps[i as int];
            }
        }
        i = i + 1;
    }
    proof {
        assert forall|c: Seq<char>| !(#[trigger] ps.contains(c) && ns.contains(c)) by {
            if ps.contains(c) {
                let k = choose|k: int| 0 <= k < ps.len() && ps[k] == c;
            }
        }
    }
    false
}

/// Whether `path` names a locale data file (by its extension).
pub fn is_locale_data_file(path: &str) -> (r: bool)
    ensures
        r == (extension_of(path@) matches Some(e) && is_locale_extension(e)),
{
    match extension(path) {
        Some(e) => is_locale_ext_str(e.as_str()),
        None => false,
    }
}

/// `found`, sorted, each once.
pub fn detect_locale_dirs(found: &Vec<String>) -> (r: Vec<String>)
    ensures
        strictly_sorted(views(r@)),
        forall|x: Seq<char>| #[trigger] views(r@).contains(x) <==> views(found@).contains(x),
{
    let mut out: Vec<String> = Vec::new();
    let mut i: usize = 0;
    while i < found.len()
        invariant
            i <= found@.len(),
            strictly_sorted(views(out@)),
            forall|x: Seq<char>| #[trigger] views(out@).contains(x) <==> views(found@).take(i as int).contains(x),
        decreases found@.len() - i,
    {
        insert_sorted_unique(&mut out, found[i].clone());
        proof {
            assert(views(found@).take(i + 1) =~= views(found@).take(i as int).push(found@[i as int]@));
            lemma_contains_push(views(found@).take(i as int), found@[i as int]@);
        }
        i = i + 1;
    }
    assert(views(found@).take(found@.len() as int) =~= views(found@));
    out
}

impl ProjectConfig {
    /// The configuration found by looking at the workspace: the locale
    /// directories found, everything else by default.
    pub fn auto_detect(found: &Vec<String>) -> (r: ProjectConfig)
        ensures
            strictly_sorted(views(r.locale_paths@)),
            forall|x: Seq<char>| #[trigger] views(r.locale_paths@).contains(x) <==> views(found@).contains(x),
            r.source_locale is None,
            r.enabled_frameworks@.len() == 0,
            r.key_style is None,
            r.namespace is None,
    {
        ProjectConfig {
            locale_paths: detect_locale_dirs(found),
            source_locale: None,
            enabled_frameworks: Vec::new(),
            key_style: None,
            namespace: None,
        }
    }

    /// This configuration, with the locale directories found when it sets none.
    pub fn with_auto_detected_fallback(self, found: &Vec<String>) -> (r: ProjectConfig)
        ensures
            self.locale_paths@.len() > 0 ==> r.same_as(self),
            self.locale_paths@.len() == 0 ==> strictly_sorted(views(r.locale_paths@))
                && (forall|x: Seq<char>| #[trigger] views(r.locale_paths@).contains(x) <==> views(found@).contains(x)),
            r.source_locale == self.source_locale,
            r.namespace == self.namespace,
            r.key_style == self.key_style,
            views(r.enabled_frameworks@) == views(self.enabled_frameworks@),
    {
        let mut cfg = self;
        if cfg.locale_paths.len() == 0 {
            cfg.locale_paths = detect_locale_dirs(found);
        }
        cfg
    }
}

} // verus!
