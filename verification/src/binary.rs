//! Where the editor extension finds the language-server and MCP binaries:
//! release asset names per platform, local build and cache locations, and
//! the extension checkout roots. Probing the disk and the environment is the
//! caller's part; these functions decide from what it found.
use vstd::prelude::*;
use crate::text::{str_eq, str_lt, order_str, lemma_str_lt_order, views};
use crate::paths::{joined_path, join_path};
use crate::cli::{starts_with};
use crate::index::has_prefix;

verus! {

broadcast use vstd::seq::group_seq_axioms;

/// The repository whose releases carry the binaries.
pub const GITHUB_REPO: &'static str = "edimitchel/lokalized";

/// The operating system the editor runs on.
#[derive(Clone, Copy, Debug, PartialEq, Eq, Structural)]
pub enum Os {
    Mac,
    Linux,
    Windows,
}

/// The processor architecture the editor runs on.
#[derive(Clone, Copy, Debug, PartialEq, Eq, Structural)]
pub enum Architecture {
    Aarch64,
    X86,
    X8664,
}

/// The name an architecture is printed with.
pub open spec fn arch_name(a: Architecture) -> Seq<char> {
    match a {
        Architecture::Aarch64 => "Aarch64"@,
        Architecture::X86 => "X86"@,
        Architecture::X8664 => "X8664"@,
    }
}

/// The target triple of the release built for a platform, if there is one.
pub open spec fn release_triple(platform: Os, arch: Architecture) -> Option<Seq<char>> {
    match (platform, arch) {
        (Os::Mac, Architecture::Aarch64) => Some("aarch64-apple-darwin"@),
        (Os::Mac, Architecture::X8664) => Some("x86_64-apple-darwin"@),
        (Os::Linux, Architecture::Aarch64) => Some("aarch64-unknown-linux-gnu"@),
        (Os::Linux, Architecture::X8664) => Some("x86_64-unknown-linux-gnu"@),
        (Os::Windows, Architecture::X8664) => Some("x86_64-pc-windows-msvc"@),
        _ => None,
    }
}

/// The name of the release asset of `binary_name` for a platform:
/// `{binary_name}-{triple}`, with `.exe` on Windows; an error naming the
/// architecture where no release is built.
pub fn release_asset_name(binary_name: &str, platform: Os, arch: Architecture) -> (r: Result<String, String>)
    ensures
        release_triple(platform, arch) is None ==> (r matches Err(m)
            && m@ == "unsupported platform/architecture: "@ + arch_name(arch)),
        release_triple(platform, arch) is Some && platform != Os::Windows ==> (r matches Ok(s)
            && s@ == binary_name@ + "-"@ + release_triple(platform, arch).unwrap()),
        release_triple(platform, arch) is Some && platform == Os::Windows ==> (r matches Ok(s)
            && s@ == binary_name@ + "-"@ + release_triple(platform, arch).unwrap() + ".exe"@),
{
    let triple = match (platform, arch) {
        (Os::Mac, Architecture::Aarch64) => "aarch64-apple-darwin",
        (Os::Mac, Architecture::X8664) => "x86_64-apple-darwin",
        (Os::Linux, Architecture::Aarch64) => "aarch64-unknown-linux-gnu",
        (Os::Linux, Architecture::X8664) => "x86_64-unknown-linux-gnu",
        (Os::Windows, Architecture::X8664) => "x86_64-pc-windows-msvc",
        (_, a) => {
            let mut m = String::from_str("unsupported platform/architecture: ");
            match a {
                Architecture::Aarch64 => m.append("Aarch64"),
                Architecture::X86 => m.append("X86"),
                Architecture::X8664 => m.append("X8664"),
            }
            return Err(m);
        },
    };
    let mut s = binary_name.to_string();
    s.append("-");
    s.append(triple);
    if platform == Os::Windows {
        s.append(".exe");
    }
    Ok(s)
}

/// The file name of `binary_name` on a platform: `.exe` added on Windows.
pub fn local_binary_filename(binary_name: &str, platform: Os) -> (r: String)
    ensures
        platform == Os::Windows ==> r@ == binary_name@ + ".exe"@,
        platform != Os::Windows ==> r@ == binary_name@,
{
    let mut s = binary_name.to_string();
    if platform == Os::Windows {
        s.append(".exe");
    }
    s
}

/// Adds `path` to `roots` unless it is there already.
pub fn push_unique(roots: &mut Vec<String>, path: String)
    ensures
        views(old(roots)@).contains(path@) ==> views(final(roots)@) == views(old(roots)@),
        !views(old(roots)@).contains(path@) ==> views(final(roots)@) == views(old(roots)@).push(path@),
{
    let ghost before = views(roots@);
    let mut i: usize = 0;
    while i < roots.len()
        invariant
            before == views(roots@),
            i <= roots@.len(),
            forall|j: int| 0 <= j < i ==> roots@[j]@ != path@,
        decreases roots@.len() - i,
    {
        if str_eq(roots[i].as_str(), path.as_str()) {
            assert(before[i as int] == path@);
            return;
        }
        i = i + 1;
    }
    assert(!before.contains(path@)) by {
        if before.contains(path@) {
            let j = choose|j: int| 0 <= j < before.len() && before[j] == path@;
            assert(roots@[j]@ == path@);
        }
    }
    roots.push(path);
    assert(views(roots@) =~= before.push(path@));
}

/// The candidates flagged as extension checkouts, in order, each once.
pub open spec fn unique_roots(cs: Seq<(Seq<char>, bool)>) -> Seq<Seq<char>>
    decreases cs.len(),
{
    if cs.len() == 0 {
        Seq::empty()
    } else {
        let prev = unique_roots(cs.drop_last());
        let c = cs.last();
        if c.1 && !prev.contains(c.0) {
            prev.push(c.0)
        } else {
            prev
        }
    }
}

pub open spec fn candidate_views(cs: Seq<(String, bool)>) -> Seq<(Seq<char>, bool)> {
    cs.map_values(|c: (String, bool)| (c.0@, c.1))
}

/// The extension checkouts among `candidates`: each is a path with whether
/// it holds both `extension.toml` and `Cargo.toml`, in the order they are
/// looked at (the root named by the environment first, then the working
/// directory).
pub fn extension_repo_roots(candidates: &Vec<(String, bool)>) -> (r: Vec<String>)
    ensures
        views(r@) == unique_roots(candidate_views(candidates@)),
{
    let ghost cs = candidate_views(candidates@);
    let mut roots: Vec<String> = Vec::new();
    let mut i: usize = 0;
    while i < candidates.len()
        invariant
            cs == candidate_views(candidates@),
            i <= cs.len(),
            views(roots@) == unique_roots(cs.take(i as int)),
        decreases cs.len() - i,
    {
        assert(cs.take(i + 1).drop_last() =~= cs.take(i as int));
        if candidates[i].1 {
            push_unique(&mut roots, candidates[i].0.clone());
        }
        i = i + 1;
    }
    assert(cs.take(cs.len() as int) =~= cs);
    roots
}

/// The first extension checkout among `candidates`, if any.
pub fn extension_dev_root(candidates: &Vec<(String, bool)>) -> (r: Option<String>)
    ensures
        unique_roots(candidate_views(candidates@)).len() == 0 ==> r is None,
        unique_roots(candidate_views(candidates@)).len() > 0 ==> (r matches Some(p)
            && p@ == unique_roots(candidate_views(candidates@))[0]),
{
    let roots = extension_repo_roots(candidates);
    if roots.len() == 0 {
        None
    } else {
        Some(roots[0].clone())
    }
}

/// Where a local build of `exe` may lie under each root, in the order they
/// are tried: the release build, then the debug build.
pub open spec fn build_candidates(roots: Seq<Seq<char>>, exe: Seq<char>) -> Seq<Seq<char>>
    decreases roots.len(),
{
    if roots.len() == 0 {
        Seq::empty()
    } else {
        let r = roots.last();
        build_candidates(roots.drop_last(), exe)
            + seq![joined_path(joined_path(r, "target/release"@), exe), joined_path(joined_path(r, "target/debug"@), exe)]
    }
}

pub fn local_build_candidates(roots: &Vec<String>, exe: &str) -> (r: Vec<String>)
    ensures
        views(r@) == build_candidates(views(roots@), exe@),
{
    let ghost rs = views(roots@);
    let mut out: Vec<String> = Vec::new();
    let mut i: usize = 0;
    while i < roots.len()
        invariant
            rs == views(roots@),
            i <= rs.len(),
            views(out@) == build_candidates(rs.take(i as int), exe@),
        decreases rs.len() - i,
    {
        assert(rs.take(i + 1).drop_last() =~= rs.take(i as int));
        assert(rs.take(i + 1).last() == roots@[i as int]@);
        let rel = join_path(roots[i].as_str(), "target/release");
        let dbg = join_path(roots[i].as_str(), "target/debug");
        let a = join_path(rel.as_str(), exe);
        let b = join_path(dbg.as_str(), exe);
        let ghost o = views(out@);
        out.push(a);
        out.push(b);
        assert(views(out@) =~= o + seq![a@, b@]);
        i = i + 1;
    }
    assert(rs.take(rs.len() as int) =~= rs);
    out
}

/// A directory of a downloaded release of `binary_name`: named
/// `{binary_name}-…` and holding the binary.
pub open spec fn is_release_dir(binary_name: Seq<char>, e: (Seq<char>, bool)) -> bool {
    e.1 && has_prefix(e.0, binary_name + "-"@)
}

/// The newest downloaded release of `binary_name` among the entries of the
/// extension directory (each a name with whether it holds the binary): the
/// greatest such name, as strings order.
pub fn newest_cached_version(binary_name: &str, entries: &Vec<(String, bool)>) -> (r: Option<String>)
    ensures
        r is None <==> !(exists|i: int| 0 <= i < entries@.len()
            && #[trigger] is_release_dir(binary_name@, candidate_views(entries@)[i])),
        r matches Some(n) ==> (exists|i: int| 0 <= i < entries@.len()
            && #[trigger] is_release_dir(binary_name@, candidate_views(entries@)[i]) && entries@[i].0@ == n@),
        r matches Some(n) ==> (forall|i: int| 0 <= i < entries@.len()
            && #[trigger] is_release_dir(binary_name@, candidate_views(entries@)[i]) ==> !str_lt(n@, entries@[i].0@)),
{
    let ghost es = candidate_views(entries@);
    let mut prefix = binary_name.to_string();
    prefix.append("-");
    let mut best: Option<usize> = None;
    let mut i: usize = 0;
    while i < entries.len()
        invariant
            es == candidate_views(entries@),
            prefix@ == binary_name@ + "-"@,
            i <= entries@.len(),
            best is None <==> !(exists|j: int| 0 <= j < i && #[trigger] is_release_dir(binary_name@, es[j])),
            best matches Some(b) ==> b < i && is_release_dir(binary_name@, es[b as int]),
            best matches Some(b) ==> (forall|j: int| 0 <= j < i && #[trigger] is_release_dir(binary_name@, es[j])
                ==> !str_lt(entries@[b as int].0@, entries@[j].0@)),
        decreases entries@.len() - i,
    {
        let ok = entries[i].1 && starts_with(entries[i].0.as_str(), prefix.as_str());
        assert(ok == is_release_dir(binary_name@, es[i as int]));
        if ok {
            match best {
                None => {
                    best = Some(i);
                    proof {
                        lemma_str_lt_order(entries@[i as int].0@, entries@[i as int].0@, entries@[i as int].0@);
                    }
                },
                Some(b) => {
                    if order_str(entries[b].0.as_str(), entries[i].0.as_str()) < 0 {
                        proof {
                            assert forall|j: int| 0 <= j <= i && #[trigger] is_release_dir(binary_name@, es[j])
                                implies !str_lt(entries@[i as int].0@, entries@[j].0@) by {
                                lemma_str_lt_order(entries@[i as int].0@, entries@[j].0@, entries@[b as int].0@);
                                lemma_str_lt_order(entries@[b as int].0@, entries@[i as int].0@, entries@[j].0@);
                                lemma_str_lt_order(entries@[j].0@, entries@[b as int].0@, entries@[i as int].0@);
                            }
                        }
                        best = Some(i);
                    } else {
                        proof {
                            lemma_str_lt_order(entries@[b as int].0@, entries@[i as int].0@, entries@[b as int].0@);
                        }
                    }
                },
            }
        }
        i = i + 1;
    }
    match best {
        Some(b) => Some(entries[b].0.clone()),
        None => None,
    }
}

/// What to tell the user when no binary can be found or downloaded.
pub fn no_binary_help(binary_name: &str) -> (r: String)
    ensures
        r@ == "could not find `"@ + binary_name@ + "`. There is no published release on https://github.com/"@
            + GITHUB_REPO@ + "/releases yet.\n\nLocal development:\n1. In the extension repo: `cargo build -p "@
            + binary_name@ + " --release`\n2. Either copy to `~/.cargo/bin/`, or set `LOKALIZED_LSP_PATH` in Zed settings, or set `LOKALIZED_EXTENSION_ROOT` to the extension repo path."@,
{
    let mut m = String::from_str("could not find `");
    m.append(binary_name);
    m.append("`. There is no published release on https://github.com/");
    m.append(GITHUB_REPO);
    m.append("/releases yet.\n\nLocal development:\n1. In the extension repo: `cargo build -p ");
    m.append(binary_name);
    m.append(" --release`\n2. Either copy to `~/.cargo/bin/`, or set `LOKALIZED_LSP_PATH` in Zed settings, or set `LOKALIZED_EXTENSION_ROOT` to the extension repo path.");
    m
}

/// Paths found earlier for the two binaries, kept across requests.
#[derive(Debug)]
pub struct BinaryInstaller {
    pub cached_lsp: Option<String>,
    pub cached_mcp: Option<String>,
}

impl BinaryInstaller {
    /// Nothing found yet.
    pub fn new() -> (r: BinaryInstaller)
        ensures
            r.cached_lsp is None,
            r.cached_mcp is None,
    {
        BinaryInstaller { cached_lsp: None, cached_mcp: None }
    }
}

/// Where `cargo install` puts `exe`: `{home}/.cargo/bin/{exe}`.
pub fn home_cargo_bin_path(home: &str, exe: &str) -> (r: String)
    ensures
        r@ == joined_path(joined_path(joined_path(home@, ".cargo"@), "bin"@), exe@),
{
    let a = join_path(home, ".cargo");
    let b = join_path(a.as_str(), "bin");
    join_path(b.as_str(), exe)
}

/// `exe` in the directory of the binary at `binary_path`.
pub fn sibling_path(binary_path: &str, exe: &str) -> (r: String)
    ensures
        r@ == joined_path(crate::paths::parent_of(binary_path@), exe@),
{
    let dir = crate::paths::parent(binary_path);
    join_path(dir.as_str(), exe)
}

/// `path` made absolute against the working directory `cwd`, when it is
/// relative and the working directory is known.
pub fn absolutize(path: &str, cwd: Option<&str>) -> (r: String)
    ensures
        path@.len() > 0 && path@[0] == '/' ==> r@ == path@,
        !(path@.len() > 0 && path@[0] == '/') ==> r@ == match cwd {
            Some(c) => joined_path(c@, path@),
            None => path@,
        },
{
    let cs = crate::text::chars_of(path);
    if cs.len() > 0 && cs[0] == '/' {
        return path.to_string();
    }
    match cwd {
        Some(c) => join_path(c, path),
        None => path.to_string(),
    }
}

} // verus!
