//! A loaded workspace: configuration, locale index and source-usage scan,
//! with the checks tooling runs over them.
use vstd::prelude::*;
use vstd::string::*;
use crate::config::ProjectConfig;
use crate::index::{LocaleIndex, IndexBuilder, IndexError, SourceFile, built_from, classified, keys_of_trees, strictly_sorted, LocaleTrees};
use crate::keytree::{KeyTree, diff_from, dotted};
use crate::locale::Locale;
use crate::parser::{ParseError, LocaleEntry, parse_with_extension, parse_result_for, parses_ok};
use crate::scan::UsageIndex;
use crate::text::{views, str_lt};

verus! {

broadcast use vstd::seq::group_seq_axioms;

/// Fully loaded project state for tooling.
#[derive(Debug)]
pub struct ProjectSnapshot {
    pub root: String,
    pub config: ProjectConfig,
    pub index: LocaleIndex,
    pub usages: UsageIndex,
}

/// Why a project could not be loaded.
#[derive(Debug)]
pub enum ProjectError {
    WorkspaceNotFound(String),
    NoLocalePaths,
    Index(IndexError),
    Parse { path: String, source: ParseError },
}

/// One parse failure found by [`ProjectSnapshot::validate`].
#[derive(Debug)]
pub struct ParseIssue {
    pub path: String,
    pub message: String,
}

/// The content of a locale file as read, or the read error's message.
#[derive(Debug)]
pub struct FileRead {
    pub path: String,
    pub content: Result<String, String>,
}

/// Decimal digits of `n`.
pub open spec fn decimal(n: nat) -> Seq<char>
    decreases n,
{
    if n < 10 {
        seq![digit(n)]
    } else {
        decimal(n / 10).push(digit(n % 10))
    }
}

pub open spec fn digit(d: nat) -> char {
    if d == 0 { '0' } else if d == 1 { '1' } else if d == 2 { '2' } else if d == 3 { '3' }
    else if d == 4 { '4' } else if d == 5 { '5' } else if d == 6 { '6' } else if d == 7 { '7' }
    else if d == 8 { '8' } else { '9' }
}

pub(crate) fn digit_char(d: usize) -> (r: char)
    requires
        d < 10,
    ensures
        r == digit(d as nat),
{
    if d == 0 { '0' } else if d == 1 { '1' } else if d == 2 { '2' } else if d == 3 { '3' }
    else if d == 4 { '4' } else if d == 5 { '5' } else if d == 6 { '6' } else if d == 7 { '7' }
    else if d == 8 { '8' } else { '9' }
}

/// `n` in decimal.
pub fn decimal_string(n: usize) -> (r: String)
    ensures
        r@ == decimal(n as nat),
    decreases n,
{
    if n < 10 {
        let mut s = String::new();
        s.push(digit_char(n));
        assert(s@ =~= seq![digit(n as nat)]);
        s
    } else {
        let mut s = decimal_string(n / 10);
        s.push(digit_char(n % 10));
        s
    }
}

/// The message of an index error.
pub open spec fn index_error_message(e: IndexError) -> Seq<char> {
    match e {
        IndexError::NoLocalesFound => "no locale files discovered in workspace"@,
        IndexError::Scan { path, message } => "failed to scan "@ + path@ + ": "@ + message@,
        IndexError::Parse(p) => error_message(p),
    }
}

/// The message the command-line tool prints when `workspace` cannot be loaded.
pub open spec fn load_error_text(e: ProjectError, workspace: Seq<char>) -> Seq<char> {
    match e {
        ProjectError::WorkspaceNotFound(p) => "workspace not found: "@ + p@,
        ProjectError::NoLocalePaths => "no locale directories under "@ + workspace + "; add locales/ or .zed/lokalized.json"@,
        ProjectError::Index(i) => index_error_message(i),
        ProjectError::Parse { path, source } => path@ + ": "@ + error_message(source),
    }
}

/// See [`load_error_text`].
pub fn load_error_message(e: &ProjectError, workspace: &str) -> (r: String)
    ensures
        r@ == load_error_text(*e, workspace@),
{
    match e {
        ProjectError::WorkspaceNotFound(p) => {
            let mut s = String::from_str("workspace not found: ");
            s.append(p.as_str());
            s
        },
        ProjectError::NoLocalePaths => {
            let mut s = String::from_str("no locale directories under ");
            s.append(workspace);
            s.append("; add locales/ or .zed/lokalized.json");
            s
        },
        ProjectError::Index(IndexError::NoLocalesFound) => String::from_str("no locale files discovered in workspace"),
        ProjectError::Index(IndexError::Scan { path, message }) => {
            let mut s = String::from_str("failed to scan ");
            s.append(path.as_str());
            s.append(": ");
            s.append(message.as_str());
            s
        },
        ProjectError::Index(IndexError::Parse(p)) => parse_error_message(p),
        ProjectError::Parse { path, source } => {
            let mut s = path.clone();
            s.append(": ");
            let m = parse_error_message(source);
            s.append(m.as_str());
            s
        },
    }
}

/// The message of a parse error.
pub open spec fn error_message(e: ParseError) -> Seq<char> {
    match e {
        ParseError::Syntax { offset, message } =>
            "syntax error at byte offset "@ + decimal(offset as nat) + ": "@ + message@,
        ParseError::Io { path, message } => "I/O error reading "@ + path@ + ": "@ + message@,
        ParseError::Unsupported(f) => "unsupported locale file format: "@ + f@,
    }
}

/// The message of a parse error.
pub fn parse_error_message(e: &ParseError) -> (r: String)
    ensures
        r@ == error_message(*e),
{
    match e {
        ParseError::Syntax { offset, message } => {
            let mut s = String::from_str("syntax error at byte offset ");
            let d = decimal_string(*offset);
            s.append(d.as_str());
            s.append(": ");
            s.append(message.as_str());
            s
        },
        ParseError::Io { path, message } => {
            let mut s = String::from_str("I/O error reading ");
            s.append(path.as_str());
            s.append(": ");
            s.append(message.as_str());
            s
        },
        ParseError::Unsupported(f) => {
            let mut s = String::from_str("unsupported locale file format: ");
            s.append(f.as_str());
            s
        },
    }
}

/// The issue a file raises: its read error; `file too large` past the size
/// whose columns fit a `u32`; else its parse error, if any.
pub open spec fn issue_for(r: FileRead, pr: Result<Vec<LocaleEntry>, ParseError>) -> Option<(Seq<char>, Seq<char>)> {
    match r.content {
        Err(m) => Some((r.path@, error_message(ParseError::Io { path: r.path, message: m }))),
        Ok(text) => if 2 * vstd::utf8::encode_utf8(text@).len() > u32::MAX {
            Some((r.path@, "file too large"@))
        } else {
            match pr {
                Ok(_) => None,
                Err(e) => Some((r.path@, error_message(e))),
            }
        },
    }
}

/// The issues of `reads`, in order, each file parsing as `prs` says.
pub open spec fn issues_of(reads: Seq<FileRead>, prs: Seq<Result<Vec<LocaleEntry>, ParseError>>) -> Seq<(Seq<char>, Seq<char>)>
    decreases reads.len(),
{
    if reads.len() == 0 || prs.len() != reads.len() {
        Seq::empty()
    } else {
        let rest = issues_of(reads.drop_last(), prs.drop_last());
        match issue_for(reads.last(), prs.last()) {
            Some(x) => rest.push(x),
            None => rest,
        }
    }
}

/// `pr` is what parsing the read file gives, when it was read and is not too large.
pub open spec fn parsed_as(r: FileRead, pr: Result<Vec<LocaleEntry>, ParseError>) -> bool {
    match r.content {
        Ok(text) => 2 * vstd::utf8::encode_utf8(text@).len() <= u32::MAX
            ==> parse_result_for(vstd::utf8::encode_utf8(text@), text@, r.path@, pr),
        Err(_) => true,
    }
}

pub open spec fn issue_views(v: Seq<ParseIssue>) -> Seq<(Seq<char>, Seq<char>)> {
    v.map_values(|i: ParseIssue| (i.path@, i.message@))
}

impl ProjectSnapshot {
    /// The snapshot of a workspace from what was found on disk: its
    /// configuration, its locale files and the scan of its sources.
    pub fn load(root: &str, config: ProjectConfig, sources: &Vec<SourceFile>, usages: UsageIndex) -> (r: Result<ProjectSnapshot, ProjectError>)
        requires
            usages.wf(),
            forall|i: int| 0 <= i < sources@.len() ==> 2 * vstd::utf8::encode_utf8((#[trigger] sources@[i]).content@).len() <= u32::MAX,
        ensures
            config.locale_paths@.len() == 0 ==> r matches Err(ProjectError::NoLocalePaths),
            config.locale_paths@.len() > 0 ==> ((classified(sources@).len() == 0) <==> (r matches Err(ProjectError::Index(IndexError::NoLocalesFound)))),
            r matches Ok(s) ==> s.root@ == root@ && s.usages == usages && s.config.same_as(config)
                && exists|parsed: Seq<Vec<LocaleEntry>>| #[trigger] built_from(sources@, config, parsed, s.index),
            r matches Err(ProjectError::Index(IndexError::Parse(e))) ==> exists|j: int| 0 <= j < classified(sources@).len()
                && #[trigger] parse_result_for(vstd::utf8::encode_utf8(sources@[classified(sources@)[j]].content@),
                    sources@[classified(sources@)[j]].content@, sources@[classified(sources@)[j]].path@,
                    Err::<Vec<LocaleEntry>, ParseError>(e)),
            r matches Err(ProjectError::NoLocalePaths) ==> config.locale_paths@.len() == 0,
            r is Err ==> (r matches Err(ProjectError::NoLocalePaths) || r matches Err(ProjectError::Index(IndexError::NoLocalesFound))
                || r matches Err(ProjectError::Index(IndexError::Parse(_)))),
            config.locale_paths@.len() > 0 && classified(sources@).len() > 0
                && (forall|j: int| 0 <= j < classified(sources@).len() ==> #[trigger] parses_ok(
                    vstd::utf8::encode_utf8(sources@[classified(sources@)[j]].content@),
                    sources@[classified(sources@)[j]].content@, sources@[classified(sources@)[j]].path@))
                ==> r is Ok,
    {
        if config.locale_paths.len() == 0 {
            return Err(ProjectError::NoLocalePaths);
        }
        let index = match IndexBuilder::new(root, &config).build(sources) {
            Ok(i) => i,
            Err(e) => {
                proof {
                    let cl = classified(sources@);
                    if e is Parse {
                        let pe = e->Parse_0;
                        let j = choose|j: int| 0 <= j < cl.len()
                            && #[trigger] parse_result_for(vstd::utf8::encode_utf8(sources@[cl[j]].content@),
                                sources@[cl[j]].content@, sources@[cl[j]].path@, Err::<Vec<LocaleEntry>, ParseError>(pe));
                        if forall|j2: int| 0 <= j2 < cl.len() ==> #[trigger] parses_ok(
                            vstd::utf8::encode_utf8(sources@[cl[j2]].content@), sources@[cl[j2]].content@, sources@[cl[j2]].path@) {
                            crate::parser::lemma_parse_result_exclusive(vstd::utf8::encode_utf8(sources@[cl[j]].content@),
                                sources@[cl[j]].content@, sources@[cl[j]].path@, pe);
                        }
                    }
                }
                return Err(ProjectError::Index(e));
            },
        };
        let copy = config.duplicate();
        Ok(ProjectSnapshot { root: root.to_string(), config: copy, index, usages })
    }

    /// Re-parses every locale file read from disk: one issue per file that
    /// could not be read or does not parse, in order.
    pub fn validate(&self, reads: &Vec<FileRead>) -> (r: Vec<ParseIssue>)
        ensures
            exists|prs: Seq<Result<Vec<LocaleEntry>, ParseError>>| prs.len() == reads@.len()
                && (forall|i: int| 0 <= i < reads@.len() ==> parsed_as(#[trigger] reads@[i], prs[i]))
                && issue_views(r@) == issues_of(reads@, prs),
    {
        let ghost rs = reads@;
        let ghost mut prs: Seq<Result<Vec<LocaleEntry>, ParseError>> = Seq::empty();
        let mut issues: Vec<ParseIssue> = Vec::new();
        let mut i: usize = 0;
        while i < reads.len()
            invariant
                rs == reads@,
                i <= rs.len(),
                prs.len() == i,
                forall|k: int| 0 <= k < i ==> parsed_as(#[trigger] rs[k], prs[k]),
                issue_views(issues@) == issues_of(rs.take(i as int), prs),
            decreases rs.len() - i,
        {
            let rd = &reads[i];
            let ghost o = issue_views(issues@);
            let ghost mut pr: Result<Vec<LocaleEntry>, ParseError> = vstd::pervasive::arbitrary();
            match &rd.content {
                Err(m) => {
                    let e = ParseError::Io { path: rd.path.clone(), message: m.clone() };
                    issues.push(ParseIssue { path: rd.path.clone(), message: parse_error_message(&e) });
                },
                Ok(text) => {
                    if text.as_str().as_bytes().len() <= 0x7fff_ffff {
                        let res = parse_with_extension(text.as_str(), rd.path.as_str());
                        proof { pr = res; }
                        match res {
                            Ok(_) => {},
                            Err(e) => {
                                issues.push(ParseIssue { path: rd.path.clone(), message: parse_error_message(&e) });
                            },
                        }
                    } else {
                        issues.push(ParseIssue { path: rd.path.clone(), message: String::from_str("file too large") });
                        proof {
                            reveal_strlit("file too large");
                        }
                    }
                },
            }
            proof {
                let prs2 = prs.push(pr);
                assert(rs.take(i + 1).drop_last() =~= rs.take(i as int));
                assert(prs2.drop_last() =~= prs);
                assert(rs.take(i + 1).last() == *rd);
                assert(issue_views(issues@) =~= issues_of(rs.take(i + 1), prs2));
                prs = prs2;
            }
            i = i + 1;
        }
        assert(rs.take(rs.len() as int) =~= rs);
        issues
    }
}

/// The locales of `es` other than `source`, in order.
pub open spec fn targets_of(es: Seq<(Locale, KeyTree)>, source: Seq<char>) -> Seq<Seq<char>>
    decreases es.len(),
{
    if es.len() == 0 {
        Seq::empty()
    } else {
        let rest = targets_of(es.drop_last(), source);
        if es.last().0@ == source { rest } else { rest.push(es.last().0@) }
    }
}

/// Missing keys of `l` as [`LocaleIndex::missing_keys`] gives them.
pub open spec fn missing_of(index: LocaleIndex, l: Seq<char>) -> Seq<Seq<char>> {
    match index.trees.tree(index.source_locale@) {
        None => Seq::empty(),
        Some(src) => dotted(Seq::<Seq<char>>::empty(), diff_from(src, index.trees.tree(l), 0)),
    }
}

/// Per target locale of `ts`, its missing keys, leaving out locales missing none.
pub open spec fn missing_rows(index: LocaleIndex, ts: Seq<Seq<char>>) -> Seq<(Seq<char>, Seq<Seq<char>>)>
    decreases ts.len(),
{
    if ts.len() == 0 {
        Seq::empty()
    } else {
        let rest = missing_rows(index, ts.drop_last());
        if missing_of(index, ts.last()).len() == 0 { rest } else { rest.push((ts.last(), missing_of(index, ts.last()))) }
    }
}

pub open spec fn row_views(v: Seq<(String, Vec<String>)>) -> Seq<(Seq<char>, Seq<Seq<char>>)> {
    v.map_values(|r: (String, Vec<String>)| (r.0@, views(r.1@)))
}

impl ProjectSnapshot {
    /// Locales that have a tree, in increasing order.
    pub fn locales(&self) -> (r: Vec<&Locale>)
        ensures
            r@.len() == self.index.trees.entries@.len(),
            forall|i: int| 0 <= i < r@.len() ==> *r@[i] == #[trigger] self.index.trees.entries@[i].0,
    {
        self.index.trees.keys()
    }

    /// Every locale with a tree except the source locale, in order.
    pub fn target_locales(&self) -> (r: Vec<Locale>)
        ensures
            r@.map_values(|l: Locale| l@) == targets_of(self.index.trees.entries@, self.index.source_locale@),
    {
        let ghost es = self.index.trees.entries@;
        let mut out: Vec<Locale> = Vec::new();
        let mut i: usize = 0;
        while i < self.index.trees.entries.len()
            invariant
                es == self.index.trees.entries@,
                i <= es.len(),
                out@.map_values(|l: Locale| l@) == targets_of(es.take(i as int), self.index.source_locale@),
            decreases es.len() - i,
        {
            assert(es.take(i + 1).drop_last() =~= es.take(i as int));
            assert(es.take(i + 1).last() == es[i as int]);
            let l = &self.index.trees.entries[i].0;
            if !l.same_as(&self.index.source_locale) {
                let ghost o = out@;
                out.push(l.duplicate());
                assert(out@.map_values(|l: Locale| l@) =~= o.map_values(|l: Locale| l@).push(l@));
            }
            i = i + 1;
        }
        assert(es.take(es.len() as int) =~= es);
        out
    }

    /// Missing keys by locale code: for `only` alone (even when it misses
    /// nothing), else for every target locale that misses some, in order.
    pub fn missing_by_locale(&self, only: Option<&Locale>) -> (r: Vec<(String, Vec<String>)>)
        requires
            self.index.trees.wf(),
        ensures
            match only {
                Some(l) => row_views(r@) == seq![(l@, missing_of(self.index, l@))],
                None => row_views(r@) == missing_rows(self.index, targets_of(self.index.trees.entries@, self.index.source_locale@)),
            },
    {
        let mut out: Vec<(String, Vec<String>)> = Vec::new();
        match only {
            Some(l) => {
                let missing = self.index.missing_keys(l);
                assert(views(missing@) =~= missing_of(self.index, l@));
                out.push((String::from_str(l.as_str()), missing));
                assert(row_views(out@) =~= seq![(l@, missing_of(self.index, l@))]);
            },
            None => {
                let targets = self.target_locales();
                let ghost ts = targets@.map_values(|l: Locale| l@);
                let mut i: usize = 0;
                while i < targets.len()
                    invariant
                        self.index.trees.wf(),
                        ts == targets@.map_values(|l: Locale| l@),
                        i <= ts.len(),
                        row_views(out@) == missing_rows(self.index, ts.take(i as int)),
                    decreases ts.len() - i,
                {
                    assert(ts.take(i + 1).drop_last() =~= ts.take(i as int));
                    assert(ts.take(i + 1).last() == targets@[i as int]@);
                    let missing = self.index.missing_keys(&targets[i]);
                    assert(views(missing@) =~= missing_of(self.index, targets@[i as int]@));
                    if missing.len() > 0 {
                        let ghost o = row_views(out@);
                        out.push((String::from_str(targets[i].as_str()), missing));
                        assert(row_views(out@) =~= o.push((targets@[i as int]@, missing_of(self.index, targets@[i as int]@))));
                    }
                    i = i + 1;
                }
                assert(ts.take(ts.len() as int) =~= ts);
            },
        }
        out
    }

    /// Keys no scanned source file uses, sorted.
    pub fn unused_keys(&self) -> (r: Vec<String>)
        requires
            self.usages.wf(),
        ensures
            strictly_sorted(views(r@)),
            forall|x: Seq<char>| #[trigger] views(r@).contains(x) <==> (keys_of_trees(self.index.trees.entries@).contains(x)
                && !exists|p: Seq<char>| #[trigger] self.usages.view().contains_key(p) && self.usages.view()[p].contains(x)),
    {
        self.index.unused_keys(&self.usages)
    }
}

} // verus!
