//! What the command-line tool computes for each command; printing and
//! exit handling are left to the caller.
use vstd::prelude::*;
use vstd::string::*;
use crate::index::{LocaleIndex, strictly_sorted, keys_of_trees, lookup_spec, lookup_pairs, lemma_lookup_spec_find, has_prefix};
use crate::keytree::{KeyTree, KeyNode, LocalizedValue, leaf_paths, find_child, leaf_at, keys_sorted, tree_wf};
use crate::linked::{resolve_value, ResolvedValue, resolve_from, Resolution, leaf_value};
use crate::locale::{Locale, normalize_locale};
use crate::project::{ProjectSnapshot, ParseIssue, missing_of, targets_of, missing_rows, row_views};
use crate::text::{views, chars_of, split_spec, str_lt, lemma_contains_push, split_char, str_eq};
use crate::edits::{file_of, file_path_of, is_editable_extension, ext_or_empty};
use crate::paths::extension;

verus! {

broadcast use vstd::seq::group_seq_axioms;

/// How results are printed.
#[derive(Clone, Copy, Debug, PartialEq, Eq, Structural)]
pub enum OutputFormat {
    Text,
    Json,
}

impl Default for OutputFormat {
    fn default() -> (r: OutputFormat)
        ensures
            r == OutputFormat::Text,
    {
        OutputFormat::Text
    }
}

/// A loaded project and the output format of a command.
#[derive(Debug)]
pub struct Context {
    pub format: OutputFormat,
    pub snapshot: ProjectSnapshot,
}

/// A parse issue as reported.
#[derive(Debug)]
pub struct ParseIssueJson {
    pub path: String,
    pub message: String,
}

impl ParseIssueJson {
    pub fn from_issue(p: ParseIssue) -> (r: ParseIssueJson)
        ensures
            r.path@ == p.path@,
            r.message@ == p.message@,
    {
        ParseIssueJson { path: p.path, message: p.message }
    }
}

/// The report of `check`.
#[derive(Debug)]
pub struct CheckReport {
    pub ok: bool,
    pub missing: Vec<(String, Vec<String>)>,
    pub unused: Vec<String>,
    pub parse_errors: Vec<ParseIssueJson>,
}

/// Every list of missing keys is empty.
pub open spec fn nothing_missing(rows: Seq<(String, Vec<String>)>) -> bool {
    forall|i: int| 0 <= i < rows.len() ==> (#[trigger] rows[i]).1@.len() == 0
}

fn all_rows_empty(rows: &Vec<(String, Vec<String>)>) -> (r: bool)
    ensures
        r == nothing_missing(rows@),
{
    let mut i: usize = 0;
    while i < rows.len()
        invariant
            i <= rows@.len(),
            forall|j: int| 0 <= j < i ==> (#[trigger] rows@[j]).1@.len() == 0,
        decreases rows@.len() - i,
    {
        if rows[i].1.len() > 0 {
            return false;
        }
        i = i + 1;
    }
    true
}

/// The report of `check`: ok when nothing is missing, unused or unparsable.
pub fn emit_check(missing: Vec<(String, Vec<String>)>, unused: Vec<String>, parse_errors: Vec<ParseIssue>) -> (r: CheckReport)
    ensures
        r.ok == (nothing_missing(missing@) && unused@.len() == 0 && parse_errors@.len() == 0),
        r.missing == missing,
        r.unused == unused,
        r.parse_errors@.len() == parse_errors@.len(),
        forall|i: int| 0 <= i < parse_errors@.len() ==> (#[trigger] r.parse_errors@[i]).path@ == parse_errors@[i].path@
            && r.parse_errors@[i].message@ == parse_errors@[i].message@,
{
    let ok = all_rows_empty(&missing) && unused.len() == 0 && parse_errors.len() == 0;
    let ghost pe = parse_errors@;
    let mut parse_errors = parse_errors;
    let mut out: Vec<ParseIssueJson> = Vec::new();
    let n = parse_errors.len();
    let mut i: usize = 0;
    while parse_errors.len() > 0
        invariant
            n == pe.len(),
            i + parse_errors@.len() == n,
            parse_errors@ == pe.subrange(i as int, n as int),
            out@.len() == i,
            forall|k: int| 0 <= k < i ==> (#[trigger] out@[k]).path@ == pe[k].path@ && out@[k].message@ == pe[k].message@,
        decreases parse_errors@.len(),
    {
        let p = parse_errors.remove(0);
        assert(p == pe[i as int]);
        out.push(ParseIssueJson::from_issue(p));
        i = i + 1;
    }
    CheckReport { ok, missing, unused, parse_errors: out }
}

/// Exit code: 0 when `ok`, else 1.
pub open spec fn exit_code(ok: bool) -> i32 {
    if ok { 0 } else { 1 }
}

/// `check`: missing keys (of `locale` alone when given), unused keys and the
/// parse issues found beforehand; exit code 1 when any.
pub fn run_check(ctx: &Context, locale: Option<&str>, parse_errors: Vec<ParseIssue>) -> (r: (CheckReport, i32))
    requires
        ctx.snapshot.index.trees.wf(),
        ctx.snapshot.usages.wf(),
    ensures
        r.1 == exit_code(r.0.ok),
        r.0.ok == (nothing_missing(r.0.missing@) && r.0.unused@.len() == 0 && parse_errors@.len() == 0),
        match locale {
            Some(l) => row_views(r.0.missing@) == seq![(normalize_locale(l@), missing_of(ctx.snapshot.index, normalize_locale(l@)))],
            None => row_views(r.0.missing@) == missing_rows(ctx.snapshot.index,
                targets_of(ctx.snapshot.index.trees.entries@, ctx.snapshot.index.source_locale@)),
        },
        strictly_sorted(views(r.0.unused@)),
        forall|x: Seq<char>| #[trigger] views(r.0.unused@).contains(x) <==> (keys_of_trees(ctx.snapshot.index.trees.entries@).contains(x)
            && !exists|p: Seq<char>| #[trigger] ctx.snapshot.usages.view().contains_key(p) && ctx.snapshot.usages.view()[p].contains(x)),
{
    let only = match locale {
        Some(l) => Some(Locale::new(l)),
        None => None,
    };
    let missing = match &only {
        Some(l) => ctx.snapshot.missing_by_locale(Some(l)),
        None => ctx.snapshot.missing_by_locale(None),
    };
    let unused = ctx.snapshot.unused_keys();
    let report = emit_check(missing, unused, parse_errors);
    let code: i32 = if report.ok { 0 } else { 1 };
    (report, code)
}

/// `validate`: exit code 0 when no issue was found.
pub fn run_validate(issues: &Vec<ParseIssue>) -> (r: i32)
    ensures
        r == exit_code(issues@.len() == 0),
{
    if issues.len() == 0 { 0 } else { 1 }
}

/// `missing`: the missing keys and exit code 0 when there are none.
pub fn run_missing(ctx: &Context, locale: Option<&str>) -> (r: (Vec<(String, Vec<String>)>, i32))
    requires
        ctx.snapshot.index.trees.wf(),
    ensures
        r.1 == exit_code(nothing_missing(r.0@)),
        match locale {
            Some(l) => row_views(r.0@) == seq![(normalize_locale(l@), missing_of(ctx.snapshot.index, normalize_locale(l@)))],
            None => row_views(r.0@) == missing_rows(ctx.snapshot.index,
                targets_of(ctx.snapshot.index.trees.entries@, ctx.snapshot.index.source_locale@)),
        },
{
    let only = match locale {
        Some(l) => Some(Locale::new(l)),
        None => None,
    };
    let missing = match &only {
        Some(l) => ctx.snapshot.missing_by_locale(Some(l)),
        None => ctx.snapshot.missing_by_locale(None),
    };
    let empty = all_rows_empty(&missing);
    let code: i32 = if empty { 0 } else { 1 };
    (missing, code)
}

/// `unused`: the unused keys and exit code 0 when there are none.
pub fn run_unused(ctx: &Context) -> (r: (Vec<String>, i32))
    requires
        ctx.snapshot.usages.wf(),
    ensures
        r.1 == exit_code(r.0@.len() == 0),
        strictly_sorted(views(r.0@)),
        forall|x: Seq<char>| #[trigger] views(r.0@).contains(x) <==> (keys_of_trees(ctx.snapshot.index.trees.entries@).contains(x)
            && !exists|p: Seq<char>| #[trigger] ctx.snapshot.usages.view().contains_key(p) && ctx.snapshot.usages.view()[p].contains(x)),
{
    let unused = ctx.snapshot.unused_keys();
    let code: i32 = if unused.len() == 0 { 0 } else { 1 };
    (unused, code)
}

/// The tree of `l` defines a value at the dotted `key`.
pub open spec fn defined_in(es: Seq<(Locale, KeyTree)>, key: Seq<char>, l: Seq<char>) -> bool {
    leaf_value(es, l, key) is Some
}

/// `key` is listed by `keys list`: it starts with `prefix` (when not empty)
/// and `locale` (when given) defines it.
pub open spec fn listed(es: Seq<(Locale, KeyTree)>, key: Seq<char>, prefix: Seq<char>, locale: Option<Seq<char>>) -> bool {
    &&& (prefix.len() == 0 || has_prefix(key, prefix))
    &&& match locale {
        Some(l) => defined_in(es, key, l),
        None => true,
    }
}

pub(crate) fn starts_with(s: &str, p: &str) -> (r: bool)
    ensures
        r == has_prefix(s@, p@),
{
    let cs = chars_of(s);
    let ps = chars_of(p);
    if ps.len() > cs.len() {
        return false;
    }
    let mut i: usize = 0;
    while i < ps.len()
        invariant
            cs@ == s@,
            ps@ == p@,
            ps@.len() <= cs@.len(),
            i <= ps@.len(),
            forall|j: int| 0 <= j < i ==> cs@[j] == ps@[j],
        decreases ps@.len() - i,
    {
        if cs[i] != ps[i] {
            assert(cs@.take(ps@.len() as int)[i as int] != ps@[i as int]);
            return false;
        }
        i = i + 1;
    }
    assert(cs@.take(ps@.len() as int) =~= ps@);
    true
}

/// `keys list`: every key, sorted, that starts with `prefix` and that
/// `locale` defines, when they are given.
pub fn run_keys_list(ctx: &Context, prefix: Option<&str>, locale: Option<&str>) -> (r: Vec<String>)
    requires
        ctx.snapshot.index.trees.wf(),
    ensures
        strictly_sorted(views(r@)),
        forall|x: Seq<char>| #[trigger] views(r@).contains(x) <==> (keys_of_trees(ctx.snapshot.index.trees.entries@).contains(x)
            && listed(ctx.snapshot.index.trees.entries@, x,
                match prefix { Some(p) => p@, None => Seq::empty() },
                match locale { Some(l) => Some(normalize_locale(l@)), None => None })),
{
    let index = &ctx.snapshot.index;
    let ghost es = index.trees.entries@;
    let pre: &str = match prefix {
        Some(p) => p,
        None => "",
    };
    proof { reveal_strlit(""); }
    let ghost pv = match prefix { Some(p) => p@, None => Seq::<char>::empty() };
    assert(pre@ == pv);
    let filter = match locale {
        Some(l) => Some(Locale::new(l)),
        None => None,
    };
    let ghost lv = match locale { Some(l) => Some(normalize_locale(l@)), None => None };
    let keys = index.all_keys();
    let ghost ks = views(keys@);
    let mut out: Vec<String> = Vec::new();
    let mut i: usize = 0;
    while i < keys.len()
        invariant
            index.trees.wf(),
            es == index.trees.entries@,
            pre@ == pv,
            lv == match filter { Some(f) => Some(f@), None => None },
            ks == views(keys@),
            strictly_sorted(ks),
            forall|x: Seq<char>| #[trigger] ks.contains(x) <==> keys_of_trees(es).contains(x),
            i <= ks.len(),
            strictly_sorted(views(out@)),
            forall|a: int, j: int| 0 <= a < out@.len() && i <= j < ks.len() ==> str_lt(#[trigger] views(out@)[a], #[trigger] ks[j]),
            forall|x: Seq<char>| #[trigger] views(out@).contains(x) <==> (ks.take(i as int).contains(x) && listed(es, x, pv, lv)),
        decreases ks.len() - i,
    {
        let k = &keys[i];
        let prefix_ok = pre.unicode_len() == 0 || starts_with(k.as_str(), pre);
        let locale_ok = match &filter {
            None => true,
            Some(f) => {
                let found = index.lookup(k.as_str());
                proof { lemma_lookup_spec_find(es, split_spec(k@, '.'), f@); }
                found.contains_key(f)
            },
        };
        let ghost o = views(out@);
        proof {
            assert(ks.take(i + 1) =~= ks.take(i as int).push(ks[i as int]));
            lemma_contains_push(ks.take(i as int), ks[i as int]);
            assert(ks[i as int] == k@);
        }
        if prefix_ok && locale_ok {
            out.push(k.clone());
            proof {
                assert(views(out@) =~= o.push(k@));
                lemma_contains_push(o, k@);
                assert forall|a: int, b: int| 0 <= a < b < views(out@).len() implies str_lt(#[trigger] views(out@)[a], #[trigger] views(out@)[b]) by {
                    if b == o.len() {
                        assert(str_lt(o[a], ks[i as int]));
                    } else {
                        assert(str_lt(o[a], o[b]));
                    }
                }
                assert forall|a: int, j: int| 0 <= a < views(out@).len() && i + 1 <= j < ks.len() implies str_lt(#[trigger] views(out@)[a], #[trigger] ks[j]) by {
                    if a == o.len() {
                        assert(str_lt(ks[i as int], ks[j]));
                    } else {
                        assert(str_lt(o[a], ks[j]));
                    }
                }
            }
        } else {
            proof {
                assert forall|a: int, j: int| 0 <= a < views(out@).len() && i + 1 <= j < ks.len() implies str_lt(#[trigger] views(out@)[a], #[trigger] ks[j]) by {
                    assert(str_lt(o[a], ks[j]));
                }
            }
        }
        i = i + 1;
    }
    assert(ks.take(ks.len() as int) =~= ks);
    out
}

/// The link a value follows.
#[derive(Debug)]
pub struct LinkInfo {
    pub target: String,
    pub chain: Vec<String>,
}

/// What `get` reports of a key in a locale.
#[derive(Debug)]
pub struct GetResponse {
    pub key: String,
    pub locale: String,
    pub value: String,
    pub file: String,
    pub resolved: Option<String>,
    pub link: Option<LinkInfo>,
}

pub open spec fn resolved_is(g: GetResponse, s: Seq<char>) -> bool {
    match g.resolved {
        Some(x) => x@ == s,
        None => false,
    }
}

pub open spec fn link_is(g: GetResponse, target: Seq<char>, chain: Seq<Seq<char>>) -> bool {
    match g.link {
        Some(li) => li.target@ == target && views(li.chain@) == chain,
        None => false,
    }
}

/// What `get` reports of a resolution: the resolved text, and the link it followed.
pub open spec fn get_resolution(g: GetResponse, res: Resolution) -> bool {
    match res {
        Resolution::Literal(t) => resolved_is(g, t) && g.link is None,
        Resolution::Linked { display, target, chain, .. } => resolved_is(g, display) && link_is(g, target, chain),
        Resolution::Broken { target, reason } => resolved_is(g, "(broken link to `"@ + target + "`: "@ + reason + ")"@)
            && g.link is None,
    }
}

/// `get`: the value of `key` in `locale`, where it is defined and what it
/// resolves to; an error message when the locale does not define it.
pub fn run_get(ctx: &Context, key: &str, locale: &str) -> (r: Result<GetResponse, String>)
    requires
        ctx.snapshot.index.trees.wf(),
    ensures
        match leaf_value(ctx.snapshot.index.trees.entries@, normalize_locale(locale@), key@) {
            None => r is Err,
            Some(v) => r matches Ok(g) && g.key@ == key@ && g.locale@ == locale@ && g.value@ == v.value@
                && g.file@ == v.file@
                && get_resolution(g, resolve_from(ctx.snapshot.index.trees.entries@, normalize_locale(locale@), v.value@, Seq::empty(), None)),
        },
{
    let index = &ctx.snapshot.index;
    let loc = Locale::new(locale);
    let values = index.lookup(key);
    proof { lemma_lookup_spec_find(index.trees.entries@, split_spec(key@, '.'), loc@); }
    let value = match values.get(&loc) {
        Some(v) => v,
        None => {
            let mut msg = String::from_str("key `");
            msg.append(key);
            msg.append("` not defined for locale `");
            msg.append(locale);
            msg.append("`");
            return Err(msg);
        },
    };
    let (resolved, link) = match resolve_value(index, &loc, value.value.as_str()) {
        ResolvedValue::Literal { text } => (Some(String::from_str(text)), None),
        ResolvedValue::Linked { display, target_key, chain, .. } => (Some(display), Some(LinkInfo { target: target_key, chain })),
        ResolvedValue::Broken { target_key, reason } => {
            let mut s = String::from_str("(broken link to `");
            s.append(target_key.as_str());
            s.append("`: ");
            s.append(reason);
            s.append(")");
            (Some(s), None)
        },
    };
    Ok(GetResponse {
        key: String::from_str(key),
        locale: String::from_str(locale),
        value: value.value.clone(),
        file: value.file.clone(),
        resolved,
        link,
    })
}

/// Per locale: its code, its number of keys, and how many source keys it misses.
#[derive(Debug)]
pub struct StatsCounts {
    pub locale: String,
    pub keys: usize,
    pub missing_from_source: usize,
}

/// Number of leaves of `tree`.
pub fn count_keys_in_tree(tree: Option<&KeyTree>) -> (r: usize)
    requires
        tree matches Some(t) ==> leaf_paths(*t).len() <= usize::MAX,
    ensures
        r == match tree {
            Some(t) => leaf_paths(*t).len(),
            None => 0,
        },
{
    match tree {
        None => 0,
        Some(t) => {
            let mut path: Vec<String> = Vec::new();
            let mut keys: Vec<String> = Vec::new();
            assert(views(keys@) =~= Seq::<Seq<char>>::empty());
            crate::keytree::collect_keys(t, &mut path, &mut keys);
            keys.len()
        },
    }
}

/// `stats`: for each locale, its code, number of keys and number of keys
/// missing against the source locale (none for the source itself).
pub fn run_stats(ctx: &Context) -> (r: Vec<StatsCounts>)
    requires
        ctx.snapshot.index.trees.wf(),
    ensures
        r@.len() == ctx.snapshot.index.trees.entries@.len(),
        forall|i: int| 0 <= i < r@.len() ==> {
            let e = ctx.snapshot.index.trees.entries@[i];
            &&& (#[trigger] r@[i]).locale@ == e.0@
            &&& r@[i].keys == leaf_paths(e.1).len()
            &&& r@[i].missing_from_source == if e.0@ == ctx.snapshot.index.source_locale@ { 0 }
                else { missing_of(ctx.snapshot.index, e.0@).len() }
        },
{
    let index = &ctx.snapshot.index;
    let mut rows: Vec<StatsCounts> = Vec::new();
    let mut i: usize = 0;
    while i < index.trees.entries.len()
        invariant
            index.trees.wf(),
            i <= index.trees.entries@.len(),
            rows@.len() == i,
            forall|k: int| 0 <= k < i ==> {
                let e = index.trees.entries@[k];
                &&& (#[trigger] rows@[k]).locale@ == e.0@
                &&& rows@[k].keys == leaf_paths(e.1).len()
                &&& rows@[k].missing_from_source == if e.0@ == index.source_locale@ { 0 }
                    else { missing_of(*index, e.0@).len() }
            },
        decreases index.trees.entries@.len() - i,
    {
        let entry = &index.trees.entries[i];
        let mut path: Vec<String> = Vec::new();
        let mut keys: Vec<String> = Vec::new();
        assert(views(keys@) =~= Seq::<Seq<char>>::empty());
        crate::keytree::collect_keys(&entry.1, &mut path, &mut keys);
        let key_count = keys.len();
        let missing = if entry.0.same_as(&index.source_locale) {
            0
        } else {
            let m = index.missing_keys(&entry.0);
            assert(views(m@) =~= missing_of(*index, entry.0@));
            m.len()
        };
        rows.push(StatsCounts { locale: String::from_str(entry.0.as_str()), keys: key_count, missing_from_source: missing });
        i = i + 1;
    }
    rows
}

/// Where a write command named `what` stores a value: the file of `locale`
/// and the segments of `key`; an error when the locale has no file or its
/// file is not JSON.
pub fn write_plan(idx: &LocaleIndex, key: &str, locale: &str, what: &str) -> (r: Result<(String, Vec<String>), String>)
    ensures
        match file_of(*idx, normalize_locale(locale@)) {
            None => r matches Err(m) && m@ == "no locale file for `"@ + locale@ + "`"@,
            Some(p) => if is_editable_extension(ext_or_empty(p)) {
                r matches Ok(t) && t.0@ == p && views(t.1@) == split_spec(key@, '.')
            } else {
                r matches Err(m) && m@ == what@ + " only supports JSON locale files right now (got ."@ + ext_or_empty(p) + ")"@
            },
        },
{
    let loc = Locale::new(locale);
    let path = match file_path_of(idx, &loc) {
        Some(p) => p,
        None => {
            let mut m = String::from_str("no locale file for `");
            m.append(locale);
            m.append("`");
            return Err(m);
        },
    };
    let ext = match extension(path.as_str()) {
        Some(e) => e,
        None => String::new(),
    };
    let e = ext.as_str();
    if !(str_eq(e, "json") || str_eq(e, "jsonc") || str_eq(e, "json5")) {
        let mut m = what.to_string();
        m.append(" only supports JSON locale files right now (got .");
        m.append(e);
        m.append(")");
        return Err(m);
    }
    Ok((path, split_char(key, '.')))
}

/// Where `set` writes: see [`write_plan`].
pub fn run_set_plan(ctx: &Context, key: &str, locale: &str) -> (r: Result<(String, Vec<String>), String>)
    ensures
        match file_of(ctx.snapshot.index, normalize_locale(locale@)) {
            None => r matches Err(m) && m@ == "no locale file for `"@ + locale@ + "`"@,
            Some(p) => if is_editable_extension(ext_or_empty(p)) {
                r matches Ok(t) && t.0@ == p && views(t.1@) == split_spec(key@, '.')
            } else {
                r matches Err(m) && m@ == "set only supports JSON locale files right now (got ."@ + ext_or_empty(p) + ")"@
            },
        },
{
    proof {
        reveal_strlit("set");
        reveal_strlit(" only supports JSON locale files right now (got .");
        reveal_strlit("set only supports JSON locale files right now (got .");
        assert("set"@ + " only supports JSON locale files right now (got ."@ =~= "set only supports JSON locale files right now (got ."@);
    }
    write_plan(&ctx.snapshot.index, key, locale, "set")
}

} // verus!
