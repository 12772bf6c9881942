//! Frameworks and key-usage detection: each i18n library (vue-i18n,
//! i18next, ...) is described by the regular expressions that find its
//! translation calls; the `regex` crate runs them.
use vstd::prelude::*;
use vstd::string::*;
use crate::position::{LineIndex, Range, placed, range_in};
use crate::text::{str_eq, str_lt, views};
use vstd::utf8::encode_utf8;

verus! {

broadcast use vstd::seq::group_seq_axioms;

/// A translation key usage found in a source file.
#[derive(Debug, PartialEq, Eq)]
pub struct KeyUsage {
    /// The key, with any scope prefix.
    pub key: String,
    /// Range of the key literal inside the quotes.
    pub range: Range,
    /// The scope in effect at the call site (from `useTranslation("ns")`).
    pub scope: Option<String>,
    /// Which framework matched this usage.
    pub framework_id: &'static str,
}

/// How an i18n framework's translation calls look in source code.
pub struct Framework {
    pub id: &'static str,
    pub name: &'static str,
    /// Language names the framework applies to.
    pub language_ids: Vec<&'static str>,
    /// Regular expressions whose first group is the translation key.
    pub usage_patterns: Vec<&'static str>,
    /// Regular expression whose first group is a scope / namespace.
    pub scope_pattern: Option<&'static str>,
    /// Templates for extracting strings to keys (`$1` is the new key).
    pub refactor_templates: Vec<&'static str>,
}

/// For each match of `pattern` in `text`, in order, the start, end and text
/// of its first capture group (`None` when the group did not take part), or
/// `None` when `pattern` does not compile.
pub uninterp spec fn regex_group1(pattern: Seq<char>, text: Seq<char>) -> Option<Seq<Option<(usize, usize, Seq<char>)>>>;

pub open spec fn group_views(v: Seq<Option<(usize, usize, String)>>) -> Seq<Option<(usize, usize, Seq<char>)>> {
    v.map_values(|g: Option<(usize, usize, String)>| match g {
        Some(x) => Some((x.0, x.1, x.2@)),
        None => None,
    })
}

/// Every group lies within `text`, on character boundaries, and its text is
/// what the text holds between its offsets.
pub open spec fn groups_placed(bytes: Seq<u8>, gs: Seq<Option<(usize, usize, Seq<char>)>>) -> bool {
    forall|i: int| 0 <= i < gs.len() ==> match #[trigger] gs[i] {
        Some(g) => g.0 <= g.1 && placed(bytes, g.0) && placed(bytes, g.1)
            && encode_utf8(g.2) == bytes.subrange(g.0 as int, g.1 as int),
        None => true,
    }
}

/// Calls `regex::Regex::new(pattern)` and `captures_iter(text)`, handing back
/// group 1 of each match as its start, end and text. The result is named by
/// [`regex_group1`]; the crate documents that match offsets are byte offsets
/// on UTF-8 boundaries of the haystack and that a match's text is the
/// haystack between them, which the contract states.
#[verifier::external_body]
fn captures_group1(pattern: &str, text: &str) -> (r: Option<Vec<Option<(usize, usize, String)>>>)
    ensures
        match r {
            Some(v) => regex_group1(pattern@, text@) == Some(group_views(v@))
                && groups_placed(text.spec_bytes(), group_views(v@)),
            None => regex_group1(pattern@, text@) is None,
        },
{
    let re = regex::Regex::new(pattern).ok()?;
    Some(re.captures_iter(text).map(|c| c.get(1).map(|m| (m.start(), m.end(), m.as_str().to_string()))).collect())
}

/// A usage as plain values: key, start and end offsets, scope, framework id.
pub type UsageOffsets = (Seq<char>, usize, usize, Option<Seq<char>>, Seq<char>);

/// Start and text of each group that took part, in order.
pub open spec fn present_groups(gs: Seq<Option<(usize, usize, Seq<char>)>>) -> Seq<(usize, Seq<char>)>
    decreases gs.len(),
{
    if gs.len() == 0 {
        Seq::empty()
    } else {
        let r = present_groups(gs.drop_last());
        match gs.last() {
            Some(g) => r.push((g.0, g.2)),
            None => r,
        }
    }
}

/// The scopes found by `scope`: start offset and text of each group 1.
pub open spec fn scopes_spec(scope: Option<Seq<char>>, source: Seq<char>) -> Seq<(usize, Seq<char>)> {
    match scope {
        None => Seq::empty(),
        Some(p) => match regex_group1(p, source) {
            None => Seq::empty(),
            Some(gs) => present_groups(gs),
        },
    }
}

/// The scope of the last scope match starting before `offset`.
pub open spec fn nearest_scope(scopes: Seq<(usize, Seq<char>)>, offset: usize) -> Option<Seq<char>>
    decreases scopes.len(),
{
    if scopes.len() == 0 {
        None
    } else if scopes.last().0 < offset {
        Some(scopes.last().1)
    } else {
        nearest_scope(scopes.drop_last(), offset)
    }
}

/// The usages `pattern` finds, from group 1 of each match: the key prefixed
/// with the nearest scope and a `.`, its offsets, the scope, and `id`.
pub open spec fn pattern_usages(gs: Seq<Option<(usize, usize, Seq<char>)>>, scopes: Seq<(usize, Seq<char>)>, id: Seq<char>) -> Seq<UsageOffsets>
    decreases gs.len(),
{
    if gs.len() == 0 {
        Seq::empty()
    } else {
        let rest = pattern_usages(gs.drop_last(), scopes, id);
        match gs.last() {
            None => rest,
            Some(g) => {
                let sc = nearest_scope(scopes, g.0);
                let key = match sc {
                    Some(ns) => ns + seq!['.'] + g.2,
                    None => g.2,
                };
                rest.push((key, g.0, g.1, sc, id))
            },
        }
    }
}

/// The usages found by the patterns `ps`, pattern after pattern.
pub open spec fn patterns_usages(ps: Seq<Seq<char>>, source: Seq<char>, scopes: Seq<(usize, Seq<char>)>, id: Seq<char>) -> Seq<UsageOffsets>
    decreases ps.len(),
{
    if ps.len() == 0 {
        Seq::empty()
    } else {
        patterns_usages(ps.drop_last(), source, scopes, id) + match regex_group1(ps.last(), source) {
            None => Seq::empty(),
            Some(gs) => pattern_usages(gs, scopes, id),
        }
    }
}

pub open spec fn str_seq_views(v: Seq<&'static str>) -> Seq<Seq<char>> {
    v.map_values(|s: &'static str| s@)
}

/// The key of `o` is the text of `bytes` between its offsets, after its
/// scope and a `.` when it has one.
pub open spec fn keyed_by_slice(bytes: Seq<u8>, o: UsageOffsets) -> bool {
    exists|t: Seq<char>| #[trigger] encode_utf8(t) == bytes.subrange(o.1 as int, o.2 as int)
        && o.0 == match o.3 {
            Some(ns) => ns + seq!['.'] + t,
            None => t,
        }
}

/// `u` is the usage `o` of the text `bytes`.
pub open spec fn usage_is(bytes: Seq<u8>, u: KeyUsage, o: UsageOffsets) -> bool {
    &&& u.key@ == o.0
    &&& keyed_by_slice(bytes, o)
    &&& range_in(bytes, o.1, o.2, u.range)
    &&& u.range.start.offset == o.1
    &&& u.range.end.offset == o.2
    &&& match (u.scope, o.3) {
        (Some(a), Some(b)) => a@ == b,
        (None, None) => true,
        _ => false,
    }
    &&& u.framework_id@ == o.4
}

pub open spec fn usages_are(bytes: Seq<u8>, us: Seq<KeyUsage>, os: Seq<UsageOffsets>) -> bool {
    &&& us.len() == os.len()
    &&& forall|i: int| 0 <= i < us.len() ==> usage_is(bytes, #[trigger] us[i], os[i])
}

/// A framework as plain values: id, languages, usage patterns, scope pattern.
pub type FrameworkView = (Seq<char>, Seq<Seq<char>>, Seq<Seq<char>>, Option<Seq<char>>);

/// The usages the framework `f` finds in `source`.
pub open spec fn framework_usages(f: FrameworkView, source: Seq<char>) -> Seq<UsageOffsets> {
    patterns_usages(f.2, source, scopes_spec(f.3, source), f.0)
}

impl Framework {
    pub open spec fn scope_view(&self) -> Option<Seq<char>> {
        match self.scope_pattern {
            Some(p) => Some(p@),
            None => None,
        }
    }

    pub open spec fn fview(&self) -> FrameworkView {
        (self.id@, str_seq_views(self.language_ids@), str_seq_views(self.usage_patterns@), self.scope_view())
    }

    /// The usages this framework finds in `source`.
    pub open spec fn usages_spec(&self, source: Seq<char>) -> Seq<UsageOffsets> {
        framework_usages(self.fview(), source)
    }

    /// Whether this framework applies to the language `language_id`.
    pub fn applies_to(&self, language_id: &str) -> (r: bool)
        ensures
            r == str_seq_views(self.language_ids@).contains(language_id@),
    {
        let mut i: usize = 0;
        while i < self.language_ids.len()
            invariant
                i <= self.language_ids@.len(),
                forall|j: int| 0 <= j < i ==> self.language_ids@[j]@ != language_id@,
            decreases self.language_ids@.len() - i,
        {
            if str_eq(self.language_ids[i], language_id) {
                assert(str_seq_views(self.language_ids@)[i as int] == language_id@);
                return true;
            }
            i = i + 1;
        }
        proof {
            if str_seq_views(self.language_ids@).contains(language_id@) {
                let j = choose|j: int| 0 <= j < str_seq_views(self.language_ids@).len() && str_seq_views(self.language_ids@)[j] == language_id@;
                assert(self.language_ids@[j]@ == language_id@);
            }
        }
        false
    }

    /// Every key usage this framework's patterns match in `source`.
    pub fn find_usages(&self, source: &str) -> (r: Vec<KeyUsage>)
        requires
            2 * source.spec_bytes().len() <= u32::MAX,
        ensures
            usages_are(source.spec_bytes(), r@, self.usages_spec(source@)),
    {
        let lines = LineIndex::new(source);
        let scopes = collect_scopes(source, self.scope_pattern);
        let ghost sc = scopes_spec(self.scope_view(), source@);
        let ghost ps = str_seq_views(self.usage_patterns@);
        let mut out: Vec<KeyUsage> = Vec::new();
        let mut i: usize = 0;
        while i < self.usage_patterns.len()
            invariant
                lines.wf(),
                lines.bytes() == source.spec_bytes(),
                2 * source.spec_bytes().len() <= u32::MAX,
                ps == str_seq_views(self.usage_patterns@),
                sc == scopes_spec(self.scope_view(), source@),
                scope_pairs(scopes@) == sc,
                i <= ps.len(),
                usages_are(source.spec_bytes(), out@, patterns_usages(ps.take(i as int), source@, sc, self.id@)),
            decreases ps.len() - i,
        {
            assert(ps.take(i + 1).drop_last() =~= ps.take(i as int));
            assert(ps.take(i + 1).last() == self.usage_patterns@[i as int]@);
            let ghost before = out@;
            let ghost prev = patterns_usages(ps.take(i as int), source@, sc, self.id@);
            match captures_group1(self.usage_patterns[i], source) {
                Some(groups) => {
                    let ghost gs = group_views(groups@);
                    let mut found = usages_from_groups(&lines, &groups, &scopes, self.id);
                    let ghost f = found@;
                    out.append(&mut found);
                    proof {
                        let os = prev + pattern_usages(gs, sc, self.id@);
                        assert forall|j: int| 0 <= j < out@.len() implies usage_is(source.spec_bytes(), #[trigger] out@[j], os[j]) by {
                            if j < before.len() {
                                assert(out@[j] == before[j]);
                            } else {
                                assert(out@[j] == f[j - before.len()]);
                                assert(os[j] == pattern_usages(gs, sc, self.id@)[j - before.len()]);
                            }
                        }
                    }
                },
                None => {
                    assert(prev + Seq::<UsageOffsets>::empty() =~= prev);
                },
            }
            i = i + 1;
        }
        assert(ps.take(ps.len() as int) =~= ps);
        out
    }
}

pub open spec fn scope_pairs(v: Seq<(usize, String)>) -> Seq<(usize, Seq<char>)> {
    v.map_values(|p: (usize, String)| (p.0, p.1@))
}

/// The usages one pattern's matches give: for each match with a group 1,
/// its text prefixed with the nearest earlier scope and a `.`, its range in
/// the text of `lines`, that scope, and `id`.
pub fn usages_from_groups(lines: &LineIndex, groups: &Vec<Option<(usize, usize, String)>>, scopes: &Vec<(usize, String)>, id: &'static str) -> (r: Vec<KeyUsage>)
    requires
        lines.wf(),
        2 * lines.bytes().len() <= u32::MAX,
        groups_placed(lines.bytes(), group_views(groups@)),
    ensures
        usages_are(lines.bytes(), r@, pattern_usages(group_views(groups@), scope_pairs(scopes@), id@)),
{
    let ghost gs = group_views(groups@);
    let ghost sc = scope_pairs(scopes@);
    let mut out: Vec<KeyUsage> = Vec::new();
    let mut k: usize = 0;
    while k < groups.len()
        invariant
            lines.wf(),
            2 * lines.bytes().len() <= u32::MAX,
            gs == group_views(groups@),
            sc == scope_pairs(scopes@),
            groups_placed(lines.bytes(), gs),
            k <= gs.len(),
            usages_are(lines.bytes(), out@, pattern_usages(gs.take(k as int), sc, id@)),
        decreases gs.len() - k,
    {
        assert(gs.take(k + 1).drop_last() =~= gs.take(k as int));
        assert(gs.take(k + 1).last() == gs[k as int]);
        let ghost o = out@;
        match &groups[k] {
            Some(g) => {
                let scope = nearest_scope_before(scopes, g.0);
                let key = match &scope {
                    Some(ns) => {
                        let mut k2 = ns.clone();
                        k2.push('.');
                        k2.append(g.2.as_str());
                        assert(k2@ =~= ns@ + seq!['.'] + g.2@);
                        k2
                    },
                    None => g.2.clone(),
                };
                let ghost sc_now = nearest_scope(sc, g.0);
                assert(key@ == (match sc_now {
                    Some(ns) => ns + seq!['.'] + g.2@,
                    None => g.2@,
                }));
                proof {
                    assert(gs[k as int] == Some((g.0, g.1, g.2@)));
                    assert(encode_utf8(g.2@) == lines.bytes().subrange(g.0 as int, g.1 as int));
                    lines.lemma_position_defined(g.0);
                    lines.lemma_position_defined(g.1);
                }
                let range = lines.range(g.0, g.1);
                out.push(KeyUsage { key, range, scope, framework_id: id });
                proof {
                    let os = pattern_usages(gs.take(k + 1), sc, id@);
                    assert(os =~= pattern_usages(gs.take(k as int), sc, id@).push(os.last()));
                    assert forall|j: int| 0 <= j < out@.len() implies usage_is(lines.bytes(), #[trigger] out@[j], os[j]) by {
                        if j < o.len() {
                            assert(out@[j] == o[j]);
                        }
                    }
                }
            },
            None => {
                assert(pattern_usages(gs.take(k + 1), sc, id@) == pattern_usages(gs.take(k as int), sc, id@));
            },
        }
        k = k + 1;
    }
    assert(gs.take(gs.len() as int) =~= gs);
    out
}

/// Start and text of every scope match of `pattern` in `source`.
fn collect_scopes(source: &str, pattern: Option<&'static str>) -> (r: Vec<(usize, String)>)
    ensures
        scope_pairs(r@) == scopes_spec(match pattern { Some(p) => Some(p@), None => None }, source@),
{
    let mut out: Vec<(usize, String)> = Vec::new();
    let p = match pattern {
        Some(p) => p,
        None => {
            assert(scope_pairs(out@) =~= Seq::<(usize, Seq<char>)>::empty());
            return out;
        },
    };
    let groups = match captures_group1(p, source) {
        Some(gs) => gs,
        None => {
            assert(scope_pairs(out@) =~= Seq::<(usize, Seq<char>)>::empty());
            return out;
        },
    };
    scopes_from_groups(&groups)
}

/// The scopes one scope pattern's matches give: the start and text of
/// group 1 of each match that has one.
pub fn scopes_from_groups(groups: &Vec<Option<(usize, usize, String)>>) -> (r: Vec<(usize, String)>)
    ensures
        scope_pairs(r@) == present_groups(group_views(groups@)),
{
    let mut out: Vec<(usize, String)> = Vec::new();
    let ghost gs = group_views(groups@);
    let mut k: usize = 0;
    while k < groups.len()
        invariant
            gs == group_views(groups@),
            k <= gs.len(),
            scope_pairs(out@) == present_groups(gs.take(k as int)),
        decreases gs.len() - k,
    {
        let ghost o = scope_pairs(out@);
        assert(gs.take(k + 1).drop_last() =~= gs.take(k as int));
        assert(gs.take(k + 1).last() == gs[k as int]);
        match &groups[k] {
            Some(g) => {
                assert(gs[k as int] == Some((g.0, g.1, g.2@)));
                out.push((g.0, g.2.clone()));
                assert(scope_pairs(out@) =~= o.push((g.0, g.2@)));
            },
            None => {
                assert(gs[k as int] is None);
            },
        }
        k = k + 1;
    }
    assert(gs.take(gs.len() as int) =~= gs);
    out
}

/// The scope of the last scope match that starts before `offset`.
fn nearest_scope_before(scopes: &Vec<(usize, String)>, offset: usize) -> (r: Option<String>)
    ensures
        match r {
            Some(s) => nearest_scope(scope_pairs(scopes@), offset) == Some(s@),
            None => nearest_scope(scope_pairs(scopes@), offset) is None,
        },
{
    let ghost sp = scope_pairs(scopes@);
    let mut i: usize = scopes.len();
    assert(sp.take(i as int) =~= sp);
    while i > 0
        invariant
            sp == scope_pairs(scopes@),
            i <= sp.len(),
            nearest_scope(sp, offset) == nearest_scope(sp.take(i as int), offset),
        decreases i,
    {
        assert(sp.take(i as int).drop_last() =~= sp.take(i - 1));
        assert(sp.take(i as int).last() == sp[i - 1]);
        if scopes[i - 1].0 < offset {
            return Some(scopes[i - 1].1.clone());
        }
        i = i - 1;
    }
    None
}


/// The built-in frameworks: vue-i18n, nuxt-i18n, i18next, react-intl.
pub open spec fn builtin_views() -> Seq<FrameworkView> {
    let web = seq!["Vue.js"@, "TypeScript"@, "TSX"@, "JavaScript"@, "JSX"@];
    seq![
        ("vue-i18n"@, web, seq![
            r#"(?:^|[^\w$.])\$t[ce]?\s*\(\s*['"`]([A-Za-z_][A-Za-z0-9_\-.:/\[\]]*)['"`]"#@,
            r#"(?:^|[^\w$.])\$rt\s*\(\s*['"`]([A-Za-z_][A-Za-z0-9_\-.:/\[\]]*)['"`]"#@,
            r#"i18n(?:\.global)?\.t\s*\(\s*['"`]([A-Za-z_][A-Za-z0-9_\-.:/\[\]]*)['"`]"#@,
            r#"keypath\s*=\s*['"`]([A-Za-z_][A-Za-z0-9_\-.:/\[\]]*)['"`]"#@,
        ], None),
        ("nuxt-i18n"@, web, seq![
            r#"(?:^|[^\w$.])\$t[ce]?\s*\(\s*['"`]([A-Za-z_][A-Za-z0-9_\-.:/\[\]]*)['"`]"#@,
            r#"(?:^|[^\w$.])t[ce]?\s*\(\s*['"`]([A-Za-z_][A-Za-z0-9_\-.:/\[\]]*)['"`]"#@,
        ], Some(r#"useTranslation\s*\(\s*['"`]([A-Za-z0-9_.\-]+)['"`]"#@)),
        ("i18next"@, seq!["TypeScript"@, "TSX"@, "JavaScript"@, "JSX"@, "Vue.js"@, "HTML"@], seq![
            r#"(?:^|[^\w$.])t\s*\(\s*['"`]([A-Za-z_][A-Za-z0-9_\-.:/\[\]]*)['"`]"#@,
            r#"i18next\.t\s*\(\s*['"`]([A-Za-z_][A-Za-z0-9_\-.:/\[\]]*)['"`]"#@,
            r#"i18nKey\s*=\s*['"`]([A-Za-z_][A-Za-z0-9_\-.:/\[\]]*)['"`]"#@,
        ], Some(r#"useTranslation\s*\(\s*\[?\s*['"`]([A-Za-z0-9_.\-]+)['"`]"#@)),
        ("react-intl"@, seq!["TypeScript"@, "TSX"@, "JavaScript"@, "JSX"@], seq![
            r#"formatMessage\s*\(\s*\{\s*id\s*:\s*['"`]([A-Za-z_][A-Za-z0-9_\-.:/\[\]]*)['"`]"#@,
            r#"<FormattedMessage[^>]*\bid\s*=\s*['"`]([A-Za-z_][A-Za-z0-9_\-.:/\[\]]*)['"`]"#@,
        ], None),
    ]
}

fn strs(a: &'static str, b: &'static str, c: &'static str, d: &'static str) -> (r: Vec<&'static str>)
    ensures
        str_seq_views(r@) == seq![a@, b@, c@, d@],
{
    let mut v: Vec<&'static str> = Vec::new();
    v.push(a);
    v.push(b);
    v.push(c);
    v.push(d);
    assert(str_seq_views(v@) =~= seq![a@, b@, c@, d@]);
    v
}

fn web_languages() -> (r: Vec<&'static str>)
    ensures
        str_seq_views(r@) == seq!["Vue.js"@, "TypeScript"@, "TSX"@, "JavaScript"@, "JSX"@],
{
    let mut v = strs("Vue.js", "TypeScript", "TSX", "JavaScript");
    let ghost b = str_seq_views(v@);
    v.push("JSX");
    assert(str_seq_views(v@) =~= b.push("JSX"@));
    assert(str_seq_views(v@) =~= seq!["Vue.js"@, "TypeScript"@, "TSX"@, "JavaScript"@, "JSX"@]);
    v
}

fn framework_vue_i18n() -> (r: Framework)
    ensures
        r.fview() == builtin_views()[0],
{
    let patterns = strs(
        r#"(?:^|[^\w$.])\$t[ce]?\s*\(\s*['"`]([A-Za-z_][A-Za-z0-9_\-.:/\[\]]*)['"`]"#,
        r#"(?:^|[^\w$.])\$rt\s*\(\s*['"`]([A-Za-z_][A-Za-z0-9_\-.:/\[\]]*)['"`]"#,
        r#"i18n(?:\.global)?\.t\s*\(\s*['"`]([A-Za-z_][A-Za-z0-9_\-.:/\[\]]*)['"`]"#,
        r#"keypath\s*=\s*['"`]([A-Za-z_][A-Za-z0-9_\-.:/\[\]]*)['"`]"#,
    );
    let mut templates: Vec<&'static str> = Vec::new();
    templates.push(r#"$t("$1")"#);
    Framework {
        id: "vue-i18n",
        name: "Vue I18n",
        language_ids: web_languages(),
        usage_patterns: patterns,
        scope_pattern: None,
        refactor_templates: templates,
    }
}

fn framework_nuxt_i18n() -> (r: Framework)
    ensures
        r.fview() == builtin_views()[1],
{
    let mut patterns: Vec<&'static str> = Vec::new();
    patterns.push(r#"(?:^|[^\w$.])\$t[ce]?\s*\(\s*['"`]([A-Za-z_][A-Za-z0-9_\-.:/\[\]]*)['"`]"#);
    patterns.push(r#"(?:^|[^\w$.])t[ce]?\s*\(\s*['"`]([A-Za-z_][A-Za-z0-9_\-.:/\[\]]*)['"`]"#);
    assert(str_seq_views(patterns@) =~= builtin_views()[1].2);
    let mut templates: Vec<&'static str> = Vec::new();
    templates.push(r#"$t("$1")"#);
    Framework {
        id: "nuxt-i18n",
        name: "Nuxt I18n",
        language_ids: web_languages(),
        usage_patterns: patterns,
        scope_pattern: Some(r#"useTranslation\s*\(\s*['"`]([A-Za-z0-9_.\-]+)['"`]"#),
        refactor_templates: templates,
    }
}

fn framework_i18next() -> (r: Framework)
    ensures
        r.fview() == builtin_views()[2],
{
    let mut patterns: Vec<&'static str> = Vec::new();
    patterns.push(r#"(?:^|[^\w$.])t\s*\(\s*['"`]([A-Za-z_][A-Za-z0-9_\-.:/\[\]]*)['"`]"#);
    patterns.push(r#"i18next\.t\s*\(\s*['"`]([A-Za-z_][A-Za-z0-9_\-.:/\[\]]*)['"`]"#);
    patterns.push(r#"i18nKey\s*=\s*['"`]([A-Za-z_][A-Za-z0-9_\-.:/\[\]]*)['"`]"#);
    assert(str_seq_views(patterns@) =~= builtin_views()[2].2);
    let mut langs = strs("TypeScript", "TSX", "JavaScript", "JSX");
    let ghost b = str_seq_views(langs@);
    langs.push("Vue.js");
    langs.push("HTML");
    assert(str_seq_views(langs@) =~= b.push("Vue.js"@).push("HTML"@));
    assert(str_seq_views(langs@) =~= builtin_views()[2].1);
    let mut templates: Vec<&'static str> = Vec::new();
    templates.push(r#"t("$1")"#);
    Framework {
        id: "i18next",
        name: "i18next",
        language_ids: langs,
        usage_patterns: patterns,
        scope_pattern: Some(r#"useTranslation\s*\(\s*\[?\s*['"`]([A-Za-z0-9_.\-]+)['"`]"#),
        refactor_templates: templates,
    }
}

fn framework_react_intl() -> (r: Framework)
    ensures
        r.fview() == builtin_views()[3],
{
    let mut patterns: Vec<&'static str> = Vec::new();
    patterns.push(r#"formatMessage\s*\(\s*\{\s*id\s*:\s*['"`]([A-Za-z_][A-Za-z0-9_\-.:/\[\]]*)['"`]"#);
    patterns.push(r#"<FormattedMessage[^>]*\bid\s*=\s*['"`]([A-Za-z_][A-Za-z0-9_\-.:/\[\]]*)['"`]"#);
    assert(str_seq_views(patterns@) =~= builtin_views()[3].2);
    let mut templates: Vec<&'static str> = Vec::new();
    templates.push(r#"intl.formatMessage({ id: "$1" })"#);
    Framework {
        id: "react-intl",
        name: "React Intl",
        language_ids: strs("TypeScript", "TSX", "JavaScript", "JSX"),
        usage_patterns: patterns,
        scope_pattern: None,
        refactor_templates: templates,
    }
}

pub open spec fn framework_views(fs: Seq<Framework>) -> Seq<FrameworkView> {
    fs.map_values(|f: Framework| f.fview())
}

/// Every built-in framework.
pub fn builtin_frameworks() -> (r: Vec<Framework>)
    ensures
        framework_views(r@) == builtin_views(),
{
    let mut v: Vec<Framework> = Vec::new();
    v.push(framework_vue_i18n());
    v.push(framework_nuxt_i18n());
    v.push(framework_i18next());
    v.push(framework_react_intl());
    assert(framework_views(v@) =~= builtin_views());
    v
}

/// The usages every framework of `fs` applying to `lang` finds, framework after framework.
pub open spec fn applicable_usages(fs: Seq<FrameworkView>, lang: Seq<char>, source: Seq<char>) -> Seq<UsageOffsets>
    decreases fs.len(),
{
    if fs.len() == 0 {
        Seq::empty()
    } else {
        applicable_usages(fs.drop_last(), lang, source)
            + if fs.last().1.contains(lang) { framework_usages(fs.last(), source) } else { Seq::empty() }
    }
}

/// Among the usages of `us` at offsets `s..e`, the one kept: the first with
/// a scope, else the first.
pub open spec fn pick(us: Seq<KeyUsage>, s: usize, e: usize) -> Option<KeyUsage>
    decreases us.len(),
{
    if us.len() == 0 {
        None
    } else {
        let prev = pick(us.drop_last(), s, e);
        let u = us.last();
        if u.range.start.offset == s && u.range.end.offset == e {
            match prev {
                None => Some(u),
                Some(p) => if p.scope is None && u.scope is Some { Some(u) } else { Some(p) },
            }
        } else {
            prev
        }
    }
}

/// Ranges ordered by start offset, then end offset.
pub open spec fn range_before(a: KeyUsage, b: KeyUsage) -> bool {
    a.range.start.offset < b.range.start.offset
        || (a.range.start.offset == b.range.start.offset && a.range.end.offset < b.range.end.offset)
}

/// `out` keeps one usage per distinct range of `us`, ordered by range: the
/// one [`pick`] keeps.
pub open spec fn deduped(us: Seq<KeyUsage>, out: Seq<KeyUsage>) -> bool {
    &&& forall|a: int, b: int| 0 <= a < b < out.len() ==> range_before(#[trigger] out[a], #[trigger] out[b])
    &&& forall|a: int| 0 <= a < out.len() ==> pick(us, (#[trigger] out[a]).range.start.offset, out[a].range.end.offset) == Some(out[a])
    &&& forall|s: usize, e: usize| #[trigger] pick(us, s, e) is Some ==> exists|a: int| 0 <= a < out.len()
        && (#[trigger] out[a]).range.start.offset == s && out[a].range.end.offset == e
}

/// Index of the usage [`pick`] keeps among `us` at offsets `s..e`, or -1.
pub open spec fn pick_at(us: Seq<KeyUsage>, s: usize, e: usize) -> int
    decreases us.len(),
{
    if us.len() == 0 {
        -1
    } else {
        let p = pick_at(us.drop_last(), s, e);
        let u = us.last();
        if u.range.start.offset == s && u.range.end.offset == e {
            if p < 0 {
                us.len() - 1
            } else if us[p].scope is None && u.scope is Some {
                us.len() - 1
            } else {
                p
            }
        } else {
            p
        }
    }
}

proof fn lemma_pick_at(us: Seq<KeyUsage>, s: usize, e: usize)
    ensures
        -1 <= pick_at(us, s, e) < us.len(),
        pick(us, s, e) == (if pick_at(us, s, e) >= 0 { Some(us[pick_at(us, s, e)]) } else { None::<KeyUsage> }),
    decreases us.len(),
{
    if us.len() > 0 {
        lemma_pick_at(us.drop_last(), s, e);
        let p = pick_at(us.drop_last(), s, e);
        if p >= 0 {
            assert(us.drop_last()[p] == us[p]);
        }
        assert(us.last() == us[us.len() - 1]);
    }
}

/// Usages alike in offsets and in having a scope, index by index.
pub open spec fn same_places(a: Seq<KeyUsage>, b: Seq<KeyUsage>) -> bool {
    &&& a.len() == b.len()
    &&& forall|i: int| 0 <= i < a.len() ==> (#[trigger] a[i]).range.start.offset == b[i].range.start.offset
        && a[i].range.end.offset == b[i].range.end.offset && (a[i].scope is Some <==> b[i].scope is Some)
}

proof fn lemma_pick_at_same(a: Seq<KeyUsage>, b: Seq<KeyUsage>, s: usize, e: usize)
    requires
        same_places(a, b),
    ensures
        pick_at(a, s, e) == pick_at(b, s, e),
    decreases a.len(),
{
    if a.len() > 0 {
        assert forall|i: int| 0 <= i < a.drop_last().len() implies (#[trigger] a.drop_last()[i]).range.start.offset == b.drop_last()[i].range.start.offset
            && a.drop_last()[i].range.end.offset == b.drop_last()[i].range.end.offset
            && (a.drop_last()[i].scope is Some <==> b.drop_last()[i].scope is Some) by {
            assert(a.drop_last()[i] == a[i] && b.drop_last()[i] == b[i]);
        }
        lemma_pick_at_same(a.drop_last(), b.drop_last(), s, e);
        lemma_pick_at(a.drop_last(), s, e);
        let p = pick_at(a.drop_last(), s, e);
        if p >= 0 {
            assert(a.drop_last()[p] == a[p] && b.drop_last()[p] == b[p]);
        }
        assert(a.last() == a[a.len() - 1] && b.last() == b[b.len() - 1]);
    }
}

/// Each key of `r1` is a key of `r2` when both are what [`find_usages`]
/// gives for the same text.
proof fn lemma_found_keys_included(bytes: Seq<u8>, source: Seq<char>, lang: Seq<char>, r1: Seq<KeyUsage>, r2: Seq<KeyUsage>, x: Seq<char>)
    requires
        usages_found(bytes, source, lang, r1),
        usages_found(bytes, source, lang, r2),
        exists|a: int| 0 <= a < r1.len() && (#[trigger] r1[a]).key@ == x,
    ensures
        exists|b: int| 0 <= b < r2.len() && (#[trigger] r2[b]).key@ == x,
{
    let os = applicable_usages(builtin_views(), lang, source);
    let all1 = choose|all: Seq<KeyUsage>| usages_are(bytes, all, os) && #[trigger] deduped(all, r1);
    let all2 = choose|all: Seq<KeyUsage>| usages_are(bytes, all, os) && #[trigger] deduped(all, r2);
    assert forall|i: int| 0 <= i < all1.len() implies (#[trigger] all1[i]).range.start.offset == all2[i].range.start.offset
        && all1[i].range.end.offset == all2[i].range.end.offset && (all1[i].scope is Some <==> all2[i].scope is Some) by {
        assert(usage_is(bytes, all1[i], os[i]));
        assert(usage_is(bytes, all2[i], os[i]));
    }
    let a = choose|a: int| 0 <= a < r1.len() && (#[trigger] r1[a]).key@ == x;
    let s = r1[a].range.start.offset;
    let e = r1[a].range.end.offset;
    assert(pick(all1, s, e) == Some(r1[a]));
    lemma_pick_at(all1, s, e);
    lemma_pick_at(all2, s, e);
    lemma_pick_at_same(all1, all2, s, e);
    let k = pick_at(all1, s, e);
    assert(all1[k] == r1[a]);
    assert(pick(all2, s, e) is Some);
    let b = choose|b: int| 0 <= b < r2.len() && (#[trigger] r2[b]).range.start.offset == s && r2[b].range.end.offset == e;
    assert(pick(all2, r2[b].range.start.offset, r2[b].range.end.offset) == Some(r2[b]));
    assert(r2[b] == all2[k]);
    assert(usage_is(bytes, all1[k], os[k]));
    assert(usage_is(bytes, all2[k], os[k]));
    assert(r2[b].key@ == x);
}

/// Law: two results of [`find_usages`] for the same text and language hold
/// the same keys.
pub proof fn lemma_found_keys_agree(bytes: Seq<u8>, source: Seq<char>, lang: Seq<char>, r1: Seq<KeyUsage>, r2: Seq<KeyUsage>)
    requires
        usages_found(bytes, source, lang, r1),
        usages_found(bytes, source, lang, r2),
    ensures
        crate::scan::usage_keys(r1) == crate::scan::usage_keys(r2),
{
    assert forall|x: Seq<char>| crate::scan::usage_keys(r1).contains(x) <==> crate::scan::usage_keys(r2).contains(x) by {
        if crate::scan::usage_keys(r1).contains(x) {
            lemma_found_keys_included(bytes, source, lang, r1, r2, x);
        }
        if crate::scan::usage_keys(r2).contains(x) {
            lemma_found_keys_included(bytes, source, lang, r2, r1, x);
        }
    }
    assert(crate::scan::usage_keys(r1) =~= crate::scan::usage_keys(r2));
}

/// What [`pick`] keeps is one of the usages.
proof fn lemma_pick_member(us: Seq<KeyUsage>, s: usize, e: usize)
    ensures
        pick(us, s, e) matches Some(u) ==> exists|i: int| 0 <= i < us.len() && us[i] == u,
    decreases us.len(),
{
    if us.len() > 0 {
        lemma_pick_member(us.drop_last(), s, e);
        if let Some(u) = pick(us.drop_last(), s, e) {
            let i = choose|i: int| 0 <= i < us.drop_last().len() && us.drop_last()[i] == u;
            assert(us[i] == u);
        }
        assert(us[us.len() - 1] == us.last());
    }
}

/// The key of `u` is the text of `bytes` in its range, after its scope and
/// a `.` when it has one.
pub open spec fn key_is_source_text(bytes: Seq<u8>, u: KeyUsage) -> bool {
    exists|t: Seq<char>| #[trigger] encode_utf8(t) == bytes.subrange(u.range.start.offset as int, u.range.end.offset as int)
        && u.key@ == match u.scope {
            Some(ns) => ns@ + seq!['.'] + t,
            None => t,
        }
}

proof fn lemma_usage_is_source_text(bytes: Seq<u8>, u: KeyUsage, o: UsageOffsets)
    requires
        usage_is(bytes, u, o),
    ensures
        key_is_source_text(bytes, u),
{
    let t = choose|t: Seq<char>| #[trigger] encode_utf8(t) == bytes.subrange(o.1 as int, o.2 as int)
        && o.0 == match o.3 {
            Some(ns) => ns + seq!['.'] + t,
            None => t,
        };
    assert(encode_utf8(t) == bytes.subrange(u.range.start.offset as int, u.range.end.offset as int));
}

/// Law: every usage that [`find_usages`] reports names the text of the
/// source between its offsets: its key is that text, after its scope and a
/// `.` when it has one.
pub proof fn lemma_usage_key_is_source_text(bytes: Seq<u8>, source: Seq<char>, lang: Seq<char>, r: Seq<KeyUsage>)
    requires
        usages_found(bytes, source, lang, r),
    ensures
        forall|a: int| 0 <= a < r.len() ==> key_is_source_text(bytes, #[trigger] r[a]),
{
    let all = choose|all: Seq<KeyUsage>| usages_are(bytes, all, applicable_usages(builtin_views(), lang, source))
        && #[trigger] deduped(all, r);
    let os = applicable_usages(builtin_views(), lang, source);
    assert forall|a: int| 0 <= a < r.len() implies key_is_source_text(bytes, #[trigger] r[a]) by {
        let u = r[a];
        assert(pick(all, u.range.start.offset, u.range.end.offset) == Some(u));
        lemma_pick_member(all, u.range.start.offset, u.range.end.offset);
        let i = choose|i: int| 0 <= i < all.len() && all[i] == u;
        assert(usage_is(bytes, all[i], os[i]));
        lemma_usage_is_source_text(bytes, u, os[i]);
    }
}

proof fn lemma_pick_absent(us: Seq<KeyUsage>, s: usize, e: usize)
    requires
        forall|i: int| 0 <= i < us.len() ==> !((#[trigger] us[i]).range.start.offset == s && us[i].range.end.offset == e),
    ensures
        pick(us, s, e) is None,
    decreases us.len(),
{
    if us.len() > 0 {
        assert forall|i: int| 0 <= i < us.drop_last().len() implies !((#[trigger] us.drop_last()[i]).range.start.offset == s && us.drop_last()[i].range.end.offset == e) by {
            assert(us.drop_last()[i] == us[i]);
        }
        lemma_pick_absent(us.drop_last(), s, e);
        assert(us[us.len() - 1] == us.last());
    }
}

/// Merges usages that cover the same range, keeping scoped ones, ordered by range.
pub fn dedupe_by_offset(usages: Vec<KeyUsage>) -> (r: Vec<KeyUsage>)
    ensures
        deduped(usages@, r@),
{
    let ghost us = usages@;
    let mut usages = usages;
    let mut out: Vec<KeyUsage> = Vec::new();
    let mut i: usize = 0;
    let n = usages.len();
    while usages.len() > 0
        invariant
            n == us.len(),
            i + usages@.len() == n,
            usages@ == us.subrange(i as int, n as int),
            deduped(us.take(i as int), out@),
        decreases usages@.len(),
    {
        let u = usages.remove(0);
        assert(u == us[i as int]);
        let ghost pre = us.take(i as int);
        assert(us.take(i + 1) =~= pre.push(u));
        assert(us.take(i + 1).drop_last() =~= pre);
        let s = u.range.start.offset;
        let e = u.range.end.offset;
        // first kept usage not before `u`
        let mut pos: usize = 0;
        while pos < out.len() && (out[pos].range.start.offset < s
            || (out[pos].range.start.offset == s && out[pos].range.end.offset < e))
            invariant
                pos <= out@.len(),
                s == u.range.start.offset,
                e == u.range.end.offset,
                forall|a: int| 0 <= a < pos ==> range_before(#[trigger] out@[a], u),
            decreases out@.len() - pos,
        {
            pos = pos + 1;
        }
        let same = pos < out.len() && out[pos].range.start.offset == s && out[pos].range.end.offset == e;
        let ghost o = out@;
        proof {
            // what `pick` keeps for each range after `u`
            assert forall|s2: usize, e2: usize| #[trigger] pick(us.take(i + 1), s2, e2)
                == if s2 == s && e2 == e {
                    match pick(pre, s2, e2) {
                        None => Some(u),
                        Some(p) => if p.scope is None && u.scope is Some { Some(u) } else { Some(p) },
                    }
                } else {
                    pick(pre, s2, e2)
                } by {}
            if !same {
                assert(pick(pre, s, e) is None) by {
                    if pick(pre, s, e) is Some {
                        let a = choose|a: int| 0 <= a < o.len() && (#[trigger] o[a]).range.start.offset == s && o[a].range.end.offset == e;
                        if a < pos {
                            assert(range_before(o[a], u));
                        } else if a > pos {
                            assert(range_before(o[pos as int], o[a]));
                        }
                    }
                }
            }
        }
        if same {
            let replace = out[pos].scope.is_none() && u.scope.is_some();
            if replace {
                out.set(pos, u);
            }
            proof {
                assert(pick(pre, s, e) == Some(o[pos as int]));
                assert forall|a: int, b: int| 0 <= a < b < out@.len() implies range_before(#[trigger] out@[a], #[trigger] out@[b]) by {
                    assert(range_before(o[a], o[b]));
                }
                assert forall|a: int| 0 <= a < out@.len() implies pick(us.take(i + 1), (#[trigger] out@[a]).range.start.offset, out@[a].range.end.offset) == Some(out@[a]) by {
                    if a != pos {
                        assert(out@[a] == o[a]);
                        assert(range_before(o[a], o[pos as int]) || range_before(o[pos as int], o[a]));
                    }
                }
                assert forall|s2: usize, e2: usize| #[trigger] pick(us.take(i + 1), s2, e2) is Some implies exists|a: int| 0 <= a < out@.len()
                    && (#[trigger] out@[a]).range.start.offset == s2 && out@[a].range.end.offset == e2 by {
                    if s2 == s && e2 == e {
                        assert(out@[pos as int].range.start.offset == s2);
                    } else {
                        let a = choose|a: int| 0 <= a < o.len() && (#[trigger] o[a]).range.start.offset == s2 && o[a].range.end.offset == e2;
                        assert(out@[a] == o[a] || a == pos);
                    }
                }
            }
        } else {
            out.insert(pos, u);
            proof {
                assert forall|a: int, b: int| 0 <= a < b < out@.len() implies range_before(#[trigger] out@[a], #[trigger] out@[b]) by {
                    if b < pos {
                        assert(range_before(o[a], o[b]));
                    } else if b == pos {
                    } else if a == pos {
                        assert(range_before(u, o[pos as int]) || pos == o.len());
                        if b - 1 > pos {
                            assert(range_before(o[pos as int], o[b - 1]));
                        }
                    } else if a < pos {
                        assert(range_before(o[a], u));
                        if b - 1 > pos {
                            assert(range_before(o[pos as int], o[b - 1]));
                        }
                    } else {
                        assert(range_before(o[a - 1], o[b - 1]));
                    }
                }
                assert forall|a: int| 0 <= a < out@.len() implies pick(us.take(i + 1), (#[trigger] out@[a]).range.start.offset, out@[a].range.end.offset) == Some(out@[a]) by {
                    if a < pos {
                        assert(out@[a] == o[a]);
                        assert(range_before(o[a], u));
                    } else if a > pos {
                        assert(out@[a] == o[a - 1]);
                        assert(range_before(u, o[pos as int]));
                        if a - 1 > pos {
                            assert(range_before(o[pos as int], o[a - 1]));
                        }
                    }
                }
                assert forall|s2: usize, e2: usize| #[trigger] pick(us.take(i + 1), s2, e2) is Some implies exists|a: int| 0 <= a < out@.len()
                    && (#[trigger] out@[a]).range.start.offset == s2 && out@[a].range.end.offset == e2 by {
                    if s2 == s && e2 == e {
                        assert(out@[pos as int].range.start.offset == s2);
                    } else {
                        let a = choose|a: int| 0 <= a < o.len() && (#[trigger] o[a]).range.start.offset == s2 && o[a].range.end.offset == e2;
                        if a < pos {
                            assert(out@[a] == o[a]);
                        } else {
                            assert(out@[a + 1] == o[a]);
                        }
                    }
                }
            }
        }
        i = i + 1;
    }
    assert(us.take(n as int) =~= us);
    out
}

/// `r` is what [`find_usages`] gives for `source` (whose UTF-8 bytes are
/// `bytes`) and language `lang`: the usages of the applicable built-in
/// frameworks, merged by range.
pub open spec fn usages_found(bytes: Seq<u8>, source: Seq<char>, lang: Seq<char>, r: Seq<KeyUsage>) -> bool {
    exists|all: Seq<KeyUsage>| usages_are(bytes, all, applicable_usages(builtin_views(), lang, source))
        && #[trigger] deduped(all, r)
}

/// Every usage of a translation function in `source`, across the built-in
/// frameworks that apply to `language_id`, merged by range.
pub fn find_usages(source: &str, language_id: &str) -> (r: Vec<KeyUsage>)
    requires
        2 * source.spec_bytes().len() <= u32::MAX,
    ensures
        usages_found(source.spec_bytes(), source@, language_id@, r@),
{
    let frameworks = builtin_frameworks();
    let ghost fs = builtin_views();
    let mut all: Vec<KeyUsage> = Vec::new();
    let mut i: usize = 0;
    while i < frameworks.len()
        invariant
            2 * source.spec_bytes().len() <= u32::MAX,
            framework_views(frameworks@) == fs,
            i <= fs.len(),
            usages_are(source.spec_bytes(), all@, applicable_usages(fs.take(i as int), language_id@, source@)),
        decreases fs.len() - i,
    {
        assert(fs.take(i + 1).drop_last() =~= fs.take(i as int));
        assert(fs.take(i + 1).last() == frameworks@[i as int].fview());
        let f = &frameworks[i];
        let ghost before = all@;
        let ghost prev = applicable_usages(fs.take(i as int), language_id@, source@);
        if f.applies_to(language_id) {
            let mut found = f.find_usages(source);
            let ghost fu = found@;
            all.append(&mut found);
            proof {
                assert(all@ =~= before + fu);
                let os = applicable_usages(fs.take(i + 1), language_id@, source@);
                assert(os == prev + f.usages_spec(source@));
                assert forall|j: int| 0 <= j < all@.len() implies usage_is(source.spec_bytes(), #[trigger] all@[j], os[j]) by {
                    if j < before.len() {
                        assert(all@[j] == before[j]);
                    } else {
                        assert(all@[j] == fu[j - before.len()]);
                    }
                }
            }
        } else {
            assert(applicable_usages(fs.take(i + 1), language_id@, source@) =~= prev);
        }
        i = i + 1;
    }
    assert(fs.take(fs.len() as int) =~= fs);
    let ghost a = all@;
    let r = dedupe_by_offset(all);
    assert(deduped(a, r@));
    r
}

} // verus!
