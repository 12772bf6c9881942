//! What the assistant tools compute from the index: key listings, a value
//! with its resolved link, and key names suggested for a piece of text.
use vstd::prelude::*;
use vstd::string::*;
use crate::index::{LocaleIndex, lookup_spec, keys_of_trees, strictly_sorted, has_prefix};
use crate::cli::starts_with;
use crate::keytree::find_child;
use crate::linked::{resolve_value, resolve_from, resolution_of, Resolution, ResolvedValue, parse_linked_message, parse_link_spec};
use crate::locale::{Locale, normalize_locale};
use crate::editor::index_keys;
use crate::paths::{stem, stem_of};
use crate::text::{split_spec, views};

verus! {

broadcast use vstd::seq::group_seq_axioms;

// ---------- Listing keys ----------

/// `key` is listed: it starts with `prefix` (when one is given) and has a
/// value in `locale` (when one is given).
pub open spec fn key_listed(idx: LocaleIndex, key: Seq<char>, locale: Option<Seq<char>>, prefix: Option<Seq<char>>) -> bool {
    &&& match prefix {
        Some(p) => p.len() == 0 || has_prefix(key, p),
        None => true,
    }
    &&& match locale {
        Some(l) => find_child(lookup_spec(idx.trees.entries@, split_spec(key, '.')), normalize_locale(l)) is Some,
        None => true,
    }
}

pub open spec fn opt_str_view(o: Option<&str>) -> Option<Seq<char>> {
    match o {
        Some(s) => Some(s@),
        None => None,
    }
}

/// The keys of the index, sorted, that start with `prefix` and have a value
/// in `locale` (each filter only when given).
pub fn list_keys(idx: &LocaleIndex, locale: Option<&str>, prefix: Option<&str>) -> (r: Vec<String>)
    requires
        idx.trees.wf(),
    ensures
        strictly_sorted(views(r@)),
        forall|x: Seq<char>| #[trigger] views(r@).contains(x) <==> (keys_of_trees(idx.trees.entries@).contains(x)
            && key_listed(*idx, x, opt_str_view(locale), opt_str_view(prefix))),
{
    let keys = idx.all_keys();
    let ghost ks = views(keys@);
    let filter = match locale {
        Some(l) => Some(Locale::new(l)),
        None => None,
    };
    let mut out: Vec<String> = Vec::new();
    let mut i: usize = 0;
    while i < keys.len()
        invariant
            idx.trees.wf(),
            ks == views(keys@),
            strictly_sorted(ks),
            forall|x: Seq<char>| #[trigger] ks.contains(x) <==> keys_of_trees(idx.trees.entries@).contains(x),
            match locale {
                Some(l) => filter matches Some(f) && f@ == normalize_locale(l@),
                None => filter is None,
            },
            i <= ks.len(),
            strictly_sorted(views(out@)),
            forall|x: Seq<char>| #[trigger] views(out@).contains(x) <==> (ks.take(i as int).contains(x)
                && key_listed(*idx, x, opt_str_view(locale), opt_str_view(prefix))),
        decreases ks.len() - i,
    {
        let key = &keys[i];
        let by_prefix = match prefix {
            Some(p) => p.unicode_len() == 0 || starts_with(key.as_str(), p),
            None => true,
        };
        let by_locale = match &filter {
            Some(f) => idx.lookup(key.as_str()).contains_key(f),
            None => true,
        };
        let ghost o = views(out@);
        let ghost ov = out@;
        assert(ks.take(i + 1) =~= ks.take(i as int).push(key@));
        proof { crate::text::lemma_contains_push(ks.take(i as int), key@); }
        if by_prefix && by_locale {
            out.push(key.clone());
            assert(views(out@) =~= o.push(key@));
            proof {
                crate::text::lemma_contains_push(o, key@);
                assert forall|a: int, b: int| 0 <= a < b < views(out@).len() implies
                    crate::text::str_lt(#[trigger] views(out@)[a], #[trigger] views(out@)[b]) by {
                    if b == o.len() {
                        assert(o.contains(o[a]));
                        assert(ks.take(i as int).contains(o[a]));
                        let j = choose|j: int| 0 <= j < ks.take(i as int).len() && ks.take(i as int)[j] == o[a];
                        assert(ks[j] == o[a]);
                        assert(crate::text::str_lt(ks[j], ks[i as int]));
                        assert(views(out@)[a] == o[a]);
                    } else {
                        assert(views(out@)[a] == o[a] && views(out@)[b] == o[b]);
                    }
                }
            }
        } else {
            assert(!key_listed(*idx, key@, opt_str_view(locale), opt_str_view(prefix)));
        }
        i = i + 1;
    }
    assert(ks.take(ks.len() as int) =~= ks);
    out
}

// ---------- A value and its link ----------

/// How a value resolves, as reported.
#[derive(Debug)]
pub enum ResolvedReport {
    /// A plain value: itself.
    Text(String),
    /// A link: the text it leads to, its first target and the whole chain.
    Linked { display: String, target: String, chain: Vec<String> },
    /// A link that leads nowhere: its target and why.
    Broken { target: String, reason: String },
}

/// The value of a key in a locale, with what it resolves to.
#[derive(Debug)]
pub struct ValueReport {
    pub key: String,
    pub locale: String,
    pub value: String,
    pub file: String,
    pub resolved: ResolvedReport,
    /// Whether the value is a link (`@:…` / `@.modifier:…`).
    pub is_linked: bool,
    /// The link's modifier, if any.
    pub modifier: Option<String>,
}

pub open spec fn report_resolution(r: ResolvedReport) -> Resolution {
    match r {
        ResolvedReport::Text(t) => Resolution::Literal(t@),
        ResolvedReport::Linked { display, target, chain } => Resolution::Linked { display: display@, target: target@, chain: views(chain@), raw: Seq::empty() },
        ResolvedReport::Broken { target, reason } => Resolution::Broken { target: target@, reason: reason@ },
    }
}

/// `rep` reports resolution `res`: the raw leaf of a link is not reported.
pub open spec fn reports(rep: ResolvedReport, res: Resolution) -> bool {
    match res {
        Resolution::Linked { display, target, chain, raw } => report_resolution(rep) == Resolution::Linked { display, target, chain, raw: Seq::empty() },
        _ => report_resolution(rep) == res,
    }
}

/// The report of `key` in `locale`: an error when the locale has no value
/// for it; else the value, its file, what it resolves to, and its link's
/// modifier when it is a link.
pub fn get_value(idx: &LocaleIndex, key: &str, locale: &str) -> (r: Result<ValueReport, String>)
    requires
        idx.trees.wf(),
    ensures
        match find_child(lookup_spec(idx.trees.entries@, split_spec(key@, '.')), normalize_locale(locale@)) {
            None => r matches Err(m) && m@ == "key `"@ + key@ + "` not defined for locale `"@ + locale@ + "`"@,
            Some(v) => r matches Ok(rep) && rep.key@ == key@ && rep.locale@ == locale@ && rep.value@ == v.value@
                && rep.file@ == v.file@
                && reports(rep.resolved, resolve_from(idx.trees.entries@, normalize_locale(locale@), v.value@, Seq::empty(), None))
                && rep.is_linked == parse_link_spec(v.value@) is Some
                && match parse_link_spec(v.value@) {
                    Some(p) => crate::editor::opt_view(rep.modifier) == p.1,
                    None => rep.modifier is None,
                },
        },
{
    let l = Locale::new(locale);
    let values = idx.lookup(key);
    let v = match values.get(&l) {
        Some(v) => v,
        None => {
            let mut m = String::from_str("key `");
            m.append(key);
            m.append("` not defined for locale `");
            m.append(locale);
            m.append("`");
            return Err(m);
        },
    };
    let resolved = match resolve_value(idx, &l, v.value.as_str()) {
        ResolvedValue::Literal { text } => ResolvedReport::Text(text.to_string()),
        ResolvedValue::Linked { display, target_key, chain, .. } => ResolvedReport::Linked { display, target: target_key, chain },
        ResolvedValue::Broken { target_key, reason } => ResolvedReport::Broken { target: target_key, reason: reason.to_string() },
    };
    let (is_linked, modifier) = match parse_linked_message(v.value.as_str()) {
        Some(link) => (true, match link.modifier {
            Some(m) => Some(m.to_string()),
            None => None,
        }),
        None => (false, None),
    };
    Ok(ValueReport {
        key: key.to_string(),
        locale: locale.to_string(),
        value: v.value.clone(),
        file: v.file.clone(),
        resolved,
        is_linked,
        modifier,
    })
}

/// `indexed N locale(s), N key(s)`.
pub fn reload_summary(idx: &LocaleIndex) -> (r: String)
    ensures
        exists|keys: Seq<Seq<char>>| #[trigger] index_keys(keys, *idx)
            && r@ == "indexed "@ + crate::project::decimal(idx.trees.entries@.len()) + " locale(s), "@
                + crate::project::decimal(keys.len()) + " key(s)"@,
{
    let keys = idx.all_keys();
    let mut s = String::from_str("indexed ");
    s.append(crate::project::decimal_string(idx.trees.len()).as_str());
    s.append(" locale(s), ");
    s.append(crate::project::decimal_string(keys.len()).as_str());
    s.append(" key(s)");
    assert(index_keys(views(keys@), *idx));
    s
}

// ---------- Suggested key names ----------

pub open spec fn is_ascii_alnum(c: char) -> bool {
    ('a' <= c && c <= 'z') || ('A' <= c && c <= 'Z') || ('0' <= c && c <= '9')
}

/// Lowercased ASCII letters and digits, each other run of characters one
/// `_`: the text and whether it ends with that `_`.
pub open spec fn slug_raw(s: Seq<char>) -> (Seq<char>, bool)
    decreases s.len(),
{
    if s.len() == 0 {
        (Seq::empty(), false)
    } else {
        let prev = slug_raw(s.drop_last());
        let c = s.last();
        if is_ascii_alnum(c) {
            (prev.0.push(crate::editor::ascii_lower(c)), false)
        } else if !prev.1 {
            (prev.0.push('_'), true)
        } else {
            prev
        }
    }
}

/// `s` without leading and trailing `_`.
pub open spec fn trim_underscores(s: Seq<char>) -> Seq<char>
    decreases s.len(),
{
    if s.len() > 0 && s[0] == '_' {
        trim_underscores(s.drop_first())
    } else if s.len() > 0 && s.last() == '_' {
        trim_underscores(s.drop_last())
    } else {
        s
    }
}

pub open spec fn slug_spec(s: Seq<char>) -> Seq<char> {
    trim_underscores(slug_raw(s).0)
}

fn trim_underscore_ends(cs: &Vec<char>) -> (r: String)
    ensures
        r@ == trim_underscores(cs@),
{
    let mut a: usize = 0;
    let mut b: usize = cs.len();
    assert(cs@.subrange(0, cs@.len() as int) =~= cs@);
    while a < b && cs[a] == '_'
        invariant
            a <= b <= cs@.len(),
            b == cs@.len(),
            trim_underscores(cs@) == trim_underscores(cs@.subrange(a as int, b as int)),
        decreases b - a,
    {
        assert(cs@.subrange(a as int, b as int).drop_first() =~= cs@.subrange(a + 1, b as int));
        a = a + 1;
    }
    while a < b && cs[b - 1] == '_'
        invariant
            a <= b <= cs@.len(),
            a == b || cs@[a as int] != '_',
            trim_underscores(cs@) == trim_underscores(cs@.subrange(a as int, b as int)),
        decreases b - a,
    {
        assert(cs@.subrange(a as int, b as int).drop_last() =~= cs@.subrange(a as int, b - 1));
        assert(cs@.subrange(a as int, b as int)[0] == cs@[a as int]);
        a = a;
        b = b - 1;
    }
    proof {
        let t = cs@.subrange(a as int, b as int);
        if t.len() > 0 {
            assert(t[0] == cs@[a as int]);
            assert(t.last() == cs@[b - 1]);
        }
    }
    crate::text::string_from_chars(cs, a, b)
}

/// Lowercase ASCII letters and digits of `input`, each run of other
/// characters turned into one `_`, without `_` at either end.
pub fn slugify_segment(input: &str) -> (r: String)
    ensures
        r@ == slug_spec(input@),
{
    let cs = crate::text::chars_of(input);
    let mut out: Vec<char> = Vec::new();
    let mut prev_underscore = false;
    let mut i: usize = 0;
    while i < cs.len()
        invariant
            cs@ == input@,
            i <= cs@.len(),
            (out@, prev_underscore) == slug_raw(cs@.take(i as int)),
        decreases cs@.len() - i,
    {
        let c = cs[i];
        assert(cs@.take(i + 1).drop_last() =~= cs@.take(i as int));
        assert(cs@.take(i + 1).last() == c);
        if ('a' <= c && c <= 'z') || ('A' <= c && c <= 'Z') || ('0' <= c && c <= '9') {
            let d = if 'A' <= c && c <= 'Z' {
                let d = ((c as u32) + 32) as u8 as char;
                assert(d == ((c as u32) + 32) as char);
                d
            } else {
                c
            };
            out.push(d);
            prev_underscore = false;
        } else if !prev_underscore {
            out.push('_');
            prev_underscore = true;
        }
        i = i + 1;
    }
    assert(cs@.take(cs@.len() as int) =~= cs@);
    trim_underscore_ends(&out)
}

pub open spec fn suggested_key_spec(text: Seq<char>, ctx: Option<Seq<char>>) -> Seq<char> {
    match ctx {
        Some(c) => {
            let st = slug_spec(stem_of(c));
            (if st.len() > 0 { st } else { "context"@ }) + "."@ + slug_spec(text)
        },
        None => slug_spec(text),
    }
}

/// The key suggested for `text`: its slug, under the slug of the context
/// file's stem (`context` when that is empty) when a file is given; an
/// error when the text's slug is empty.
pub fn suggest_key(text: &str, file_context: Option<&str>) -> (r: Result<String, String>)
    ensures
        slug_spec(text@).len() == 0 ==> (r matches Err(m) && m@ == "text is empty after slugify"@),
        slug_spec(text@).len() > 0 ==> (r matches Ok(k) && k@ == suggested_key_spec(text@, opt_str_view(file_context))),
{
    let slug = slugify_segment(text);
    if slug.unicode_len() == 0 {
        return Err(String::from_str("text is empty after slugify"));
    }
    match file_context {
        Some(ctx) => {
            let st = slugify_segment(stem(ctx).as_str());
            let mut key = if st.unicode_len() > 0 { st } else { String::from_str("context") };
            key.append(".");
            key.append(slug.as_str());
            Ok(key)
        },
        None => Ok(slug),
    }
}

/// Where `set_value` writes: see [`crate::cli::write_plan`].
pub fn set_value_plan(idx: &LocaleIndex, key: &str, locale: &str) -> (r: Result<(String, Vec<String>), String>)
    ensures
        match crate::edits::file_of(*idx, crate::locale::normalize_locale(locale@)) {
            None => r matches Err(m) && m@ == "no locale file for `"@ + locale@ + "`"@,
            Some(p) => if crate::edits::is_editable_extension(crate::edits::ext_or_empty(p)) {
                r matches Ok(t) && t.0@ == p && views(t.1@) == split_spec(key@, '.')
            } else {
                r matches Err(m) && m@ == "set_value only supports JSON locale files right now (got ."@
                    + crate::edits::ext_or_empty(p) + ")"@
            },
        },
{
    proof {
        reveal_strlit("set_value");
        reveal_strlit(" only supports JSON locale files right now (got .");
        reveal_strlit("set_value only supports JSON locale files right now (got .");
        assert("set_value"@ + " only supports JSON locale files right now (got ."@
            =~= "set_value only supports JSON locale files right now (got ."@);
    }
    crate::cli::write_plan(idx, key, locale, "set_value")
}

/// A value of the environment, when it is set and not empty.
pub open spec fn set_nonempty(v: Option<&str>) -> bool {
    v matches Some(s) && s@.len() > 0
}

/// The workspace the MCP server serves: the workspace named by the
/// environment (the current variable, then the legacy one), else the first
/// argument, else the working directory, else `.`.
pub fn resolve_workspace(env_workspace: Option<&str>, env_legacy: Option<&str>, first_arg: Option<&str>, cwd: Option<&str>) -> (r: String)
    ensures
        set_nonempty(env_workspace) ==> r@ == env_workspace.unwrap()@,
        !set_nonempty(env_workspace) && set_nonempty(env_legacy) ==> r@ == env_legacy.unwrap()@,
        !set_nonempty(env_workspace) && !set_nonempty(env_legacy) ==> r@ == match first_arg {
            Some(a) => a@,
            None => match cwd {
                Some(c) => c@,
                None => "."@,
            },
        },
{
    if let Some(w) = env_workspace {
        if crate::text::chars_of(w).len() > 0 {
            return w.to_string();
        }
    }
    if let Some(w) = env_legacy {
        if crate::text::chars_of(w).len() > 0 {
            return w.to_string();
        }
    }
    match first_arg {
        Some(a) => a.to_string(),
        None => match cwd {
            Some(c) => c.to_string(),
            None => String::from_str("."),
        },
    }
}

/// Why `translate_key` does nothing: no API key is configured, or the
/// translation itself is not there yet.
pub fn translate_key_refusal(has_deepl_key: bool, has_openai_key: bool) -> (r: String)
    ensures
        !has_deepl_key && !has_openai_key ==> r@ == "no translation API key found (set LOKALIZED_DEEPL_KEY or OPENAI_API_KEY)"@,
        has_deepl_key || has_openai_key ==> r@ == "automatic translation is not implemented yet — use set_value after translating externally"@,
{
    if !has_deepl_key && !has_openai_key {
        String::from_str("no translation API key found (set LOKALIZED_DEEPL_KEY or OPENAI_API_KEY)")
    } else {
        String::from_str("automatic translation is not implemented yet — use set_value after translating externally")
    }
}

} // verus!
