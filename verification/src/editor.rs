//! What the editor integration computes from the index: where the quick
//! fix "create the missing key" writes, the diagnostics of source and
//! locale files, hover text, inlay hints, completions and workspace symbols.
use vstd::prelude::*;
use vstd::string::*;
use crate::index::{LocaleIndex, LocaleTrees, Lookup, lookup_spec, lookup_pairs, locales_increasing, layout_or_nested};
use crate::keytree::{KeyTree, KeyNode, LocalizedValue, find_child, find_slot, keys_sorted, tree_wf, lemma_wf_from, node_wf, lemma_find_child_at, leaf_at};
use crate::locale::{Locale, LocaleFile, LocaleLayout};
use crate::config::ProjectConfig;
use crate::text::{split_spec, split_char, views, str_eq};
use crate::position::{Range, Position, LineIndex};
use crate::index::{strictly_sorted, keys_of_trees};
use crate::linked::lowercase;
use crate::framework::{KeyUsage, find_usages, usages_found};
use crate::parser::{LocaleEntry, ParseError, parse_result_for, parse_with_extension};
use crate::scan::UsageIndex;
use crate::index::namespaced_path;
use crate::text::join_spec;
use crate::display::{ParsedValue, forms_spec, form_label_spec, escape_md, escape_md_spec, truncate_chars, truncate_spec, str_views, trim_spec, contains_seq};
use crate::paths::{file_name, file_name_of};
use crate::project::{decimal, digit_char};

verus! {

broadcast use vstd::seq::group_seq_axioms;

// ---------- First leaves ----------

/// The first leaf of `t` from child `i` on, depth first.
pub open spec fn first_leaf_from(t: KeyTree, i: int) -> Option<LocalizedValue>
    decreases t, t.children@.len() - i,
{
    if i < 0 || i >= t.children@.len() {
        None
    } else {
        match t.children@[i].1 {
            KeyNode::Leaf(v) => Some(v),
            KeyNode::Branch(sub) => {
                proof { assert(decreases_to!(t => sub)); }
                match first_leaf_from(sub, 0) {
                    Some(v) => Some(v),
                    None => first_leaf_from(t, i + 1),
                }
            },
        }
    }
}

/// Following `prefix` down from `t`: the leaf met on the way, else the first
/// leaf below the end of the prefix; `None` when a segment is missing.
pub open spec fn first_leaf_under(t: KeyTree, prefix: Seq<Seq<char>>) -> Option<LocalizedValue>
    decreases prefix.len(),
{
    if prefix.len() == 0 {
        first_leaf_from(t, 0)
    } else {
        match find_child(t.children@, prefix[0]) {
            None => None,
            Some(KeyNode::Leaf(v)) => Some(v),
            Some(KeyNode::Branch(sub)) => first_leaf_under(sub, prefix.drop_first()),
        }
    }
}

fn first_leaf_in_from(t: &KeyTree, i: usize) -> (r: Option<&LocalizedValue>)
    requires
        i <= t.children@.len(),
    ensures
        match r {
            Some(v) => first_leaf_from(*t, i as int) == Some(*v),
            None => first_leaf_from(*t, i as int) is None,
        },
    decreases *t, t.children@.len() - i,
{
    if i >= t.children.len() {
        return None;
    }
    match &t.children[i].1 {
        KeyNode::Leaf(v) => Some(v),
        KeyNode::Branch(sub) => {
            proof { assert(decreases_to!(*t => *sub)); }
            match first_leaf_in_from(sub, 0) {
                Some(v) => Some(v),
                None => first_leaf_in_from(t, i + 1),
            }
        },
    }
}

/// See [`first_leaf_under`].
fn first_leaf_under_exec<'a>(t: &'a KeyTree, prefix: &[String]) -> (r: Option<&'a LocalizedValue>)
    requires
        tree_wf(*t),
    ensures
        match r {
            Some(v) => first_leaf_under(*t, views(prefix@)) == Some(*v),
            None => first_leaf_under(*t, views(prefix@)) is None,
        },
{
    let ghost p = views(prefix@);
    let mut current: &KeyTree = t;
    let mut i: usize = 0;
    assert(p.skip(0) =~= p);
    while i < prefix.len()
        invariant
            p == views(prefix@),
            i <= prefix@.len(),
            tree_wf(*current),
            first_leaf_under(*t, p) == first_leaf_under(*current, p.skip(i as int)),
        decreases prefix@.len() - i,
    {
        let ghost rest = p.skip(i as int);
        assert(rest[0] == prefix@[i as int]@);
        assert(rest.drop_first() =~= p.skip(i + 1));
        let (pos, found) = find_slot(&current.children, prefix[i].as_str());
        if !found {
            return None;
        }
        proof { lemma_find_child_at(current.children@, pos as int); }
        match &current.children[pos].1 {
            KeyNode::Leaf(v) => {
                return Some(v);
            },
            KeyNode::Branch(sub) => {
                proof {
                    lemma_wf_from(*current, 0);
                    assert(node_wf(current.children@[pos as int].1));
                }
                current = sub;
            },
        }
        i = i + 1;
    }
    assert(p.skip(prefix@.len() as int).len() == 0);
    first_leaf_in_from(current, 0)
}

/// The first leaf under `prefix` in the trees `es`, tree after tree.
pub open spec fn leaf_under_in_trees(es: Seq<(Locale, KeyTree)>, prefix: Seq<Seq<char>>) -> Option<LocalizedValue>
    decreases es.len(),
{
    if es.len() == 0 {
        None
    } else {
        match first_leaf_under(es[0].1, prefix) {
            Some(v) => Some(v),
            None => leaf_under_in_trees(es.drop_first(), prefix),
        }
    }
}

/// A leaf sharing the longest strict prefix of `segs`: the prefixes of
/// length `n` down to 1 are tried in turn.
pub open spec fn reference_from(es: Seq<(Locale, KeyTree)>, segs: Seq<Seq<char>>, n: int) -> Option<LocalizedValue>
    decreases n,
{
    if n < 1 {
        None
    } else {
        match leaf_under_in_trees(es, segs.take(n)) {
            Some(v) => Some(v),
            None => reference_from(es, segs, n - 1),
        }
    }
}

/// A value of a key sharing a prefix with `key`, for a key that exists in
/// no locale yet.
pub open spec fn reference_value_of(es: Seq<(Locale, KeyTree)>, key: Seq<char>) -> Option<LocalizedValue> {
    reference_from(es, split_spec(key, '.'), split_spec(key, '.').len() - 1)
}

/// See [`reference_value_of`].
pub fn find_reference_value<'a>(trees: &'a LocaleTrees, key: &str) -> (r: Option<&'a LocalizedValue>)
    requires
        trees.wf(),
    ensures
        match r {
            Some(v) => reference_value_of(trees.entries@, key@) == Some(*v),
            None => reference_value_of(trees.entries@, key@) is None,
        },
{
    let segs = split_char(key, '.');
    let ghost sv = views(segs@);
    let ghost es = trees.entries@;
    proof { crate::text::lemma_split_nonempty(key@, '.'); }
    let mut n: usize = segs.len() - 1;
    while n >= 1
        invariant
            sv == views(segs@),
            sv == split_spec(key@, '.'),
            es == trees.entries@,
            trees.wf(),
            n < segs@.len(),
            reference_value_of(es, key@) == reference_from(es, sv, n as int),
        decreases n,
    {
        let mut prefix: Vec<String> = Vec::new();
        let mut k: usize = 0;
        while k < n
            invariant
                k <= n < segs@.len(),
                views(prefix@) == sv.take(k as int),
                sv == views(segs@),
            decreases n - k,
        {
            let ghost pv = views(prefix@);
            prefix.push(segs[k].clone());
            assert(views(prefix@) =~= pv.push(segs@[k as int]@));
            assert(sv.take(k + 1) =~= sv.take(k as int).push(sv[k as int]));
            k = k + 1;
        }
        let mut t: usize = 0;
        assert(es.skip(0) =~= es);
        while t < trees.entries.len()
            invariant
                trees.wf(),
                es == trees.entries@,
                1 <= n < sv.len(),
                reference_value_of(es, key@) == reference_from(es, sv, n as int),
                t <= es.len(),
                views(prefix@) == sv.take(n as int),
                leaf_under_in_trees(es, sv.take(n as int)) == leaf_under_in_trees(es.skip(t as int), sv.take(n as int)),
            decreases es.len() - t,
        {
            assert(es.skip(t as int)[0] == es[t as int]);
            assert(es.skip(t as int).drop_first() =~= es.skip(t + 1));
            assert(tree_wf(es[t as int].1));
            match first_leaf_under_exec(&trees.entries[t].1, prefix.as_slice()) {
                Some(v) => {
                    return Some(v);
                },
                None => {},
            }
            t = t + 1;
        }
        assert(es.skip(es.len() as int).len() == 0);
        n = n - 1;
    }
    None
}

// ---------- Where a missing key is created ----------

pub open spec fn ns_view(ns: Option<String>) -> Option<Seq<char>> {
    match ns {
        Some(s) => Some(s@),
        None => None,
    }
}

/// `i` is the first file of locale `l` with namespace `ns`.
pub open spec fn sibling_at(files: Seq<LocaleFile>, l: Seq<char>, ns: Option<Seq<char>>, i: int) -> bool {
    &&& 0 <= i < files.len()
    &&& files[i].locale@ == l && ns_view(files[i].namespace) == ns
    &&& forall|j: int| 0 <= j < i ==> !((#[trigger] files[j]).locale@ == l && ns_view(files[j].namespace) == ns)
}

/// `i` is the only file of locale `l`.
pub open spec fn only_file_at(files: Seq<LocaleFile>, l: Seq<char>, i: int) -> bool {
    &&& 0 <= i < files.len()
    &&& files[i].locale@ == l
    &&& forall|j: int| 0 <= j < files.len() && j != i ==> (#[trigger] files[j]).locale@ != l
}

/// The file of locale `l` that mirrors a file of namespace `ns`: the first
/// one with that namespace, else the locale's only file.
pub open spec fn target_file_of(files: Seq<LocaleFile>, l: Seq<char>, ns: Option<Seq<char>>) -> Option<int> {
    if exists|i: int| sibling_at(files, l, ns, i) {
        Some(choose|i: int| sibling_at(files, l, ns, i))
    } else if exists|i: int| only_file_at(files, l, i) {
        Some(choose|i: int| only_file_at(files, l, i))
    } else {
        None
    }
}

fn same_namespace(a: &Option<String>, b: &Option<String>) -> (r: bool)
    ensures
        r == (ns_view(*a) == ns_view(*b)),
{
    match (a, b) {
        (Some(x), Some(y)) => str_eq(x.as_str(), y.as_str()),
        (None, None) => true,
        _ => false,
    }
}

/// See [`target_file_of`].
pub fn find_target_file(files: &Vec<LocaleFile>, source_namespace: &Option<String>, locale: &Locale) -> (r: Option<usize>)
    ensures
        match r {
            Some(i) => target_file_of(files@, locale@, ns_view(*source_namespace)) == Some(i as int),
            None => target_file_of(files@, locale@, ns_view(*source_namespace)) is None,
        },
{
    let ghost ns = ns_view(*source_namespace);
    let ghost l = locale@;
    let mut i: usize = 0;
    while i < files.len()
        invariant
            l == locale@,
            ns == ns_view(*source_namespace),
            i <= files@.len(),
            forall|j: int| 0 <= j < i ==> !((#[trigger] files@[j]).locale@ == l && ns_view(files@[j].namespace) == ns),
        decreases files@.len() - i,
    {
        if files[i].locale.same_as(locale) && same_namespace(&files[i].namespace, source_namespace) {
            assert(sibling_at(files@, l, ns, i as int));
            proof {
                assert forall|k: int| sibling_at(files@, l, ns, k) implies k == i by {
                    if k < i {
                    } else if k > i {
                        assert(!((files@[i as int]).locale@ == l && ns_view(files@[i as int].namespace) == ns));
                    }
                }
            }
            return Some(i);
        }
        i = i + 1;
    }
    assert(!exists|k: int| sibling_at(files@, l, ns, k));
    let mut found: Option<usize> = None;
    let mut count: usize = 0;
    let mut j: usize = 0;
    while j < files.len()
        invariant
            l == locale@,
            j <= files@.len(),
            count <= j,
            count == 0 ==> found is None && forall|k: int| 0 <= k < j ==> (#[trigger] files@[k]).locale@ != l,
            count == 1 ==> (found matches Some(f) && f < j && files@[f as int].locale@ == l
                && forall|k: int| 0 <= k < j && k != f ==> (#[trigger] files@[k]).locale@ != l),
            count >= 2 ==> exists|a: int, b: int| 0 <= a < b < j && (#[trigger] files@[a]).locale@ == l && (#[trigger] files@[b]).locale@ == l,
        decreases files@.len() - j,
    {
        if files[j].locale.same_as(locale) {
            if count == 1 {
                let ghost f = found->0;
                assert(0 <= f < j && files@[f as int].locale@ == l);
            }
            if count < 2 {
                count = count + 1;
            }
            if count == 1 {
                found = Some(j);
            }
        }
        j = j + 1;
    }
    if count == 1 {
        let f = found.unwrap();
        assert(only_file_at(files@, l, f as int));
        proof {
            assert forall|k: int| only_file_at(files@, l, k) implies k == f by {}
        }
        return Some(f);
    }
    proof {
        if count == 0 {
            assert(!exists|k: int| only_file_at(files@, l, k));
        } else {
            let (a, b) = choose|a: int, b: int| 0 <= a < b < files@.len() && (#[trigger] files@[a]).locale@ == l && (#[trigger] files@[b]).locale@ == l;
            assert forall|k: int| !only_file_at(files@, l, k) by {
                if only_file_at(files@, l, k) {
                    if k != a {
                        assert(files@[a].locale@ != l);
                    } else {
                        assert(files@[b].locale@ != l);
                    }
                }
            }
        }
    }
    None
}

/// Segments of `key` inside a file of namespace `ns`: without the namespace
/// when the layout is nested, file namespaces are on, and the key starts
/// with it.
pub open spec fn target_key_path(key: Seq<char>, ns: Option<Seq<char>>, layout: LocaleLayout, config: ProjectConfig) -> Seq<Seq<char>> {
    let segs = split_spec(key, '.');
    if layout != LocaleLayout::Nested || ns is None {
        segs
    } else if config.spec_use_file_namespace() && segs[0] == ns->0 {
        segs.drop_first()
    } else {
        segs
    }
}

/// See [`target_key_path`].
pub fn target_key_path_exec(key: &str, ns: &Option<String>, layout: LocaleLayout, config: &ProjectConfig) -> (r: Vec<String>)
    ensures
        views(r@) == target_key_path(key@, ns_view(*ns), layout, *config),
{
    let segs = split_char(key, '.');
    proof { crate::text::lemma_split_nonempty(key@, '.'); }
    if layout != LocaleLayout::Nested {
        return segs;
    }
    let n = match ns {
        Some(n) => n,
        None => return segs,
    };
    if config.use_file_namespace() && str_eq(segs[0].as_str(), n.as_str()) {
        let mut rest: Vec<String> = Vec::new();
        let mut i: usize = 1;
        while i < segs.len()
            invariant
                1 <= i <= segs@.len(),
                views(rest@) == views(segs@).subrange(1, i as int),
            decreases segs@.len() - i,
        {
            let ghost r0 = views(rest@);
            rest.push(segs[i].clone());
            assert(views(rest@) =~= r0.push(segs@[i as int]@));
            assert(views(segs@).subrange(1, i + 1) =~= views(segs@).subrange(1, i as int).push(segs@[i as int]@));
            i = i + 1;
        }
        assert(views(segs@).subrange(1, segs@.len() as int) =~= views(segs@).drop_first());
        return rest;
    }
    segs
}

// ---------- Placeholder text ----------

/// Whether `char::is_uppercase` holds of `c`.
pub uninterp spec fn is_upper(c: char) -> bool;

/// Calls `char::is_uppercase`. Among ASCII characters exactly `A`..=`Z`
/// are uppercase; beyond ASCII the answer is only named, by [`is_upper`].
#[verifier::external_body]
fn char_is_uppercase(c: char) -> (r: bool)
    ensures
        r == is_upper(c),
        (c as u32) < 0x80 ==> (r == ('A' <= c && c <= 'Z')),
{
    c.is_uppercase()
}

/// `c` with ASCII capitals lowered.
pub open spec fn ascii_lower(c: char) -> char {
    if 'A' <= c && c <= 'Z' { ((c as u32) + 32) as char } else { c }
}

/// `s` with a space before every uppercase character but the first, and
/// ASCII capitals lowered.
pub open spec fn humanize_chars(s: Seq<char>) -> Seq<char>
    decreases s.len(),
{
    if s.len() == 0 {
        Seq::empty()
    } else {
        let prev = humanize_chars(s.drop_last());
        let c = s.last();
        if s.len() > 1 && is_upper(c) { prev + seq![' ', ascii_lower(c)] } else { prev.push(ascii_lower(c)) }
    }
}

/// The last segment of `key`, humanized: `some.nested.myKey` gives `my key`.
pub open spec fn humanize_spec(key: Seq<char>) -> Seq<char> {
    humanize_chars(split_spec(key, '.').last())
}

fn to_ascii_lower(c: char) -> (r: char)
    ensures
        r == ascii_lower(c),
{
    if 'A' <= c && c <= 'Z' {
        let d = ((c as u32) + 32) as u8 as char;
        assert(d == ((c as u32) + 32) as char);
        d
    } else {
        c
    }
}

/// A placeholder value for a key that has none yet.
pub fn humanize_key(key: &str) -> (r: String)
    ensures
        r@ == humanize_spec(key@),
{
    let segs = split_char(key, '.');
    proof { crate::text::lemma_split_nonempty(key@, '.'); }
    let last = &segs[segs.len() - 1];
    let cs = crate::text::chars_of(last.as_str());
    let ghost s = cs@;
    assert(s == split_spec(key@, '.').last());
    let mut out = String::new();
    let mut i: usize = 0;
    while i < cs.len()
        invariant
            s == cs@,
            i <= s.len(),
            out@ == humanize_chars(s.take(i as int)),
        decreases s.len() - i,
    {
        let c = cs[i];
        assert(s.take(i + 1).drop_last() =~= s.take(i as int));
        assert(s.take(i + 1).last() == c);
        if i > 0 && char_is_uppercase(c) {
            let ghost o = out@;
            out.push(' ');
            out.push(to_ascii_lower(c));
            assert(out@ =~= o + seq![' ', ascii_lower(c)]);
        } else {
            out.push(to_ascii_lower(c));
        }
        i = i + 1;
    }
    assert(s.take(s.len() as int) =~= s);
    out
}

// ---------- Quick fix: create a missing key ----------

/// Where a missing key is to be created: the locale, its file, the key's
/// segments inside that file and the value to write.
#[derive(Debug)]
pub struct FillPlan {
    pub locale: Locale,
    pub path: String,
    pub key_path: Vec<String>,
    pub value: String,
}

pub type FillPlanView = (Seq<char>, Seq<char>, Seq<Seq<char>>, Seq<char>);

pub open spec fn plan_views(ps: Seq<FillPlan>) -> Seq<FillPlanView> {
    ps.map_values(|p: FillPlan| (p.locale@, p.path@, views(p.key_path@), p.value@))
}

/// Locales of `es` without a leaf at `p`, in order.
pub open spec fn missing_locales(es: Seq<(Locale, KeyTree)>, p: Seq<Seq<char>>) -> Seq<Seq<char>>
    decreases es.len(),
{
    if es.len() == 0 {
        Seq::empty()
    } else {
        let rest = missing_locales(es.drop_last(), p);
        if crate::keytree::leaf_at(es.last().1, p) is None { rest.push(es.last().0@) } else { rest }
    }
}

/// The value written for a missing key: the source locale's, else the first
/// locale's, else a placeholder made from the key.
pub open spec fn fill_value(es: Seq<(Locale, KeyTree)>, key: Seq<char>, source: Seq<char>) -> Seq<char> {
    let pairs = lookup_spec(es, split_spec(key, '.'));
    match find_child(pairs, source) {
        Some(v) => v.value@,
        None => if pairs.len() > 0 { pairs[0].1.value@ } else { humanize_spec(key) },
    }
}

/// The value whose file the new key mirrors: the first locale's, else one
/// under a shared prefix.
pub open spec fn fill_reference(es: Seq<(Locale, KeyTree)>, key: Seq<char>) -> Option<LocalizedValue> {
    let pairs = lookup_spec(es, split_spec(key, '.'));
    if pairs.len() > 0 { Some(pairs[0].1) } else { reference_value_of(es, key) }
}

/// `i` is the first file at `path`.
pub open spec fn first_file_at(files: Seq<LocaleFile>, path: Seq<char>, i: int) -> bool {
    &&& 0 <= i < files.len()
    &&& files[i].path@ == path
    &&& forall|j: int| 0 <= j < i ==> (#[trigger] files[j]).path@ != path
}

/// The plans for the locales `ls`, mirroring a file of namespace `ns`.
pub open spec fn plans_for(idx: LocaleIndex, key: Seq<char>, ls: Seq<Seq<char>>, ns: Option<Seq<char>>) -> Seq<FillPlanView>
    decreases ls.len(),
{
    if ls.len() == 0 {
        Seq::empty()
    } else {
        let rest = plans_for(idx, key, ls.drop_last(), ns);
        match target_file_of(idx.files@, ls.last(), ns) {
            None => rest,
            Some(ti) => {
                let kp = target_key_path(key, ns_view(idx.files@[ti].namespace), layout_or_nested(idx.layout), idx.config);
                if kp.len() == 0 {
                    rest
                } else {
                    rest.push((ls.last(), idx.files@[ti].path@, kp, fill_value(idx.trees.entries@, key, idx.source_locale@)))
                }
            },
        }
    }
}

/// The plans of the quick fix creating `key` in every locale missing it:
/// none unless the file of the reference value is known; else, per missing
/// locale in order, its file mirroring that one, when there is one.
pub open spec fn fill_plans_spec(idx: LocaleIndex, key: Seq<char>) -> Seq<FillPlanView> {
    let es = idx.trees.entries@;
    match fill_reference(es, key) {
        None => Seq::empty(),
        Some(v) => if exists|i: int| first_file_at(idx.files@, v.file@, i) {
            let si = choose|i: int| first_file_at(idx.files@, v.file@, i);
            plans_for(idx, key, missing_locales(es, split_spec(key, '.')), ns_view(idx.files@[si].namespace))
        } else {
            Seq::empty()
        },
    }
}

fn file_index_at(files: &Vec<LocaleFile>, path: &str) -> (r: Option<usize>)
    ensures
        match r {
            Some(i) => first_file_at(files@, path@, i as int),
            None => !exists|i: int| first_file_at(files@, path@, i),
        },
{
    let mut i: usize = 0;
    while i < files.len()
        invariant
            i <= files@.len(),
            forall|j: int| 0 <= j < i ==> (#[trigger] files@[j]).path@ != path@,
        decreases files@.len() - i,
    {
        if str_eq(files[i].path.as_str(), path) {
            return Some(i);
        }
        i = i + 1;
    }
    None
}

proof fn lemma_first_file_unique(files: Seq<LocaleFile>, path: Seq<char>, i: int, k: int)
    requires
        first_file_at(files, path, i),
        first_file_at(files, path, k),
    ensures
        i == k,
{
    if i < k {
        assert(files[i].path@ != path);
    } else if k < i {
        assert(files[k].path@ != path);
    }
}

/// See [`fill_plans_spec`].
pub fn fill_missing_plans(idx: &LocaleIndex, key: &str) -> (r: Vec<FillPlan>)
    requires
        idx.trees.wf(),
    ensures
        plan_views(r@) == fill_plans_spec(*idx, key@),
{
    let ghost es = idx.trees.entries@;
    let ghost p = split_spec(key@, '.');
    let values = idx.lookup(key);
    let ghost pairs = lookup_pairs(values.entries@);
    let value = match values.get(&idx.source_locale) {
        Some(v) => v.value.clone(),
        None => if values.entries.len() > 0 { values.entries[0].1.value.clone() } else { humanize_key(key) },
    };
    assert(value@ == fill_value(es, key@, idx.source_locale@));
    let reference = if values.entries.len() > 0 {
        Some(values.entries[0].1)
    } else {
        find_reference_value(&idx.trees, key)
    };
    let src_value = match reference {
        Some(v) => v,
        None => return Vec::new(),
    };
    assert(fill_reference(es, key@) == Some(*src_value));
    let si = match file_index_at(&idx.files, src_value.file.as_str()) {
        Some(i) => i,
        None => return Vec::new(),
    };
    proof {
        assert forall|k: int| first_file_at(idx.files@, src_value.file@, k) implies k == si by {
            lemma_first_file_unique(idx.files@, src_value.file@, si as int, k);
        }
    }
    let ns = &idx.files[si].namespace;
    let layout = match idx.layout {
        Some(l) => l,
        None => LocaleLayout::Nested,
    };
    let mut out: Vec<FillPlan> = Vec::new();
    let mut missing: Vec<&Locale> = Vec::new();
    let mut i: usize = 0;
    while i < idx.trees.entries.len()
        invariant
            idx.trees.wf(),
            es == idx.trees.entries@,
            p == split_spec(key@, '.'),
            pairs == lookup_pairs(values.entries@),
            pairs == lookup_spec(es, p),
            locales_increasing(values.entries@),
            i <= es.len(),
            missing@.len() <= i,
            missing@.map_values(|l: &Locale| l@) == missing_locales(es.take(i as int), p),
        decreases es.len() - i,
    {
        let l = &idx.trees.entries[i].0;
        assert(es.take(i + 1).drop_last() =~= es.take(i as int));
        assert(es.take(i + 1).last() == es[i as int]);
        proof {
            crate::index::lemma_lookup_spec_find(es, p, l@);
            lemma_find_child_at(es, i as int);
        }
        if !values.contains_key(l) {
            let ghost m0 = missing@.map_values(|l: &Locale| l@);
            missing.push(l);
            assert(missing@.map_values(|l: &Locale| l@) =~= m0.push(l@));
        }
        i = i + 1;
    }
    assert(es.take(es.len() as int) =~= es);
    let ghost ms = missing@.map_values(|l: &Locale| l@);
    let mut j: usize = 0;
    while j < missing.len()
        invariant
            ms == missing@.map_values(|l: &Locale| l@),
            j <= missing@.len(),
            ns == &idx.files@[si as int].namespace,
            layout == layout_or_nested(idx.layout),
            value@ == fill_value(idx.trees.entries@, key@, idx.source_locale@),
            plan_views(out@) == plans_for(*idx, key@, ms.take(j as int), ns_view(*ns)),
        decreases missing@.len() - j,
    {
        assert(ms.take(j + 1).drop_last() =~= ms.take(j as int));
        assert(ms.take(j + 1).last() == missing@[j as int]@);
        match find_target_file(&idx.files, ns, missing[j]) {
            Some(ti) => {
                let kp = target_key_path_exec(key, &idx.files[ti].namespace, layout, &idx.config);
                if kp.len() > 0 {
                    let ghost o = plan_views(out@);
                    let plan = FillPlan { locale: missing[j].duplicate(), path: idx.files[ti].path.clone(), key_path: kp, value: value.clone() };
                    out.push(plan);
                    assert(plan_views(out@) =~= o.push((missing@[j as int]@, idx.files@[ti as int].path@, views(plan.key_path@), value@)));
                }
            },
            None => {},
        }
        j = j + 1;
    }
    assert(ms.take(ms.len() as int) =~= ms);
    out
}

// ---------- Diagnostics ----------

/// How serious a diagnostic is.
#[derive(Clone, Copy, Debug, PartialEq, Eq, Structural)]
pub enum Severity {
    Warning,
    Information,
    Hint,
}

/// A diagnostic for the editor: where, how serious, its code, its message,
/// and whether it marks text that is not needed.
#[derive(Debug)]
pub struct EditorDiagnostic {
    pub range: Range,
    pub severity: Severity,
    pub code: String,
    pub message: String,
    pub unnecessary: bool,
}

pub type DiagnosticView = (Range, Severity, Seq<char>, Seq<char>, bool);

pub open spec fn diagnostic_views(ds: Seq<EditorDiagnostic>) -> Seq<DiagnosticView> {
    ds.map_values(|d: EditorDiagnostic| (d.range, d.severity, d.code@, d.message@, d.unnecessary))
}

pub open spec fn missing_key_message(key: Seq<char>) -> Seq<char> {
    "Missing translation for key `"@ + key + "`"@
}

pub open spec fn missing_source_message(key: Seq<char>, source: Seq<char>) -> Seq<char> {
    "Key `"@ + key + "` is missing from source locale `"@ + source + "`"@
}

pub open spec fn unused_key_message(key: Seq<char>) -> Seq<char> {
    "Translation key `"@ + key + "` is not referenced by any scanned source file."@
}

/// The diagnostic of a key usage: a warning when no locale defines the key,
/// a note when the source locale does not, else none.
pub open spec fn usage_diagnostic(idx: LocaleIndex, u: KeyUsage) -> Option<DiagnosticView> {
    let pairs = lookup_spec(idx.trees.entries@, split_spec(u.key@, '.'));
    if pairs.len() == 0 {
        Some((u.range, Severity::Warning, "missing-key"@, missing_key_message(u.key@), false))
    } else if find_child(pairs, idx.source_locale@) is None {
        Some((u.range, Severity::Information, "missing-source"@, missing_source_message(u.key@, idx.source_locale@), false))
    } else {
        None
    }
}

/// Some tree of `es` has a leaf at `p`.
pub open spec fn some_locale_defines(es: Seq<(Locale, KeyTree)>, p: Seq<Seq<char>>) -> bool {
    exists|j: int| 0 <= j < es.len() && (#[trigger] leaf_at(es[j].1, p)) is Some
}

proof fn lemma_lookup_empty(es: Seq<(Locale, KeyTree)>, p: Seq<Seq<char>>)
    ensures
        lookup_spec(es, p).len() == 0 <==> !some_locale_defines(es, p),
    decreases es.len(),
{
    if es.len() > 0 {
        lemma_lookup_empty(es.drop_last(), p);
        if some_locale_defines(es.drop_last(), p) {
            let j = choose|j: int| 0 <= j < es.drop_last().len() && (#[trigger] leaf_at(es.drop_last()[j].1, p)) is Some;
            assert(es[j] == es.drop_last()[j]);
        }
        if some_locale_defines(es, p) {
            let j = choose|j: int| 0 <= j < es.len() && (#[trigger] leaf_at(es[j].1, p)) is Some;
            if j < es.len() - 1 {
                assert(es[j] == es.drop_last()[j]);
            } else {
                assert(es.last() == es[j]);
            }
        }
    }
}

/// Law: the diagnostic of a key usage, by where the key is defined. No
/// locale defines it: a `missing-key` warning. Some locale defines it but
/// not the source locale: a `missing-source` note at the usage, naming the
/// key and the source locale. The source locale defines it: nothing.
pub proof fn lemma_usage_diagnostic_by_definition(idx: LocaleIndex, u: KeyUsage)
    requires
        idx.trees.wf(),
    ensures
        ({
            let p = split_spec(u.key@, '.');
            let es = idx.trees.entries@;
            let in_source = idx.trees.tree(idx.source_locale@) matches Some(t) && leaf_at(t, p) is Some;
            &&& !some_locale_defines(es, p) ==> usage_diagnostic(idx, u)
                == Some((u.range, Severity::Warning, "missing-key"@, "Missing translation for key `"@ + u.key@ + "`"@, false))
            &&& some_locale_defines(es, p) && !in_source ==> usage_diagnostic(idx, u)
                == Some((u.range, Severity::Information, "missing-source"@,
                    "Key `"@ + u.key@ + "` is missing from source locale `"@ + idx.source_locale@ + "`"@, false))
            &&& in_source ==> usage_diagnostic(idx, u) is None
        }),
{
    let p = split_spec(u.key@, '.');
    let es = idx.trees.entries@;
    lemma_lookup_empty(es, p);
    crate::index::lemma_lookup_spec_find(es, p, idx.source_locale@);
    let in_source = idx.trees.tree(idx.source_locale@) matches Some(t) && leaf_at(t, p) is Some;
    if in_source {
        let t = idx.trees.tree(idx.source_locale@)->0;
        let j = choose|j: int| 0 <= j < es.len() && (#[trigger] es[j]).0@ == idx.source_locale@;
        lemma_find_child_at(es, j);
        assert(leaf_at(es[j].1, p) is Some);
        assert(some_locale_defines(es, p));
    }
}

pub open spec fn usage_diagnostics(idx: LocaleIndex, us: Seq<KeyUsage>) -> Seq<DiagnosticView>
    decreases us.len(),
{
    if us.len() == 0 {
        Seq::empty()
    } else {
        let rest = usage_diagnostics(idx, us.drop_last());
        match usage_diagnostic(idx, us.last()) {
            Some(d) => rest.push(d),
            None => rest,
        }
    }
}

fn concat3(a: &str, b: &str, c: &str) -> (r: String)
    ensures
        r@ == a@ + b@ + c@,
{
    let mut s = String::from_str(a);
    s.append(b);
    s.append(c);
    s
}

/// The diagnostics of the key usages of a source file, in order.
pub fn source_diagnostics(idx: &LocaleIndex, text: &str, language_id: &str) -> (r: Vec<EditorDiagnostic>)
    requires
        idx.trees.wf(),
        2 * text.spec_bytes().len() <= u32::MAX,
    ensures
        exists|us: Seq<KeyUsage>| #[trigger] usages_found(text.spec_bytes(), text@, language_id@, us)
            && diagnostic_views(r@) == usage_diagnostics(*idx, us),
{
    let usages = find_usages(text, language_id);
    let ghost us = usages@;
    let mut out: Vec<EditorDiagnostic> = Vec::new();
    let mut i: usize = 0;
    while i < usages.len()
        invariant
            idx.trees.wf(),
            us == usages@,
            i <= us.len(),
            diagnostic_views(out@) == usage_diagnostics(*idx, us.take(i as int)),
        decreases us.len() - i,
    {
        let u = &usages[i];
        assert(us.take(i + 1).drop_last() =~= us.take(i as int));
        assert(us.take(i + 1).last() == *u);
        let values = idx.lookup(u.key.as_str());
        let ghost o = diagnostic_views(out@);
        if values.is_empty() {
            proof {
                reveal_strlit("Missing translation for key `");
                reveal_strlit("`");
                reveal_strlit("missing-key");
            }
            let message = concat3("Missing translation for key `", u.key.as_str(), "`");
            out.push(EditorDiagnostic { range: u.range, severity: Severity::Warning, code: String::from_str("missing-key"), message, unnecessary: false });
            assert(diagnostic_views(out@) =~= o.push((u.range, Severity::Warning, "missing-key"@, missing_key_message(u.key@), false)));
        } else if !values.contains_key(&idx.source_locale) {
            proof {
                reveal_strlit("Key `");
                reveal_strlit("` is missing from source locale `");
                reveal_strlit("`");
                reveal_strlit("missing-source");
            }
            let mut message = concat3("Key `", u.key.as_str(), "` is missing from source locale `");
            message.append(idx.source_locale.as_str());
            message.append("`");
            out.push(EditorDiagnostic { range: u.range, severity: Severity::Information, code: String::from_str("missing-source"), message, unnecessary: false });
            assert(diagnostic_views(out@) =~= o.push((u.range, Severity::Information, "missing-source"@, missing_source_message(u.key@, idx.source_locale@), false)));
        }
        i = i + 1;
    }
    assert(us.take(us.len() as int) =~= us);
    out
}

/// Some scanned file uses `key`.
pub open spec fn key_used(usages: UsageIndex, key: Seq<char>) -> bool {
    exists|p: Seq<char>| #[trigger] usages.view().contains_key(p) && usages.view()[p].contains(key)
}

/// The unused-key diagnostics of the entries `es` of `file`.
pub open spec fn unused_diagnostics(idx: LocaleIndex, usages: UsageIndex, file: LocaleFile, es: Seq<LocaleEntry>) -> Seq<DiagnosticView>
    decreases es.len(),
{
    if es.len() == 0 {
        Seq::empty()
    } else {
        let rest = unused_diagnostics(idx, usages, file, es.drop_last());
        let e = es.last();
        let key = join_spec(namespaced_path(file, views(e.key_path@), layout_or_nested(idx.layout), idx.config), '.');
        if key_used(usages, key) {
            rest
        } else {
            rest.push((e.key_range, Severity::Hint, "unused-key"@, unused_key_message(key), true))
        }
    }
}

/// The diagnostics of the locale file at `path` read as `pr`: none when it
/// does not parse, when no source file was scanned yet, or when the index
/// has no file at `path`; else a hint on every key no scanned file uses.
pub open spec fn locale_diagnostics_spec(idx: LocaleIndex, usages: UsageIndex, path: Seq<char>, pr: Result<Vec<LocaleEntry>, ParseError>) -> Seq<DiagnosticView> {
    match pr {
        Err(_) => Seq::empty(),
        Ok(es) => if usages.view().dom().len() == 0 {
            Seq::empty()
        } else if exists|i: int| first_file_at(idx.files@, path, i) {
            let fi = choose|i: int| first_file_at(idx.files@, path, i);
            unused_diagnostics(idx, usages, idx.files@[fi], es@)
        } else {
            Seq::empty()
        },
    }
}

/// See [`locale_diagnostics_spec`]; `text` is the file's current content.
#[verifier::spinoff_prover]
#[verifier::rlimit(100)]
pub fn locale_diagnostics(idx: &LocaleIndex, usages: &UsageIndex, path: &str, text: &str) -> (r: Vec<EditorDiagnostic>)
    requires
        usages.wf(),
        2 * text.spec_bytes().len() <= u32::MAX,
    ensures
        exists|pr: Result<Vec<LocaleEntry>, ParseError>| #[trigger] parse_result_for(text.spec_bytes(), text@, path@, pr)
            && diagnostic_views(r@) == locale_diagnostics_spec(*idx, *usages, path@, pr),
{
    let pr = parse_with_extension(text, path);
    let entries = match pr {
        Ok(es) => es,
        Err(e) => {
            assert(parse_result_for(text.spec_bytes(), text@, path@, Err::<Vec<LocaleEntry>, ParseError>(e)));
            return Vec::new();
        },
    };
    assert(parse_result_for(text.spec_bytes(), text@, path@, Ok::<Vec<LocaleEntry>, ParseError>(entries)));
    let ghost okr = Ok::<Vec<LocaleEntry>, ParseError>(entries);
    if usages.file_count() == 0 {
        let none: Vec<EditorDiagnostic> = Vec::new();
        assert(diagnostic_views(none@) =~= locale_diagnostics_spec(*idx, *usages, path@, okr));
        return none;
    }
    let fi = match file_index_at(&idx.files, path) {
        Some(i) => i,
        None => {
            let none: Vec<EditorDiagnostic> = Vec::new();
            assert(diagnostic_views(none@) =~= locale_diagnostics_spec(*idx, *usages, path@, okr));
            return none;
        },
    };
    proof {
        assert forall|k: int| first_file_at(idx.files@, path@, k) implies k == fi by {
            lemma_first_file_unique(idx.files@, path@, fi as int, k);
        }
    }
    let file = &idx.files[fi];
    let ghost es = entries@;
    let mut out: Vec<EditorDiagnostic> = Vec::new();
    let mut i: usize = 0;
    while i < entries.len()
        invariant
            usages.wf(),
            es == entries@,
            *file == idx.files@[fi as int],
            i <= es.len(),
            diagnostic_views(out@) == unused_diagnostics(*idx, *usages, *file, es.take(i as int)),
        decreases es.len() - i,
    {
        let e = &entries[i];
        assert(es.take(i + 1).drop_last() =~= es.take(i as int));
        assert(es.take(i + 1).last() == *e);
        let key = idx.compose_full_key(file, e.key_path.as_slice());
        if !usages.is_key_used(key.as_str()) {
            proof {
                reveal_strlit("Translation key `");
                reveal_strlit("` is not referenced by any scanned source file.");
                reveal_strlit("unused-key");
            }
            let ghost o = diagnostic_views(out@);
            let message = concat3("Translation key `", key.as_str(), "` is not referenced by any scanned source file.");
            out.push(EditorDiagnostic { range: e.key_range, severity: Severity::Hint, code: String::from_str("unused-key"), message, unnecessary: true });
            assert(diagnostic_views(out@) =~= o.push((e.key_range, Severity::Hint, "unused-key"@, unused_key_message(key@), true)));
        }
        i = i + 1;
    }
    assert(es.take(es.len() as int) =~= es);
    out
}

// ---------- Hover ----------

/// `n` in decimal.
fn decimal_u64(n: u64) -> (r: String)
    ensures
        r@ == decimal(n as nat),
    decreases n,
{
    if n < 10 {
        let mut s = String::new();
        s.push(digit_char(n as usize));
        assert(s@ =~= seq![crate::project::digit(n as nat)]);
        s
    } else {
        let mut s = decimal_u64(n / 10);
        s.push(digit_char((n % 10) as usize));
        s
    }
}

/// The form of a value shown in compact previews (see [`ParsedValue::primary_form`]).
pub open spec fn primary_spec(raw: Seq<char>) -> Seq<char> {
    let fs = forms_spec(raw);
    if fs.len() == 1 {
        fs[0]
    } else if fs.len() >= 3 {
        fs[1]
    } else if fs.len() == 2 {
        fs[0]
    } else {
        raw
    }
}

/// The lines listing the first `i` plural forms of `forms`.
pub open spec fn form_lines(forms: Seq<Seq<char>>, i: int) -> Seq<char>
    decreases i,
{
    if i <= 0 || i > forms.len() {
        Seq::empty()
    } else {
        form_lines(forms, i - 1) + "> - `"@ + form_label_spec(forms.len() as int, i - 1) + "` — "@ + escape_md_spec(forms[i - 1]) + "\n"@
    }
}

/// The block quoting the source locale's value, if it has one.
pub open spec fn source_block(source: Seq<char>, value: Option<LocalizedValue>) -> Seq<char> {
    match value {
        None => Seq::empty(),
        Some(v) => {
            let fs = forms_spec(v.value@);
            (if fs.len() > 1 {
                "> **"@ + source + "** (pluralised)\n>\n"@ + form_lines(fs, fs.len() as int)
            } else {
                "> **"@ + source + "** — "@ + escape_md_spec(v.value@) + "\n"@
            }) + "\n"@
        },
    }
}

/// Preview lines of the values of the other locales, in order.
pub open spec fn other_lines(pairs: Seq<(Locale, LocalizedValue)>, source: Seq<char>) -> Seq<char>
    decreases pairs.len(),
{
    if pairs.len() == 0 {
        Seq::empty()
    } else {
        let rest = other_lines(pairs.drop_last(), source);
        let (l, v) = pairs.last();
        if l@ == source {
            rest
        } else {
            rest + "- **"@ + l@ + "** — "@ + escape_md_spec(truncate_spec(primary_spec(v.value@), 80)) + "\n"@
        }
    }
}

pub open spec fn has_other(pairs: Seq<(Locale, LocalizedValue)>, source: Seq<char>) -> bool {
    exists|i: int| 0 <= i < pairs.len() && (#[trigger] pairs[i]).0@ != source
}

/// The name shown for a file: its last component, `?` when it has none.
pub open spec fn shown_name(path: Seq<char>) -> Seq<char> {
    if file_name_of(path).len() > 0 { file_name_of(path) } else { "?"@ }
}

/// The link line of the value `v` of locale `l`: locale, file name and
/// 1-based line, linked to the file's URL when it has one.
pub open spec fn file_line(l: Locale, v: LocalizedValue, url: Option<String>) -> Seq<char> {
    let place = shown_name(v.file@) + ":"@ + decimal(v.range.start.line as nat + 1);
    "- **"@ + l@ + "** — "@ + match url {
        Some(u) => "[`"@ + place + "`]("@ + u@ + ")\n"@,
        None => "`"@ + place + "`\n"@,
    }
}

/// One link line per value, in order.
pub open spec fn file_lines(pairs: Seq<(Locale, LocalizedValue)>, urls: Seq<Option<String>>) -> Seq<char>
    decreases pairs.len(),
{
    if pairs.len() == 0 {
        Seq::empty()
    } else {
        let n = pairs.len() - 1;
        file_lines(pairs.drop_last(), urls) + file_line(pairs[n].0, pairs[n].1, urls[n])
    }
}

/// The hover text of `key`, whose values per locale are `pairs` (in
/// increasing locale order) and whose files have the URLs `urls`.
pub open spec fn hover_spec(key: Seq<char>, pairs: Seq<(Locale, LocalizedValue)>, source: Seq<char>, urls: Seq<Option<String>>) -> Seq<char> {
    "**`"@ + key + "`**\n\n"@
        + source_block(source, find_child(pairs, source))
        + (if has_other(pairs, source) { "**Other locales**\n\n"@ + other_lines(pairs, source) + "\n"@ } else { Seq::empty() })
        + "---\n**Open translation file:**\n\n"@
        + file_lines(pairs, urls)
        + "\n*Press `F12` to jump to a translation in a picker.*"@
}

fn link_line(l: &Locale, v: &LocalizedValue, url: &Option<String>) -> (r: String)
    ensures
        r@ == file_line(*l, *v, *url),
{
    let name0 = file_name(v.file.as_str());
    let name = if name0.unicode_len() > 0 { name0 } else { String::from_str("?") };
    let line = decimal_u64((v.range.start.line as u64) + 1);
    let mut place = name;
    place.append(":");
    place.append(line.as_str());
    let mut s = String::from_str("- **");
    s.append(l.as_str());
    s.append("** — ");
    match url {
        Some(u) => {
            s.append("[`");
            s.append(place.as_str());
            s.append("`](");
            s.append(u.as_str());
            s.append(")\n");
        },
        None => {
            s.append("`");
            s.append(place.as_str());
            s.append("`\n");
        },
    }
    s
}

/// The URL, as text, that `url::Url::from_file_path` gives for the file
/// path `path`, or `None` when it refuses the path.
pub uninterp spec fn file_url_of(path: Seq<char>) -> Option<Seq<char>>;

/// Calls `url::Url::from_file_path(path)` and gives the URL as text; the
/// result is named by [`file_url_of`]. The crate builds every such URL from
/// `file://`, and an empty path is never absolute, so it gets none; those
/// two facts the contract states too.
#[verifier::external_body]
fn file_url(path: &str) -> (r: Option<String>)
    ensures
        opt_view(r) == file_url_of(path@),
        path@.len() == 0 ==> r is None,
        r matches Some(u) ==> u@.len() >= 7 && u@.subrange(0, 7) == seq!['f', 'i', 'l', 'e', ':', '/', '/'],
{
    url::Url::from_file_path(path).ok().map(|u| u.to_string())
}

/// `urls` are the URLs of the files of `entries`, one by one.
pub open spec fn file_urls_fit<'a>(entries: Seq<(&'a Locale, &'a LocalizedValue)>, urls: Seq<Option<String>>) -> bool {
    &&& urls.len() == entries.len()
    &&& forall|i: int| 0 <= i < urls.len() ==> opt_view(#[trigger] urls[i]) == file_url_of(entries[i].1.file@)
}

/// The hover text for `key` (see [`hover_markdown_with_urls`]), each file
/// linked by the URL that [`file_url_of`] gives its path, if any.
pub fn format_hover_markdown(key: &str, values: &Lookup, source_locale: &Locale) -> (r: String)
    requires
        locales_increasing(values.entries@),
    ensures
        exists|urls: Seq<Option<String>>| #[trigger] file_urls_fit(values.entries@, urls)
            && r@ == hover_spec(key@, lookup_pairs(values.entries@), source_locale@, urls),
{
    let mut urls: Vec<Option<String>> = Vec::new();
    let mut i: usize = 0;
    while i < values.entries.len()
        invariant
            i <= values.entries@.len(),
            file_urls_fit(values.entries@.take(i as int), urls@),
        decreases values.entries@.len() - i,
    {
        let u = file_url(values.entries[i].1.file.as_str());
        urls.push(u);
        i = i + 1;
        assert forall|j: int| 0 <= j < urls@.len() implies
            opt_view(#[trigger] urls@[j]) == file_url_of(values.entries@.take(i as int)[j].1.file@) by {
            assert(values.entries@.take(i as int)[j] == values.entries@[j]);
            if j < i - 1 {
                assert(values.entries@.take(i - 1)[j] == values.entries@[j]);
            }
        }
    }
    assert(values.entries@.take(values.entries@.len() as int) =~= values.entries@);
    hover_markdown_with_urls(key, values, source_locale, &urls)
}

/// The hover text for `key`: its title, the source locale's value (each
/// plural form on a line), previews of the other locales, and a link to
/// every file defining it. `file_urls` gives, value by value, the URL of
/// the file, when it has one.
#[verifier::rlimit(40)]
#[verifier::spinoff_prover]
pub fn hover_markdown_with_urls(key: &str, values: &Lookup, source_locale: &Locale, file_urls: &Vec<Option<String>>) -> (r: String)
    requires
        locales_increasing(values.entries@),
        file_urls@.len() == values.entries@.len(),
    ensures
        r@ == hover_spec(key@, lookup_pairs(values.entries@), source_locale@, file_urls@),
{
    let ghost pairs = lookup_pairs(values.entries@);
    let ghost src = source_locale@;
    let mut md = String::from_str("**`");
    md.append(key);
    md.append("`**\n\n");
    let ghost m0 = md@;
    match values.get(source_locale) {
        Some(v) => {
            let parsed = ParsedValue::parse(v.value.as_str());
            let ghost fs = forms_spec(v.value@);
            assert(str_views(parsed.forms@) == fs);
            if parsed.is_plural() {
                md.append("> **");
                md.append(source_locale.as_str());
                md.append("** (pluralised)\n>\n");
                let ghost base = md@;
                let mut i: usize = 0;
                while i < parsed.forms.len()
                    invariant
                        str_views(parsed.forms@) == fs,
                        i <= fs.len(),
                        md@ == base + form_lines(fs, i as int),
                    decreases fs.len() - i,
                {
                    md.append("> - `");
                    md.append(parsed.form_label(i));
                    md.append("` — ");
                    let esc = escape_md(parsed.forms[i]);
                    md.append(esc.as_str());
                    md.append("\n");
                    assert(fs[i as int] == parsed.forms@[i as int]@);
                    i = i + 1;
                }
            } else {
                md.append("> **");
                md.append(source_locale.as_str());
                md.append("** — ");
                let esc = escape_md(v.value.as_str());
                md.append(esc.as_str());
                md.append("\n");
            }
            md.append("\n");
        },
        None => {},
    }
    assert(md@ == m0 + source_block(src, find_child(pairs, src)));
    let ghost m1 = md@;
    let mut any_other = false;
    let mut k: usize = 0;
    while k < values.entries.len()
        invariant
            pairs == lookup_pairs(values.entries@),
            k <= pairs.len(),
            any_other == exists|i: int| 0 <= i < k && (#[trigger] pairs[i]).0@ != src,
            src == source_locale@,
        decreases pairs.len() - k,
    {
        if !values.entries[k].0.same_as(source_locale) {
            any_other = true;
            assert(pairs[k as int].0@ != src);
        }
        k = k + 1;
    }
    if any_other {
        md.append("**Other locales**\n\n");
        let ghost base = md@;
        let mut i: usize = 0;
        while i < values.entries.len()
            invariant
                pairs == lookup_pairs(values.entries@),
                src == source_locale@,
                i <= pairs.len(),
                md@ == base + other_lines(pairs.take(i as int), src),
            decreases pairs.len() - i,
        {
            assert(pairs.take(i + 1).drop_last() =~= pairs.take(i as int));
            assert(pairs.take(i + 1).last() == pairs[i as int]);
            let (l, v) = values.entries[i];
            if !l.same_as(source_locale) {
                let parsed = ParsedValue::parse(v.value.as_str());
                let preview = truncate_chars(parsed.primary_form(), 80);
                md.append("- **");
                md.append(l.as_str());
                md.append("** — ");
                let esc = escape_md(preview.as_str());
                md.append(esc.as_str());
                md.append("\n");
            }
            i = i + 1;
        }
        assert(pairs.take(pairs.len() as int) =~= pairs);
        md.append("\n");
    }
    let ghost m2 = md@;
    md.append("---\n**Open translation file:**\n\n");
    let ghost base = md@;
    let mut i: usize = 0;
    while i < values.entries.len()
        invariant
            pairs == lookup_pairs(values.entries@),
            file_urls@.len() == pairs.len(),
            i <= pairs.len(),
            md@ == base + file_lines(pairs.take(i as int), file_urls@.take(i as int)),
        decreases pairs.len() - i,
    {
        let (l, v) = values.entries[i];
        proof {
            lemma_file_lines_urls(pairs.take(i as int), file_urls@.take(i + 1), file_urls@.take(i as int));
            assert(pairs.take(i + 1).drop_last() =~= pairs.take(i as int));
            assert(pairs.take(i + 1)[i as int] == pairs[i as int]);
        }
        let text = link_line(l, v, &file_urls[i]);
        md.append(text.as_str());
        i = i + 1;
    }
    assert(pairs.take(pairs.len() as int) =~= pairs);
    assert(file_urls@.take(pairs.len() as int) =~= file_urls@);
    md.append("\n*Press `F12` to jump to a translation in a picker.*");
    md
}

proof fn lemma_file_lines_urls(pairs: Seq<(Locale, LocalizedValue)>, a: Seq<Option<String>>, b: Seq<Option<String>>)
    requires
        a.len() >= pairs.len(),
        b.len() >= pairs.len(),
        forall|i: int| 0 <= i < pairs.len() ==> a[i] == b[i],
    ensures
        file_lines(pairs, a) == file_lines(pairs, b),
    decreases pairs.len(),
{
    if pairs.len() > 0 {
        lemma_file_lines_urls(pairs.drop_last(), a, b);
    }
}

// ---------- Inlay hints ----------

/// An inline hint after a key usage: where, its label, its tooltip.
#[derive(Debug)]
pub struct InlayHintText {
    pub position: Position,
    pub label: String,
    pub tooltip: String,
}

/// The label of an inline hint for the value `raw`: its preview, with `…`
/// when it has several plural forms.
pub open spec fn inlay_label(raw: Seq<char>) -> Seq<char> {
    " = "@ + truncate_spec(primary_spec(raw), 60) + (if forms_spec(raw).len() > 1 { " …"@ } else { Seq::empty() })
}

/// Law: an inline hint previews a value by its primary plural form, cut to
/// 60 characters: the second form when there are three or more, the first
/// when there are two (both marked `…`), the value's only form otherwise.
pub proof fn lemma_inlay_label_previews_primary_form(raw: Seq<char>)
    ensures
        forms_spec(raw).len() >= 1,
        forms_spec(raw).len() >= 3 ==> inlay_label(raw) == " = "@ + truncate_spec(forms_spec(raw)[1], 60) + " …"@,
        forms_spec(raw).len() == 2 ==> inlay_label(raw) == " = "@ + truncate_spec(forms_spec(raw)[0], 60) + " …"@,
        forms_spec(raw).len() == 1 ==> inlay_label(raw) == " = "@ + truncate_spec(forms_spec(raw)[0], 60),
{
    crate::text::lemma_split_nonempty(raw, '|');
    if forms_spec(raw).len() == 1 {
        assert(" = "@ + truncate_spec(forms_spec(raw)[0], 60) + Seq::<char>::empty() =~= " = "@ + truncate_spec(forms_spec(raw)[0], 60));
    }
}

/// The hint shown after `usage` for its value `value`.
pub fn build_inlay_hint(usage: &KeyUsage, value: &LocalizedValue) -> (r: InlayHintText)
    ensures
        r.position == usage.range.end,
        r.label@ == inlay_label(value.value@),
        r.tooltip@ == value.value@,
{
    let parsed = ParsedValue::parse(value.value.as_str());
    let preview = truncate_chars(parsed.primary_form(), 60);
    let mut label = String::from_str(" = ");
    label.append(preview.as_str());
    if parsed.is_plural() {
        label.append(" …");
    }
    assert(label@ =~= inlay_label(value.value@));
    InlayHintText { position: usage.range.end, label, tooltip: value.value.clone() }
}

/// The hints of the usages `us` whose key has a value in the source locale, in order.
pub open spec fn hints_of(idx: LocaleIndex, us: Seq<KeyUsage>) -> Seq<(Position, Seq<char>, Seq<char>)>
    decreases us.len(),
{
    if us.len() == 0 {
        Seq::empty()
    } else {
        let rest = hints_of(idx, us.drop_last());
        let u = us.last();
        match find_child(lookup_spec(idx.trees.entries@, split_spec(u.key@, '.')), idx.source_locale@) {
            Some(v) => rest.push((u.range.end, inlay_label(v.value@), v.value@)),
            None => rest,
        }
    }
}

pub open spec fn hint_views(hs: Seq<InlayHintText>) -> Seq<(Position, Seq<char>, Seq<char>)> {
    hs.map_values(|h: InlayHintText| (h.position, h.label@, h.tooltip@))
}

/// The inline hints of a source file: one after each key usage whose key
/// has a value in the source locale.
pub fn inlay_hints(idx: &LocaleIndex, text: &str, language_id: &str) -> (r: Vec<InlayHintText>)
    requires
        idx.trees.wf(),
        2 * text.spec_bytes().len() <= u32::MAX,
    ensures
        exists|us: Seq<KeyUsage>| #[trigger] usages_found(text.spec_bytes(), text@, language_id@, us)
            && hint_views(r@) == hints_of(*idx, us),
{
    let usages = find_usages(text, language_id);
    let ghost us = usages@;
    let mut out: Vec<InlayHintText> = Vec::new();
    let mut i: usize = 0;
    while i < usages.len()
        invariant
            idx.trees.wf(),
            us == usages@,
            i <= us.len(),
            hint_views(out@) == hints_of(*idx, us.take(i as int)),
        decreases us.len() - i,
    {
        let u = &usages[i];
        assert(us.take(i + 1).drop_last() =~= us.take(i as int));
        assert(us.take(i + 1).last() == *u);
        let values = idx.lookup(u.key.as_str());
        match values.get(&idx.source_locale) {
            Some(v) => {
                let ghost o = hint_views(out@);
                let h = build_inlay_hint(u, v);
                out.push(h);
                assert(hint_views(out@) =~= o.push((u.range.end, inlay_label(v.value@), v.value@)));
            },
            None => {},
        }
        i = i + 1;
    }
    assert(us.take(us.len() as int) =~= us);
    out
}

// ---------- Completion and workspace symbols ----------

/// The keys of the index, sorted, each once.
pub open spec fn index_keys(keys: Seq<Seq<char>>, idx: LocaleIndex) -> bool {
    &&& strictly_sorted(keys)
    &&& forall|x: Seq<char>| #[trigger] keys.contains(x) <==> keys_of_trees(idx.trees.entries@).contains(x)
}

/// The preview of `key` in completions: its source value cut to 60 characters.
pub open spec fn completion_detail(idx: LocaleIndex, key: Seq<char>) -> Option<Seq<char>> {
    match find_child(lookup_spec(idx.trees.entries@, split_spec(key, '.')), idx.source_locale@) {
        Some(v) => Some(truncate_spec(v.value@, 60)),
        None => None,
    }
}

pub open spec fn opt_view(o: Option<String>) -> Option<Seq<char>> {
    match o {
        Some(s) => Some(s@),
        None => None,
    }
}

/// Completion items: every key of the index, in order, with its preview.
pub fn completion_items(idx: &LocaleIndex) -> (r: Vec<(String, Option<String>)>)
    requires
        idx.trees.wf(),
    ensures
        exists|keys: Seq<Seq<char>>| #[trigger] index_keys(keys, *idx) && r@.len() == keys.len()
            && forall|i: int| 0 <= i < keys.len() ==> (#[trigger] r@[i]).0@ == keys[i]
                && opt_view(r@[i].1) == completion_detail(*idx, keys[i]),
{
    let keys = idx.all_keys();
    let ghost ks = views(keys@);
    let mut out: Vec<(String, Option<String>)> = Vec::new();
    let mut i: usize = 0;
    while i < keys.len()
        invariant
            idx.trees.wf(),
            ks == views(keys@),
            i <= keys@.len(),
            out@.len() == i,
            forall|j: int| 0 <= j < i ==> (#[trigger] out@[j]).0@ == ks[j] && opt_view(out@[j].1) == completion_detail(*idx, ks[j]),
        decreases keys@.len() - i,
    {
        let values = idx.lookup(keys[i].as_str());
        let detail = match values.get(&idx.source_locale) {
            Some(v) => Some(truncate_chars(v.value.as_str(), 60)),
            None => None,
        };
        out.push((keys[i].clone(), detail));
        i = i + 1;
    }
    assert(index_keys(ks, *idx));
    out
}

/// The value a workspace symbol of `key` points at: the source locale's,
/// else the first locale's.
pub open spec fn symbol_value(idx: LocaleIndex, key: Seq<char>) -> Option<LocalizedValue> {
    let pairs = lookup_spec(idx.trees.entries@, split_spec(key, '.'));
    match find_child(pairs, idx.source_locale@) {
        Some(v) => Some(v),
        None => if pairs.len() > 0 { Some(pairs[0].1) } else { None },
    }
}

/// `key` is listed for the (lowercased, trimmed) query `needle`.
pub open spec fn symbol_listed(idx: LocaleIndex, needle: Seq<char>, key: Seq<char>) -> bool {
    (needle.len() == 0 || contains_seq(lowercase(key), needle)) && symbol_value(idx, key) is Some
}

/// The symbols matching `keys` for `needle`, in order.
pub open spec fn symbols_of(idx: LocaleIndex, needle: Seq<char>, keys: Seq<Seq<char>>) -> Seq<(Seq<char>, LocalizedValue)>
    decreases keys.len(),
{
    if keys.len() == 0 {
        Seq::empty()
    } else {
        let rest = symbols_of(idx, needle, keys.drop_last());
        let k = keys.last();
        if symbol_listed(idx, needle, k) { rest.push((k, symbol_value(idx, k)->0)) } else { rest }
    }
}

pub open spec fn symbol_views(v: Seq<(String, &LocalizedValue)>) -> Seq<(Seq<char>, LocalizedValue)> {
    v.map_values(|x: (String, &LocalizedValue)| (x.0@, *x.1))
}

/// The keys a workspace-wide search for `query` lists, in key order, each
/// with the value it points at: those whose lowercase form contains the
/// lowercase, trimmed query (every key for an empty query).
pub fn workspace_symbol_matches<'a>(idx: &'a LocaleIndex, query: &str) -> (r: Vec<(String, &'a LocalizedValue)>)
    requires
        idx.trees.wf(),
    ensures
        exists|keys: Seq<Seq<char>>| #[trigger] index_keys(keys, *idx)
            && symbol_views(r@) == symbols_of(*idx, lowercase(trim_spec(query@)), keys),
{
    let qs = crate::text::chars_of(query);
    let (a, b) = crate::display::trim_bounds(&qs, 0, qs.len());
    let trimmed = crate::text::string_from_chars(&qs, a, b);
    assert(qs@.subrange(0, qs@.len() as int) =~= query@);
    let needle = crate::linked::to_lowercase(trimmed.as_str());
    let ghost nv = needle@;
    let keys = idx.all_keys();
    let ghost ks = views(keys@);
    let mut out: Vec<(String, &'a LocalizedValue)> = Vec::new();
    let mut i: usize = 0;
    while i < keys.len()
        invariant
            idx.trees.wf(),
            ks == views(keys@),
            nv == needle@,
            i <= keys@.len(),
            symbol_views(out@) == symbols_of(*idx, nv, ks.take(i as int)),
        decreases keys@.len() - i,
    {
        assert(ks.take(i + 1).drop_last() =~= ks.take(i as int));
        assert(ks.take(i + 1).last() == keys@[i as int]@);
        let key = &keys[i];
        let lower = crate::linked::to_lowercase(key.as_str());
        let lc = crate::text::chars_of(lower.as_str());
        let wanted = needle.unicode_len() == 0 || crate::display::contains_str(&lc, needle.as_str());
        if wanted {
            let values = idx.lookup(key.as_str());
            let chosen = match values.get(&idx.source_locale) {
                Some(v) => Some(v),
                None => if values.entries.len() > 0 { Some(values.entries[0].1) } else { None },
            };
            match chosen {
                Some(v) => {
                    let ghost o = symbol_views(out@);
                    out.push((key.clone(), v));
                    assert(symbol_views(out@) =~= o.push((key@, *v)));
                },
                None => {},
            }
        }
        i = i + 1;
    }
    assert(ks.take(ks.len() as int) =~= ks);
    assert(index_keys(ks, *idx));
    out
}

/// The most symbols a workspace-wide search lists.
pub const MAX_SYMBOLS: usize = 200;

/// The symbols of `m` whose file has a URL (`urls`, symbol by symbol), each
/// with that URL, in order.
pub open spec fn with_urls(m: Seq<(Seq<char>, LocalizedValue)>, urls: Seq<Option<String>>) -> Seq<(Seq<char>, LocalizedValue, Seq<char>)>
    decreases m.len(),
{
    if m.len() == 0 {
        Seq::empty()
    } else {
        let rest = with_urls(m.drop_last(), urls);
        match urls[m.len() - 1] {
            Some(u) => rest.push((m.last().0, m.last().1, u@)),
            None => rest,
        }
    }
}

/// The first [`MAX_SYMBOLS`] symbols of `m` whose file has a URL.
pub open spec fn picked_symbols(m: Seq<(Seq<char>, LocalizedValue)>, urls: Seq<Option<String>>) -> Seq<(Seq<char>, LocalizedValue, Seq<char>)> {
    let w = with_urls(m, urls);
    if w.len() <= MAX_SYMBOLS { w } else { w.take(MAX_SYMBOLS as int) }
}

pub open spec fn url_symbol_views(v: Seq<(String, &LocalizedValue, String)>) -> Seq<(Seq<char>, LocalizedValue, Seq<char>)> {
    v.map_values(|x: (String, &LocalizedValue, String)| (x.0@, *x.1, x.2@))
}

proof fn lemma_with_urls_prefix(m: Seq<(Seq<char>, LocalizedValue)>, urls: Seq<Option<String>>, i: int)
    requires
        0 <= i <= m.len(),
    ensures
        with_urls(m.take(i), urls).len() <= with_urls(m, urls).len(),
        with_urls(m, urls).take(with_urls(m.take(i), urls).len() as int) == with_urls(m.take(i), urls),
    decreases m.len() - i,
{
    if i < m.len() {
        lemma_with_urls_prefix(m, urls, i + 1);
        assert(m.take(i + 1).drop_last() =~= m.take(i));
        let a = with_urls(m.take(i), urls);
        let b = with_urls(m.take(i + 1), urls);
        let w = with_urls(m, urls);
        assert(b.take(a.len() as int) =~= a);
        assert(w.take(a.len() as int) =~= w.take(b.len() as int).take(a.len() as int));
    } else {
        assert(m.take(i) =~= m);
        assert(with_urls(m, urls).take(with_urls(m, urls).len() as int) =~= with_urls(m, urls));
    }
}

/// The symbols of `matches` whose file has a URL (`urls`, match by match),
/// each with that URL, at most [`MAX_SYMBOLS`] of them.
pub fn pick_symbols<'a>(matches: &Vec<(String, &'a LocalizedValue)>, urls: &Vec<Option<String>>) -> (r: Vec<(String, &'a LocalizedValue, String)>)
    requires
        urls@.len() == matches@.len(),
    ensures
        url_symbol_views(r@) == picked_symbols(symbol_views(matches@), urls@),
{
    let ghost m = symbol_views(matches@);
    let mut out: Vec<(String, &'a LocalizedValue, String)> = Vec::new();
    let mut i: usize = 0;
    assert(m.take(0) =~= Seq::<(Seq<char>, LocalizedValue)>::empty());
    assert(url_symbol_views(out@) =~= Seq::<(Seq<char>, LocalizedValue, Seq<char>)>::empty());
    while i < matches.len() && out.len() < MAX_SYMBOLS
        invariant
            m == symbol_views(matches@),
            urls@.len() == matches@.len(),
            i <= matches@.len(),
            out@.len() <= MAX_SYMBOLS,
            url_symbol_views(out@) == with_urls(m.take(i as int), urls@),
        decreases matches@.len() - i,
    {
        assert(m.take(i + 1).drop_last() =~= m.take(i as int));
        assert(m.take(i + 1).last() == m[i as int]);
        assert(m[i as int] == (matches@[i as int].0@, *matches@[i as int].1));
        match &urls[i] {
            Some(u) => {
                let ghost o = url_symbol_views(out@);
                out.push((matches[i].0.clone(), matches[i].1, u.clone()));
                assert(url_symbol_views(out@) =~= o.push((m[i as int].0, m[i as int].1, u@)));
            },
            None => {},
        }
        i = i + 1;
    }
    proof {
        lemma_with_urls_prefix(m, urls@, i as int);
        let w = with_urls(m, urls@);
        if i == matches.len() {
            assert(m.take(i as int) =~= m);
        } else {
            assert(out@.len() == MAX_SYMBOLS);
        }
    }
    out
}

/// `out` is what a search for `query` answers when the index's keys, in
/// order, are `keys` and `urls` are the URLs ([`file_url_of`]) of the files
/// of the matches.
pub open spec fn symbols_answer(idx: LocaleIndex, query: Seq<char>, keys: Seq<Seq<char>>, urls: Seq<Option<String>>, out: Seq<(Seq<char>, LocalizedValue, Seq<char>)>) -> bool {
    let m = symbols_of(idx, lowercase(trim_spec(query)), keys);
    &&& index_keys(keys, idx)
    &&& urls.len() == m.len()
    &&& forall|i: int| 0 <= i < urls.len() ==> opt_view(#[trigger] urls[i]) == file_url_of(m[i].1.file@)
    &&& out == picked_symbols(m, urls)
}

/// What a workspace-wide search for `query` answers: the matches of
/// [`workspace_symbol_matches`] whose file has a URL, each with
/// it, at most [`MAX_SYMBOLS`] of them.
pub fn workspace_symbols<'a>(idx: &'a LocaleIndex, query: &str) -> (r: Vec<(String, &'a LocalizedValue, String)>)
    requires
        idx.trees.wf(),
    ensures
        exists|keys: Seq<Seq<char>>, urls: Seq<Option<String>>| #[trigger] symbols_answer(*idx, query@, keys, urls, url_symbol_views(r@)),
{
    let matches = workspace_symbol_matches(idx, query);
    let mut urls: Vec<Option<String>> = Vec::new();
    let mut i: usize = 0;
    while i < matches.len()
        invariant
            i <= matches@.len(),
            urls@.len() == i,
            forall|j: int| 0 <= j < i ==> opt_view(#[trigger] urls@[j]) == file_url_of(matches@[j].1.file@),
        decreases matches@.len() - i,
    {
        let u = file_url(matches[i].1.file.as_str());
        urls.push(u);
        i = i + 1;
    }
    let r = pick_symbols(&matches, &urls);
    proof {
        let nv = lowercase(trim_spec(query@));
        let keys = choose|keys: Seq<Seq<char>>| #[trigger] index_keys(keys, *idx)
            && symbol_views(matches@) == symbols_of(*idx, nv, keys);
        let m = symbols_of(*idx, nv, keys);
        assert forall|j: int| 0 <= j < urls@.len() implies opt_view(#[trigger] urls@[j]) == file_url_of(m[j].1.file@) by {
            assert(symbol_views(matches@)[j] == (matches@[j].0@, *matches@[j].1));
        }
        assert(symbols_answer(*idx, query@, keys, urls@, url_symbol_views(r@)));
    }
    r
}

// ---------- Positions ----------

/// `(line, character)` lies within `range`, both ends included.
pub open spec fn range_holds(range: Range, line: u32, character: u32) -> bool {
    &&& (range.start.line < line || (range.start.line == line && range.start.character <= character))
    &&& (line < range.end.line || (line == range.end.line && character <= range.end.character))
}

pub fn range_contains_position(range: &Range, line: u32, character: u32) -> (r: bool)
    ensures
        r == range_holds(*range, line, character),
{
    let after_start = range.start.line < line || (range.start.line == line && range.start.character <= character);
    let before_end = line < range.end.line || (line == range.end.line && character <= range.end.character);
    after_start && before_end
}

/// `u` spans byte offset `o`, its end excluded.
pub open spec fn usage_spans(u: KeyUsage, o: usize) -> bool {
    u.range.start.offset <= o && o < u.range.end.offset
}

/// The first of `us` spanning `o`.
pub open spec fn first_spanning(us: Seq<KeyUsage>, o: usize) -> Option<KeyUsage>
    decreases us.len(),
{
    if us.len() == 0 {
        None
    } else if usage_spans(us[0], o) {
        Some(us[0])
    } else {
        first_spanning(us.drop_first(), o)
    }
}

/// The key usage under the cursor at `(line, character)` of `text`: the
/// first usage whose range holds the byte offset of that position.
pub fn usage_at_position(text: &str, language_id: &str, line: u32, character: u32) -> (r: Option<KeyUsage>)
    requires
        2 * text.spec_bytes().len() <= u32::MAX,
    ensures
        exists|o: Option<usize>, us: Seq<KeyUsage>| #[trigger] crate::position::offset_in(text.spec_bytes(), line, character, o)
            && #[trigger] usages_found(text.spec_bytes(), text@, language_id@, us)
            && r == match o {
                None => None,
                Some(q) => first_spanning(us, q),
            },
{
    let lines = LineIndex::new(text);
    let o = lines.offset_at(line, character);
    proof { lines.lemma_offset_in(line, character, o); }
    let usages = find_usages(text, language_id);
    let ghost us = usages@;
    let offset = match o {
        Some(q) => q,
        None => return None,
    };
    let mut usages = usages;
    let mut i: usize = 0;
    assert(us.skip(0) =~= us);
    while i < usages.len()
        invariant
            us == usages@,
            i <= us.len(),
            first_spanning(us, offset) == first_spanning(us.skip(i as int), offset),
            crate::position::offset_in(text.spec_bytes(), line, character, Some(offset)),
            usages_found(text.spec_bytes(), text@, language_id@, us),
        decreases us.len() - i,
    {
        assert(us.skip(i as int)[0] == us[i as int]);
        assert(us.skip(i as int).drop_first() =~= us.skip(i + 1));
        if usages[i].range.start.offset <= offset && offset < usages[i].range.end.offset {
            return Some(usages.remove(i));
        }
        i = i + 1;
    }
    None
}

/// The end of a text, as (line, character) with characters counted as
/// `char`s: the number of `\n` and the length of the last line, each
/// truncated to `u32`.
pub open spec fn text_end(content: Seq<char>) -> (u32, u32) {
    let lines = split_spec(content, '\n');
    ((lines.len() - 1) as u32, lines.last().len() as u32)
}

/// See [`text_end`]; the whole text spans from (0, 0) to there.
pub fn whole_file_end(content: &str) -> (r: (u32, u32))
    ensures
        r == text_end(content@),
{
    let lines = split_char(content, '\n');
    proof { crate::text::lemma_split_nonempty(content@, '\n'); }
    let n = lines.len() - 1;
    let last = lines[n].unicode_len();
    #[verifier::truncate]
    let a = n as u32;
    #[verifier::truncate]
    let b = last as u32;
    (a, b)
}

// ---------- Locale files: the unused key under the cursor ----------

/// The first entry whose key range holds `(line, character)`.
pub open spec fn entry_at(es: Seq<LocaleEntry>, line: u32, character: u32) -> Option<LocaleEntry>
    decreases es.len(),
{
    if es.len() == 0 {
        None
    } else if range_holds(es[0].key_range, line, character) {
        Some(es[0])
    } else {
        entry_at(es.drop_first(), line, character)
    }
}

/// The key under the cursor of the locale file at `path` read as `pr`, with
/// its segments in the file, when no scanned file uses it: none when the
/// text does not parse, no key is there, or the index has no file at `path`.
pub open spec fn unused_key_at_spec(idx: LocaleIndex, usages: UsageIndex, path: Seq<char>, pr: Result<Vec<LocaleEntry>, ParseError>,
    line: u32, character: u32) -> Option<(Seq<Seq<char>>, Seq<char>)>
{
    match pr {
        Err(_) => None,
        Ok(es) => match entry_at(es@, line, character) {
            None => None,
            Some(e) => if exists|i: int| first_file_at(idx.files@, path, i) {
                let fi = choose|i: int| first_file_at(idx.files@, path, i);
                let key = join_spec(namespaced_path(idx.files@[fi], views(e.key_path@), layout_or_nested(idx.layout), idx.config), '.');
                if key_used(usages, key) { None } else { Some((views(e.key_path@), key)) }
            } else {
                None
            },
        },
    }
}

fn clone_segments(v: &Vec<String>) -> (r: Vec<String>)
    ensures
        views(r@) == views(v@),
{
    let mut segs: Vec<String> = Vec::new();
    let mut k: usize = 0;
    while k < v.len()
        invariant
            k <= v@.len(),
            views(segs@) == views(v@).take(k as int),
        decreases v@.len() - k,
    {
        let ghost sv = views(segs@);
        segs.push(v[k].clone());
        assert(views(segs@) =~= sv.push(v@[k as int]@));
        assert(views(v@).take(k + 1) =~= views(v@).take(k as int).push(v@[k as int]@));
        k = k + 1;
    }
    assert(views(v@).take(v@.len() as int) =~= views(v@));
    segs
}

/// See [`unused_key_at_spec`]; `text` is the file's current content.
#[verifier::spinoff_prover]
#[verifier::rlimit(90)]
pub fn unused_key_at(idx: &LocaleIndex, usages: &UsageIndex, path: &str, text: &str, line: u32, character: u32) -> (r: Option<(Vec<String>, String)>)
    requires
        usages.wf(),
        2 * text.spec_bytes().len() <= u32::MAX,
    ensures
        exists|pr: Result<Vec<LocaleEntry>, ParseError>| #[trigger] parse_result_for(text.spec_bytes(), text@, path@, pr)
            && match r {
                Some(x) => unused_key_at_spec(*idx, *usages, path@, pr, line, character) == Some((views(x.0@), x.1@)),
                None => unused_key_at_spec(*idx, *usages, path@, pr, line, character) is None,
            },
{
    let pr = parse_with_extension(text, path);
    let entries = match pr {
        Ok(es) => es,
        Err(e) => {
            assert(parse_result_for(text.spec_bytes(), text@, path@, Err::<Vec<LocaleEntry>, ParseError>(e)));
            return None;
        },
    };
    let ghost okr = Ok::<Vec<LocaleEntry>, ParseError>(entries);
    assert(parse_result_for(text.spec_bytes(), text@, path@, okr));
    let ghost es = entries@;
    let mut i: usize = 0;
    assert(es.skip(0) =~= es);
    while i < entries.len() && !range_contains_position(&entries[i].key_range, line, character)
        invariant
            es == entries@,
            i <= es.len(),
            entry_at(es, line, character) == entry_at(es.skip(i as int), line, character),
        decreases es.len() - i,
    {
        assert(es.skip(i as int)[0] == es[i as int]);
        assert(es.skip(i as int).drop_first() =~= es.skip(i + 1));
        i = i + 1;
    }
    if i >= entries.len() {
        assert(es.skip(i as int).len() == 0);
        return None;
    }
    assert(es.skip(i as int)[0] == es[i as int]);
    assert(entry_at(es, line, character) == Some(es[i as int]));
    let e = &entries[i];
    let fi = match file_index_at(&idx.files, path) {
        Some(k) => k,
        None => return None,
    };
    proof {
        assert forall|k: int| first_file_at(idx.files@, path@, k) implies k == fi by {
            lemma_first_file_unique(idx.files@, path@, fi as int, k);
        }
    }
    let key = idx.compose_full_key(&idx.files[fi], e.key_path.as_slice());
    if usages.is_key_used(key.as_str()) {
        return None;
    }
    let segs = clone_segments(&e.key_path);
    Some((segs, key))
}

// ---------- Small decisions ----------

pub open spec fn ascii_lowered(s: Seq<char>) -> Seq<char> {
    s.map_values(|c: char| ascii_lower(c))
}

/// Language ids whose files the source scan reads (ASCII case ignored).
pub open spec fn is_source_language(id: Seq<char>) -> bool {
    let l = ascii_lowered(id);
    l == "vue.js"@ || l == "typescript"@ || l == "tsx"@ || l == "javascript"@ || l == "jsx"@ || l == "html"@
}

pub fn is_supported_source_lang(language_id: &str) -> (r: bool)
    ensures
        r == is_source_language(language_id@),
{
    let cs = crate::text::chars_of(language_id);
    let mut lower = String::new();
    let mut i: usize = 0;
    while i < cs.len()
        invariant
            cs@ == language_id@,
            i <= cs@.len(),
            lower@ == ascii_lowered(cs@.take(i as int)),
        decreases cs@.len() - i,
    {
        lower.push(to_ascii_lower(cs[i]));
        assert(ascii_lowered(cs@.take(i + 1)) =~= ascii_lowered(cs@.take(i as int)).push(ascii_lower(cs@[i as int])));
        i = i + 1;
    }
    assert(cs@.take(cs@.len() as int) =~= cs@);
    let l = lower.as_str();
    str_eq(l, "vue.js") || str_eq(l, "typescript") || str_eq(l, "tsx") || str_eq(l, "javascript") || str_eq(l, "jsx") || str_eq(l, "html")
}

/// Where `key` is defined: the file and range of its value in each locale
/// that has one, in locale order.
pub fn definition_targets(idx: &LocaleIndex, key: &str) -> (r: Vec<(String, Range)>)
    requires
        idx.trees.wf(),
    ensures
        r@.len() == lookup_spec(idx.trees.entries@, split_spec(key@, '.')).len(),
        forall|i: int| 0 <= i < r@.len() ==> (#[trigger] r@[i]).0@ == lookup_spec(idx.trees.entries@, split_spec(key@, '.'))[i].1.file@
            && r@[i].1 == lookup_spec(idx.trees.entries@, split_spec(key@, '.'))[i].1.range,
{
    let values = idx.lookup(key);
    let ghost ps = lookup_pairs(values.entries@);
    let mut out: Vec<(String, Range)> = Vec::new();
    let mut i: usize = 0;
    while i < values.entries.len()
        invariant
            ps == lookup_pairs(values.entries@),
            ps.len() == values.entries@.len(),
            i <= ps.len(),
            out@.len() == i,
            forall|j: int| 0 <= j < i ==> (#[trigger] out@[j]).0@ == ps[j].1.file@ && out@[j].1 == ps[j].1.range,
        decreases ps.len() - i,
    {
        let v = values.entries[i].1;
        assert(ps[i as int].1 == *v);
        out.push((v.file.clone(), v.range));
        i = i + 1;
    }
    out
}

/// The workspace roots the editor announced: the file paths of its
/// workspace folders when it sent a folder list (folders that are not
/// files are skipped); else the path of its root URI, when that is a file;
/// else its root path; else none. `folders` and `root_uri` hold what each
/// URI gave as a file path.
pub fn workspace_roots(folders: Option<&Vec<Option<String>>>, root_uri: Option<Option<String>>, root_path: Option<&str>) -> (r: Vec<String>)
    ensures
        match folders {
            Some(fs) => r@.len() == present_count(fs@)
                && forall|i: int| 0 <= i < fs@.len() && (#[trigger] fs@[i]) is Some
                    ==> r@[present_count(fs@.take(i))]@ == fs@[i]->0@,
            None => match root_uri {
                Some(Some(p)) => r@.len() == 1 && r@[0]@ == p@,
                _ => match root_path {
                    Some(p) => r@.len() == 1 && r@[0]@ == p@,
                    None => r@.len() == 0,
                },
            },
        },
{
    match folders {
        Some(fs) => {
            let mut out: Vec<String> = Vec::new();
            let mut i: usize = 0;
            while i < fs.len()
                invariant
                    i <= fs@.len(),
                    out@.len() == present_count(fs@.take(i as int)),
                    forall|j: int| 0 <= j < i && (#[trigger] fs@[j]) is Some
                        ==> out@[present_count(fs@.take(j))]@ == fs@[j]->0@,
                decreases fs@.len() - i,
            {
                assert(fs@.take(i + 1).drop_last() =~= fs@.take(i as int));
                let ghost before = out@;
                match &fs[i] {
                    Some(p) => {
                        out.push(p.clone());
                    },
                    None => {},
                }
                proof {
                    assert forall|j: int| 0 <= j < i + 1 && (#[trigger] fs@[j]) is Some
                        implies out@[present_count(fs@.take(j))]@ == fs@[j]->0@ by {
                        if j < i {
                            lemma_present_count_range(fs@.take(j));
                            lemma_present_count_prefix(fs@, j, i as int);
                            assert(out@[present_count(fs@.take(j))] == before[present_count(fs@.take(j))]);
                        }
                    }
                }
                i = i + 1;
            }
            assert(fs@.take(fs@.len() as int) =~= fs@);
            out
        },
        None => {
            if let Some(Some(p)) = root_uri {
                return vec![p];
            }
            match root_path {
                Some(p) => vec![p.to_string()],
                None => Vec::new(),
            }
        },
    }
}

/// How many of `fs` are present.
pub open spec fn present_count(fs: Seq<Option<String>>) -> int
    decreases fs.len(),
{
    if fs.len() == 0 {
        0
    } else {
        present_count(fs.drop_last()) + if fs.last() is Some { 1int } else { 0int }
    }
}

proof fn lemma_present_count_range(fs: Seq<Option<String>>)
    ensures
        0 <= present_count(fs) <= fs.len(),
    decreases fs.len(),
{
    if fs.len() > 0 {
        lemma_present_count_range(fs.drop_last());
    }
}

/// A present item counts before every later prefix.
proof fn lemma_present_count_prefix(fs: Seq<Option<String>>, j: int, i: int)
    requires
        0 <= j < i <= fs.len(),
        fs[j] is Some,
    ensures
        present_count(fs.take(j)) < present_count(fs.take(i)),
    decreases i - j,
{
    assert(fs.take(i).drop_last() =~= fs.take(i - 1));
    if j < i - 1 {
        lemma_present_count_prefix(fs, j, i - 1);
    } else {
        assert(fs.take(i).last() == fs[j]);
    }
}

/// What happened to a watched file.
#[derive(Clone, Copy, Debug, PartialEq, Eq, Structural)]
pub enum WatchEventKind {
    Create,
    Modify,
    Remove,
    Other,
}

/// `p` has the extension of a locale file.
pub open spec fn is_locale_path(p: Seq<char>) -> bool {
    match crate::paths::extension_of(p) {
        Some(e) => crate::index::is_locale_extension(e),
        None => false,
    }
}

/// A watcher event that calls for rebuilding the index: a file created,
/// changed or removed, with a locale file among its paths.
pub fn is_locale_event(kind: WatchEventKind, paths: &Vec<String>) -> (r: bool)
    ensures
        r == (kind != WatchEventKind::Other && exists|i: int| 0 <= i < paths@.len() && #[trigger] is_locale_path(paths@[i]@)),
{
    if kind == WatchEventKind::Other {
        return false;
    }
    let mut i: usize = 0;
    while i < paths.len()
        invariant
            kind != WatchEventKind::Other,
            i <= paths@.len(),
            forall|j: int| 0 <= j < i ==> !#[trigger] is_locale_path(paths@[j]@),
        decreases paths@.len() - i,
    {
        if crate::config::is_locale_data_file(paths[i].as_str()) {
            assert(is_locale_path(paths@[i as int]@));
            return true;
        }
        i = i + 1;
    }
    false
}

/// `path` is the path of a file of the index.
pub open spec fn indexed_path(idx: LocaleIndex, path: Seq<char>) -> bool {
    exists|i: int| 0 <= i < idx.files@.len() && (#[trigger] idx.files@[i]).path@ == path
}

/// Whether `path` names a locale file of the index (paths compared as
/// written).
pub fn is_indexed_locale_path(idx: &LocaleIndex, path: &str) -> (r: bool)
    ensures
        r == indexed_path(*idx, path@),
{
    let mut i: usize = 0;
    while i < idx.files.len()
        invariant
            i <= idx.files@.len(),
            forall|j: int| 0 <= j < i ==> (#[trigger] idx.files@[j]).path@ != path@,
        decreases idx.files@.len() - i,
    {
        if str_eq(idx.files[i].path.as_str(), path) {
            return true;
        }
        i = i + 1;
    }
    false
}

/// Whether an edited document refreshes the usage scan: a supported source
/// language, and not a locale file of the index.
pub fn should_update_usages(idx: &LocaleIndex, path: &str, language_id: &str) -> (r: bool)
    ensures
        r == (is_source_language(language_id@) && !indexed_path(*idx, path@)),
{
    is_supported_source_lang(language_id) && !is_indexed_locale_path(idx, path)
}

/// `indexed N locale(s), N file(s), N unique key(s)`.
pub open spec fn index_summary_spec(locales: nat, files: nat, keys: nat) -> Seq<char> {
    "indexed "@ + decimal(locales) + " locale(s), "@ + decimal(files) + " file(s), "@ + decimal(keys) + " unique key(s)"@
}

/// A one-line summary of the index: its locales, files and distinct keys.
pub fn index_summary(idx: &LocaleIndex) -> (r: String)
    ensures
        exists|keys: Seq<Seq<char>>| #[trigger] index_keys(keys, *idx)
            && r@ == index_summary_spec(idx.trees.entries@.len(), idx.files@.len(), keys.len()),
{
    let keys = idx.all_keys();
    let mut s = String::from_str("indexed ");
    s.append(crate::project::decimal_string(idx.trees.len()).as_str());
    s.append(" locale(s), ");
    s.append(crate::project::decimal_string(idx.files.len()).as_str());
    s.append(" file(s), ");
    s.append(crate::project::decimal_string(keys.len()).as_str());
    s.append(" unique key(s)");
    assert(index_keys(views(keys@), *idx));
    s
}

} // verus!
