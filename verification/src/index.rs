//! The index across every locale of a workspace: one key tree per locale.
use vstd::prelude::*;
use vstd::string::*;
use crate::text::{lemma_contains_push, lemma_contains_concat, str_lt, lemma_str_lt_order, order_str, str_eq, views, join_spec, split_spec, split_char};
use crate::keytree::{
    KeyTree, KeyNode, LocalizedValue, keys_sorted, has_key, find_child, tree_wf, leaf_at, leaf_paths,
    dotted, diff_from, lemma_find_child_at, lemma_find_child_update, lemma_find_child_insert,
    collect_keys, diff_tree,
};
use crate::keytree::{file_entries, dotted_entries, entry_views, opt_view, collect_file_entries};
use crate::locale::{Locale, LocaleFile, LocaleLayout, normalize_locale};
use crate::config::ProjectConfig;
use crate::parser::{LocaleEntry, ParseError, entry_path, parse_result_for, parse_with_extension};
use crate::keytree::{inserted_seq, lemma_inserted_seq_empty, lemma_inserted_seq_step, pruned, has_file_leaf};
use crate::paths::{paths_equal, extension_of, stem_of, parent_of, file_name_of, extension, stem, parent, file_name};
use crate::keytree::{lemma_inserted_seq_concat, node_at, is_leaf, kept_leaf, paths_unrelated, blocked};
use crate::parser::is_json_extension;
use crate::text::chars_of;
use crate::scan::UsageIndex;

verus! {

broadcast use vstd::seq::group_seq_axioms;

/// Key trees by locale, kept in strictly increasing locale order.
#[derive(Debug)]
pub struct LocaleTrees {
    pub entries: Vec<(Locale, KeyTree)>,
}

/// Position of locale `l` among sorted entries: the first index whose code
/// is not smaller, and whether that code is `l` itself.
fn locale_slot(es: &Vec<(Locale, KeyTree)>, l: &Locale) -> (r: (usize, bool))
    requires
        keys_sorted(es@),
    ensures
        r.0 <= es@.len(),
        forall|j: int| 0 <= j < r.0 ==> str_lt(#[trigger] es@[j].0@, l@),
        r.1 ==> r.0 < es@.len() && es@[r.0 as int].0@ == l@,
        !r.1 ==> r.0 == es@.len() || str_lt(l@, es@[r.0 as int].0@),
        r.1 == has_key(es@, l@),
{
    let mut i: usize = 0;
    while i < es.len()
        invariant
            keys_sorted(es@),
            i <= es@.len(),
            forall|j: int| 0 <= j < i ==> str_lt(#[trigger] es@[j].0@, l@),
        decreases es@.len() - i,
    {
        let c = order_str(es[i].0.as_str(), l.as_str());
        if c >= 0 {
            proof {
                if c > 0 && has_key(es@, l@) {
                    let j = choose|j: int| 0 <= j < es@.len() && (#[trigger] es@[j]).0@ == l@;
                    lemma_str_lt_order(l@, l@, l@);
                    if j > i {
                        assert(str_lt(es@[i as int].0@, es@[j].0@));
                        lemma_str_lt_order(l@, es@[i as int].0@, es@[j].0@);
                    }
                }
            }
            return (i, c == 0);
        }
        i = i + 1;
    }
    proof {
        if has_key(es@, l@) {
            let j = choose|j: int| 0 <= j < es@.len() && (#[trigger] es@[j]).0@ == l@;
            lemma_str_lt_order(l@, l@, l@);
        }
    }
    (i, false)
}

impl LocaleTrees {
    /// Locales in increasing order, each tree well formed.
    pub open spec fn wf(&self) -> bool {
        &&& keys_sorted(self.entries@)
        &&& forall|i: int| 0 <= i < self.entries@.len() ==> tree_wf(#[trigger] self.entries@[i].1)
    }

    /// The tree of locale `l`, if any.
    pub open spec fn tree(&self, l: Seq<char>) -> Option<KeyTree> {
        find_child(self.entries@, l)
    }

    pub fn new() -> (r: LocaleTrees)
        ensures
            r.wf(),
            r.entries@.len() == 0,
    {
        LocaleTrees { entries: Vec::new() }
    }

    /// Number of locales.
    pub fn len(&self) -> (r: usize)
        ensures
            r == self.entries@.len(),
    {
        self.entries.len()
    }

    pub fn is_empty(&self) -> (r: bool)
        ensures
            r == (self.entries@.len() == 0),
    {
        self.entries.len() == 0
    }

    pub fn get(&self, l: &Locale) -> (r: Option<&KeyTree>)
        requires
            self.wf(),
        ensures
            match r {
                Some(t) => self.tree(l@) == Some(*t),
                None => self.tree(l@) is None,
            },
    {
        let (pos, found) = locale_slot(&self.entries, l);
        if found {
            proof { lemma_find_child_at(self.entries@, pos as int); }
            Some(&self.entries[pos].1)
        } else {
            None
        }
    }

    pub fn contains_key(&self, l: &Locale) -> (r: bool)
        requires
            self.wf(),
        ensures
            r == self.tree(l@) is Some,
    {
        let (pos, found) = locale_slot(&self.entries, l);
        proof {
            if found {
                lemma_find_child_at(self.entries@, pos as int);
            }
        }
        found
    }

    /// Sets the tree of locale `l` to `t`.
    pub fn insert(&mut self, l: Locale, t: KeyTree)
        requires
            old(self).wf(),
            tree_wf(t),
        ensures
            final(self).wf(),
            forall|m: Seq<char>| #[trigger] final(self).tree(m)
                == if m == l@ { Some(t) } else { old(self).tree(m) },
    {
        let (pos, found) = locale_slot(&self.entries, &l);
        let ghost es = self.entries@;
        let entry = (l, t);
        if found {
            self.entries.set(pos, entry);
            proof { lemma_find_child_update(es, pos as int, entry); }
        } else {
            self.entries.insert(pos, entry);
            proof { lemma_find_child_insert(es, pos as int, entry); }
        }
        proof {
            assert forall|i: int| 0 <= i < self.entries@.len() implies tree_wf(#[trigger] self.entries@[i].1) by {
                if found {
                    if i != pos { assert(self.entries@[i] == es[i]); }
                } else if i < pos {
                    assert(self.entries@[i] == es[i]);
                } else if i > pos {
                    assert(self.entries@[i] == es[i - 1]);
                }
            }
        }
    }

    /// Removes and returns the tree of locale `l`; an empty tree when there is none.
    pub fn take(&mut self, l: &Locale) -> (r: KeyTree)
        requires
            old(self).wf(),
        ensures
            final(self).wf(),
            tree_wf(r),
            match old(self).tree(l@) {
                Some(t) => r == t,
                None => r.children@.len() == 0,
            },
            forall|m: Seq<char>| #[trigger] final(self).tree(m)
                == if m == l@ { None } else { old(self).tree(m) },
    {
        let (pos, found) = locale_slot(&self.entries, l);
        let ghost es = self.entries@;
        if found {
            proof { lemma_find_child_at(es, pos as int); }
            let (_, t) = self.entries.remove(pos);
            let ghost es2 = self.entries@;
            proof {
                assert forall|i: int, j: int| 0 <= i < j < es2.len() implies
                    str_lt(#[trigger] es2[i].0@, #[trigger] es2[j].0@) by {
                    let i0 = if i < pos { i } else { i + 1 };
                    let j0 = if j < pos { j } else { j + 1 };
                    assert(es2[i] == es[i0] && es2[j] == es[j0]);
                }
                assert forall|i: int| 0 <= i < es2.len() implies tree_wf(#[trigger] es2[i].1) by {
                    let i0 = if i < pos { i } else { i + 1 };
                    assert(es2[i] == es[i0]);
                }
                assert forall|m: Seq<char>| #[trigger] find_child(es2, m)
                    == if m == l@ { None } else { find_child(es, m) } by {
                    if has_key(es2, m) {
                        let j = choose|j: int| 0 <= j < es2.len() && (#[trigger] es2[j]).0@ == m;
                        let j0 = if j < pos { j } else { j + 1 };
                        assert(es2[j] == es[j0]);
                        lemma_find_child_at(es2, j);
                        lemma_find_child_at(es, j0);
                        if m == l@ {
                            lemma_str_lt_order(l@, l@, l@);
                            if j0 < pos {
                                assert(str_lt(es[j0].0@, es[pos as int].0@));
                            } else {
                                assert(str_lt(es[pos as int].0@, es[j0].0@));
                            }
                        }
                    } else if has_key(es, m) && m != l@ {
                        let j = choose|j: int| 0 <= j < es.len() && (#[trigger] es[j]).0@ == m;
                        assert(j != pos);
                        if j < pos {
                            assert(es2[j] == es[j]);
                        } else {
                            assert(es2[j - 1] == es[j]);
                        }
                    }
                }
            }
            t
        } else {
            KeyTree::new()
        }
    }

    /// The locales, in increasing order.
    pub fn keys(&self) -> (r: Vec<&Locale>)
        ensures
            r@.len() == self.entries@.len(),
            forall|i: int| 0 <= i < r@.len() ==> *r@[i] == #[trigger] self.entries@[i].0,
    {
        let mut r: Vec<&Locale> = Vec::new();
        let mut i: usize = 0;
        while i < self.entries.len()
            invariant
                i <= self.entries@.len(),
                r@.len() == i,
                forall|k: int| 0 <= k < i ==> *r@[k] == #[trigger] self.entries@[k].0,
            decreases self.entries@.len() - i,
        {
            r.push(&self.entries[i].0);
            i = i + 1;
        }
        r
    }
}

/// The values a dotted key holds, one per locale that defines it, in
/// increasing locale order.
#[derive(Debug)]
pub struct Lookup<'a> {
    pub entries: Vec<(&'a Locale, &'a LocalizedValue)>,
}

/// Strictly increasing locales.
pub open spec fn locales_increasing<'a>(v: Seq<(&'a Locale, &'a LocalizedValue)>) -> bool {
    forall|i: int, j: int| 0 <= i < j < v.len() ==> str_lt(#[trigger] v[i].0@, #[trigger] v[j].0@)
}

impl<'a> Lookup<'a> {
    /// The value found for locale `l`, if any.
    pub open spec fn value_for(&self, l: Seq<char>) -> Option<LocalizedValue> {
        find_child(lookup_pairs(self.entries@), l)
    }

    pub fn get(&self, l: &Locale) -> (r: Option<&'a LocalizedValue>)
        requires
            locales_increasing(self.entries@),
        ensures
            match r {
                Some(v) => self.value_for(l@) == Some(*v),
                None => self.value_for(l@) is None,
            },
    {
        let ghost ps = lookup_pairs(self.entries@);
        proof {
            assert forall|i: int, j: int| 0 <= i < j < ps.len() implies str_lt(#[trigger] ps[i].0@, #[trigger] ps[j].0@) by {
                assert(str_lt(self.entries@[i].0@, self.entries@[j].0@));
            }
        }
        let mut i: usize = 0;
        while i < self.entries.len()
            invariant
                ps == lookup_pairs(self.entries@),
                keys_sorted(ps),
                i <= self.entries@.len(),
                forall|j: int| 0 <= j < i ==> (#[trigger] ps[j]).0@ != l@,
            decreases self.entries@.len() - i,
        {
            if self.entries[i].0.same_as(l) {
                proof { lemma_find_child_at(ps, i as int); }
                return Some(self.entries[i].1);
            }
            i = i + 1;
        }
        None
    }

    pub fn contains_key(&self, l: &Locale) -> (r: bool)
        requires
            locales_increasing(self.entries@),
        ensures
            r == self.value_for(l@) is Some,
    {
        self.get(l).is_some()
    }

    pub fn is_empty(&self) -> (r: bool)
        ensures
            r == (self.entries@.len() == 0),
    {
        self.entries.len() == 0
    }

    pub fn len(&self) -> (r: usize)
        ensures
            r == self.entries@.len(),
    {
        self.entries.len()
    }
}

/// The `(locale, value)` pairs of the trees in `es` that hold a leaf at `p`, in order.
pub open spec fn lookup_spec(es: Seq<(Locale, KeyTree)>, p: Seq<Seq<char>>) -> Seq<(Locale, LocalizedValue)>
    decreases es.len(),
{
    if es.len() == 0 {
        Seq::<(Locale, LocalizedValue)>::empty()
    } else {
        let rest = lookup_spec(es.drop_last(), p);
        match leaf_at(es.last().1, p) {
            Some(v) => rest.push((es.last().0, v)),
            None => rest,
        }
    }
}

/// Every locale of `lookup_spec(es, p)` is a locale of `es`, and they stay in order.
proof fn lemma_lookup_spec_keys(es: Seq<(Locale, KeyTree)>, p: Seq<Seq<char>>)
    requires
        keys_sorted(es),
    ensures
        keys_sorted(lookup_spec(es, p)),
        forall|i: int| 0 <= i < lookup_spec(es, p).len() ==> has_key(es, (#[trigger] lookup_spec(es, p)[i]).0@),
    decreases es.len(),
{
    if es.len() > 0 {
        let init = es.drop_last();
        assert(keys_sorted(init));
        lemma_lookup_spec_keys(init, p);
        let rest = lookup_spec(init, p);
        assert forall|i: int| 0 <= i < rest.len() implies str_lt((#[trigger] rest[i]).0@, es.last().0@) by {
            assert(has_key(init, rest[i].0@));
            let j = choose|j: int| 0 <= j < init.len() && (#[trigger] init[j]).0@ == rest[i].0@;
            assert(str_lt(es[j].0@, es[es.len() - 1].0@));
        }
        match leaf_at(es.last().1, p) {
            Some(v) => {
                let x = (es.last().0, v);
                lemma_find_child_insert(rest, rest.len() as int, x);
                assert(rest.insert(rest.len() as int, x) =~= rest.push(x));
                assert forall|i: int| 0 <= i < rest.push(x).len() implies has_key(es, (#[trigger] rest.push(x)[i]).0@) by {
                    if i < rest.len() {
                        assert(has_key(init, rest[i].0@));
                        let j = choose|j: int| 0 <= j < init.len() && (#[trigger] init[j]).0@ == rest[i].0@;
                        assert(es[j] == init[j]);
                    } else {
                        assert(es[es.len() - 1].0@ == x.0@);
                    }
                }
            },
            None => {
                assert forall|i: int| 0 <= i < rest.len() implies has_key(es, (#[trigger] rest[i]).0@) by {
                    assert(has_key(init, rest[i].0@));
                    let j = choose|j: int| 0 <= j < init.len() && (#[trigger] init[j]).0@ == rest[i].0@;
                    assert(es[j] == init[j]);
                }
            },
        }
    }
}

/// The value a lookup finds for locale `l` is the leaf at `p` of `l`'s tree.
pub proof fn lemma_lookup_spec_find(es: Seq<(Locale, KeyTree)>, p: Seq<Seq<char>>, l: Seq<char>)
    requires
        keys_sorted(es),
    ensures
        find_child(lookup_spec(es, p), l) == match find_child(es, l) {
            Some(t) => leaf_at(t, p),
            None => None,
        },
    decreases es.len(),
{
    if es.len() == 0 {
        assert(!has_key(lookup_spec(es, p), l));
        assert(!has_key(es, l));
    } else {
        let init = es.drop_last();
        let last = es.last();
        assert(keys_sorted(init));
        lemma_lookup_spec_find(init, p, l);
        lemma_lookup_spec_keys(init, p);
        let rest = lookup_spec(init, p);
        assert forall|j: int| 0 <= j < init.len() implies str_lt((#[trigger] init[j]).0@, last.0@) by {
            assert(str_lt(es[j].0@, es[es.len() - 1].0@));
        }
        lemma_find_child_insert(init, init.len() as int, last);
        assert(init.insert(init.len() as int, last) =~= es);
        assert forall|i: int| 0 <= i < rest.len() implies str_lt((#[trigger] rest[i]).0@, last.0@) by {
            assert(has_key(init, rest[i].0@));
            let j = choose|j: int| 0 <= j < init.len() && (#[trigger] init[j]).0@ == rest[i].0@;
        }
        match leaf_at(last.1, p) {
            Some(v) => {
                let x = (last.0, v);
                lemma_find_child_insert(rest, rest.len() as int, x);
                assert(rest.insert(rest.len() as int, x) =~= rest.push(x));
            },
            None => {
                if l == last.0@ {
                    assert(!has_key(rest, l)) by {
                        if has_key(rest, l) {
                            let i = choose|i: int| 0 <= i < rest.len() && (#[trigger] rest[i]).0@ == l;
                            lemma_str_lt_order(l, l, l);
                        }
                    }
                    assert(!has_key(init, l)) by {
                        if has_key(init, l) {
                            let j = choose|j: int| 0 <= j < init.len() && (#[trigger] init[j]).0@ == l;
                            lemma_str_lt_order(l, l, l);
                        }
                    }
                }
            },
        }
    }
}

/// The pairs of a lookup result, without the references.
pub open spec fn lookup_pairs<'a>(v: Seq<(&'a Locale, &'a LocalizedValue)>) -> Seq<(Locale, LocalizedValue)> {
    v.map_values(|e: (&'a Locale, &'a LocalizedValue)| (*e.0, *e.1))
}

/// The dotted keys of every leaf of the trees in `es`, tree by tree.
pub open spec fn keys_of_trees(es: Seq<(Locale, KeyTree)>) -> Seq<Seq<char>>
    decreases es.len(),
{
    if es.len() == 0 {
        Seq::<Seq<char>>::empty()
    } else {
        keys_of_trees(es.drop_last()) + dotted(Seq::<Seq<char>>::empty(), leaf_paths(es.last().1))
    }
}

/// Strictly increasing strings.
pub open spec fn strictly_sorted(s: Seq<Seq<char>>) -> bool {
    forall|i: int, j: int| 0 <= i < j < s.len() ==> str_lt(#[trigger] s[i], #[trigger] s[j])
}

/// Inserts `s` into the strictly sorted `out`, unless it is there already.
pub(crate) fn insert_sorted_unique(out: &mut Vec<String>, s: String)
    requires
        strictly_sorted(views(old(out)@)),
    ensures
        strictly_sorted(views(final(out)@)),
        forall|x: Seq<char>| #[trigger] views(final(out)@).contains(x)
            <==> (views(old(out)@).contains(x) || x == s@),
{
    let ghost o = views(out@);
    let mut i: usize = 0;
    let mut stop: bool = false;
    while i < out.len() && !stop
        invariant
            views(out@) == o,
            strictly_sorted(o),
            i <= o.len(),
            forall|j: int| 0 <= j < i ==> str_lt(#[trigger] o[j], s@),
            stop ==> i < o.len() && str_lt(s@, o[i as int]),
        decreases o.len() - i, if stop { 0int } else { 1int },
    {
        let c = order_str(out[i].as_str(), s.as_str());
        if c == 0 {
            assert(o[i as int] == s@);
            assert(o.contains(s@));
            return;
        }
        if c > 0 {
            stop = true;
        } else {
            i = i + 1;
        }
    }
    let ghost pos = i as int;
    out.insert(i, s);
    proof {
        let n = views(out@);
        assert(n =~= o.insert(pos, s@));
        assert forall|a: int, b: int| 0 <= a < b < n.len() implies str_lt(#[trigger] n[a], #[trigger] n[b]) by {
            if b < pos {
            } else if b == pos {
            } else if a == pos {
                if b - 1 > pos {
                    lemma_str_lt_order(s@, o[pos], o[b - 1]);
                }
            } else if a < pos {
                if b - 1 > pos {
                    lemma_str_lt_order(s@, o[pos], o[b - 1]);
                }
                lemma_str_lt_order(o[a], s@, o[b - 1]);
            } else {
            }
        }
        assert forall|x: Seq<char>| #[trigger] n.contains(x) <==> (o.contains(x) || x == s@) by {
            if o.contains(x) {
                let k = choose|k: int| 0 <= k < o.len() && o[k] == x;
                if k < pos { assert(n[k] == x); } else { assert(n[k + 1] == x); }
            }
            if x == s@ {
                assert(n[pos] == x);
            }
            if n.contains(x) {
                let k = choose|k: int| 0 <= k < n.len() && n[k] == x;
                if k < pos { assert(o[k] == x); } else if k > pos { assert(o[k - 1] == x); }
            }
        }
    }
}


/// The complete index across every discovered locale of a workspace.
#[derive(Debug)]
pub struct LocaleIndex {
    pub trees: LocaleTrees,
    pub files: Vec<LocaleFile>,
    pub layout: Option<LocaleLayout>,
    pub source_locale: Locale,
    /// The configuration the index was built with.
    pub config: ProjectConfig,
}

impl Default for LocaleIndex {
    fn default() -> (r: LocaleIndex)
        ensures
            r.trees.wf(),
            r.trees.entries@.len() == 0,
            r.files@.len() == 0,
            r.layout is None,
            r.source_locale@.len() == 0,
            r.config.locale_paths@.len() == 0,
            r.config.source_locale is None,
            r.config.namespace is None,
    {
        let source_locale = Locale::new("");
        proof {
            reveal_strlit("");
        }
        LocaleIndex {
            trees: LocaleTrees::new(),
            files: Vec::new(),
            layout: None,
            source_locale,
            config: ProjectConfig::default(),
        }
    }
}

/// Every leaf of the trees in `es` defined in `file` (every leaf when `file`
/// is `None`), with its dotted key, tree by tree in locale order.
pub open spec fn entries_of_trees(es: Seq<(Locale, KeyTree)>, file: Option<Seq<char>>) -> Seq<(Seq<char>, LocalizedValue)>
    decreases es.len(),
{
    if es.len() == 0 {
        Seq::<(Seq<char>, LocalizedValue)>::empty()
    } else {
        entries_of_trees(es.drop_last(), file) + dotted_entries(Seq::<Seq<char>>::empty(), file_entries(es.last().1, file))
    }
}

/// Index of the first file of `files` for locale `l`.
pub open spec fn first_file_of(files: Seq<LocaleFile>, l: Seq<char>, i: int) -> bool {
    &&& 0 <= i < files.len()
    &&& files[i].locale@ == l
    &&& forall|j: int| 0 <= j < i ==> (#[trigger] files[j]).locale@ != l
}

/// Key segments of an entry of `file` in the index: the namespace first when
/// the file's keys are indexed under it.
pub open spec fn namespaced_path(file: LocaleFile, key_path: Seq<Seq<char>>, layout: LocaleLayout, config: ProjectConfig) -> Seq<Seq<char>> {
    if file.spec_should_prepend_filename_namespace(&config, layout) && file.namespace is Some {
        seq![file.namespace->0@] + key_path
    } else {
        key_path
    }
}

/// Segments of the dotted `key` inside `file`: without the namespace when the
/// file's keys are indexed under it and the key starts with it.
pub open spec fn key_path_in_file_spec(key: Seq<char>, file: LocaleFile, layout: LocaleLayout, config: ProjectConfig) -> Seq<Seq<char>> {
    let segs = split_spec(key, '.');
    if layout == LocaleLayout::Nested && file.namespace is Some
        && file.spec_should_prepend_filename_namespace(&config, layout)
        && segs[0] == file.namespace->0@ {
        segs.drop_first()
    } else {
        segs
    }
}

/// The layout used to compose keys: the index's own, nested when unknown.
pub open spec fn layout_or_nested(l: Option<LocaleLayout>) -> LocaleLayout {
    match l {
        Some(x) => x,
        None => LocaleLayout::Nested,
    }
}

impl LocaleIndex {
    /// Values of the dotted `key` in every locale that defines it.
    pub fn lookup(&self, key: &str) -> (r: Lookup<'_>)
        requires
            self.trees.wf(),
        ensures
            lookup_pairs(r.entries@) == lookup_spec(self.trees.entries@, split_spec(key@, '.')),
            locales_increasing(r.entries@),
    {
        let path = split_char(key, '.');
        let ghost p = split_spec(key@, '.');
        let ghost es = self.trees.entries@;
        let mut out: Vec<(&Locale, &LocalizedValue)> = Vec::new();
        let mut i: usize = 0;
        while i < self.trees.entries.len()
            invariant
                self.trees.wf(),
                es == self.trees.entries@,
                views(path@) == p,
                i <= es.len(),
                lookup_pairs(out@) == lookup_spec(es.take(i as int), p),
                locales_increasing(out@),
                forall|a: int, j: int| 0 <= a < out@.len() && i <= j < es.len()
                    ==> str_lt(#[trigger] out@[a].0@, #[trigger] es[j].0@),
            decreases es.len() - i,
        {
            let entry = &self.trees.entries[i];
            assert(*entry == es[i as int]);
            assert(es.take(i + 1).drop_last() =~= es.take(i as int));
            assert(tree_wf(es[i as int].1));
            match entry.1.lookup(path.as_slice()) {
                Some(v) => {
                    let ghost o = out@;
                    out.push((&entry.0, v));
                    proof {
                        assert(lookup_pairs(out@) =~= lookup_pairs(o).push((entry.0, *v)));
                        assert forall|a: int, b: int| 0 <= a < b < out@.len() implies
                            str_lt(#[trigger] out@[a].0@, #[trigger] out@[b].0@) by {
                            assert(out@[a] == o[a]);
                            if b == o.len() {
                                assert(out@[b].0@ == es[i as int].0@);
                                assert(str_lt(o[a].0@, es[i as int].0@));
                            } else {
                                assert(out@[b] == o[b]);
                            }
                        }
                        assert forall|a: int, j: int| 0 <= a < out@.len() && i + 1 <= j < es.len()
                            implies str_lt(#[trigger] out@[a].0@, #[trigger] es[j].0@) by {
                            if a == o.len() {
                                assert(str_lt(es[i as int].0@, es[j].0@));
                            } else {
                                assert(out@[a] == o[a]);
                            }
                        }
                    }
                },
                None => {},
            }
            i = i + 1;
        }
        assert(es.take(es.len() as int) =~= es);
        Lookup { entries: out }
    }

    /// Union of the keys of every locale, sorted, each once.
    pub fn all_keys(&self) -> (r: Vec<String>)
        ensures
            strictly_sorted(views(r@)),
            forall|x: Seq<char>| #[trigger] views(r@).contains(x) <==> keys_of_trees(self.trees.entries@).contains(x),
    {
        let ghost es = self.trees.entries@;
        let mut out: Vec<String> = Vec::new();
        let mut i: usize = 0;
        while i < self.trees.entries.len()
            invariant
                es == self.trees.entries@,
                i <= es.len(),
                strictly_sorted(views(out@)),
                forall|x: Seq<char>| #[trigger] views(out@).contains(x) <==> keys_of_trees(es.take(i as int)).contains(x),
            decreases es.len() - i,
        {
            let mut path: Vec<String> = Vec::new();
            let mut keys: Vec<String> = Vec::new();
            assert(views(path@) =~= Seq::<Seq<char>>::empty());
            assert(views(keys@) =~= Seq::<Seq<char>>::empty());
            collect_keys(&self.trees.entries[i].1, &mut path, &mut keys);
            let ghost ks = views(keys@);
            let ghost before = keys_of_trees(es.take(i as int));
            assert(es.take(i + 1).drop_last() =~= es.take(i as int));
            assert(keys_of_trees(es.take(i + 1)) == before + ks);
            let mut j: usize = 0;
            while j < keys.len()
                invariant
                    views(keys@) == ks,
                    j <= ks.len(),
                    strictly_sorted(views(out@)),
                    forall|x: Seq<char>| #[trigger] views(out@).contains(x) <==> (before.contains(x) || ks.take(j as int).contains(x)),
                decreases ks.len() - j,
            {
                insert_sorted_unique(&mut out, keys[j].clone());
                proof {
                    assert(ks.take(j + 1) =~= ks.take(j as int).push(ks[j as int]));
                    lemma_contains_push(ks.take(j as int), ks[j as int]);
                }
                j = j + 1;
            }
            proof {
                assert(ks.take(ks.len() as int) =~= ks);
                lemma_contains_concat(before, ks);
            }
            i = i + 1;
        }
        assert(es.take(es.len() as int) =~= es);
        out
    }

    /// Keys present in the source locale but missing from `locale`, in the
    /// source tree's order; empty when the source locale has no tree.
    pub fn missing_keys(&self, locale: &Locale) -> (r: Vec<String>)
        requires
            self.trees.wf(),
        ensures
            match self.trees.tree(self.source_locale@) {
                None => r@.len() == 0,
                Some(src) => views(r@) == dotted(Seq::<Seq<char>>::empty(), diff_from(src, self.trees.tree(locale@), 0)),
            },
    {
        let source = match self.trees.get(&self.source_locale) {
            Some(t) => t,
            None => return Vec::new(),
        };
        let target = self.trees.get(locale);
        proof {
            if target is Some {
                let j = choose|j: int| 0 <= j < self.trees.entries@.len() && (#[trigger] self.trees.entries@[j]).0@ == locale@;
                lemma_find_child_at(self.trees.entries@, j);
            }
        }
        let mut path: Vec<String> = Vec::new();
        let mut out: Vec<String> = Vec::new();
        assert(views(path@) =~= Seq::<Seq<char>>::empty());
        assert(views(out@) =~= Seq::<Seq<char>>::empty());
        diff_tree(source, target, &mut path, &mut out);
        assert(views(out@) =~= Seq::<Seq<char>>::empty() + views(out@));
        out
    }

    /// Path of the first file of `locale` (its only file in a flat layout).
    pub fn locale_file_path(&self, locale: &Locale) -> (r: Option<String>)
        ensures
            match r {
                Some(p) => exists|i: int| first_file_of(self.files@, locale@, i) && p@ == self.files@[i].path@,
                None => forall|i: int| 0 <= i < self.files@.len() ==> (#[trigger] self.files@[i]).locale@ != locale@,
            },
    {
        let mut i: usize = 0;
        while i < self.files.len()
            invariant
                i <= self.files@.len(),
                forall|j: int| 0 <= j < i ==> (#[trigger] self.files@[j]).locale@ != locale@,
            decreases self.files@.len() - i,
        {
            if self.files[i].locale.same_as(locale) {
                assert(first_file_of(self.files@, locale@, i as int));
                return Some(self.files[i].path.clone());
            }
            i = i + 1;
        }
        None
    }

    /// Every `(dotted key, value)` defined in the file `path`, across locales.
    pub fn entries_for_file(&self, path: &str) -> (r: Vec<(String, &LocalizedValue)>)
        ensures
            entry_views(r@) == entries_of_trees(self.trees.entries@, Some(path@)),
    {
        self.collect_entries(Some(path))
    }

    fn collect_entries(&self, file: Option<&str>) -> (r: Vec<(String, &LocalizedValue)>)
        ensures
            entry_views(r@) == entries_of_trees(self.trees.entries@, opt_view(file)),
    {
        let ghost es = self.trees.entries@;
        let mut out: Vec<(String, &LocalizedValue)> = Vec::new();
        let mut i: usize = 0;
        while i < self.trees.entries.len()
            invariant
                es == self.trees.entries@,
                i <= es.len(),
                entry_views(out@) == entries_of_trees(es.take(i as int), opt_view(file)),
            decreases es.len() - i,
        {
            let mut path: Vec<String> = Vec::new();
            assert(views(path@) =~= Seq::<Seq<char>>::empty());
            collect_file_entries(&self.trees.entries[i].1, file, &mut path, &mut out);
            assert(es.take(i + 1).drop_last() =~= es.take(i as int));
            i = i + 1;
        }
        assert(es.take(es.len() as int) =~= es);
        out
    }

    /// The full dotted key of an entry parsed from `file`, with the same
    /// namespace rule as when the index is built.
    pub fn compose_full_key(&self, file: &LocaleFile, key_path: &[String]) -> (r: String)
        ensures
            r@ == join_spec(namespaced_path(*file, views(key_path@), layout_or_nested(self.layout), self.config), '.'),
    {
        let layout = match self.layout {
            Some(l) => l,
            None => LocaleLayout::Nested,
        };
        let full = push_namespaced_key_path(file, key_path, layout, &self.config);
        crate::text::join_char(full.as_slice(), '.')
    }
}

/// Key segments of an entry of `file` in the index.
pub fn push_namespaced_key_path(file: &LocaleFile, key_path: &[String], layout: LocaleLayout, config: &ProjectConfig) -> (r: Vec<String>)
    ensures
        views(r@) == namespaced_path(*file, views(key_path@), layout, *config),
{
    let mut full: Vec<String> = Vec::new();
    if file.should_prepend_filename_namespace(config, layout) {
        if let Some(ns) = &file.namespace {
            full.push(ns.clone());
        }
    }
    let ghost f0 = views(full@);
    let mut i: usize = 0;
    while i < key_path.len()
        invariant
            i <= key_path@.len(),
            views(full@) == f0 + views(key_path@).take(i as int),
        decreases key_path@.len() - i,
    {
        let ghost fv = views(full@);
        full.push(key_path[i].clone());
        assert(views(full@) =~= fv.push(key_path@[i as int]@));
        assert(views(key_path@).take(i + 1) =~= views(key_path@).take(i as int).push(key_path@[i as int]@));
        i = i + 1;
    }
    assert(views(key_path@).take(key_path@.len() as int) =~= views(key_path@));
    assert(f0 + views(key_path@) =~= namespaced_path(*file, views(key_path@), layout, *config));
    full
}

/// Segments of the dotted index `key` inside `file`.
pub fn key_path_in_file(key: &str, file: &LocaleFile, layout: LocaleLayout, config: &ProjectConfig) -> (r: Vec<String>)
    ensures
        views(r@) == key_path_in_file_spec(key@, *file, layout, *config),
{
    let segments = split_char(key, '.');
    proof { crate::text::lemma_split_nonempty(key@, '.'); }
    if layout != LocaleLayout::Nested {
        return segments;
    }
    let ns = match &file.namespace {
        Some(n) => n,
        None => return segments,
    };
    if file.should_prepend_filename_namespace(config, layout) && str_eq(segments[0].as_str(), ns.as_str()) {
        let mut rest: Vec<String> = Vec::new();
        let mut i: usize = 1;
        while i < segments.len()
            invariant
                1 <= i <= segments@.len(),
                views(rest@) == views(segments@).subrange(1, i as int),
            decreases segments@.len() - i,
        {
            rest.push(segments[i].clone());
            assert(views(segments@).subrange(1, i + 1) =~= views(segments@).subrange(1, i as int).push(segments@[i as int]@));
            i = i + 1;
        }
        assert(views(segments@).subrange(1, segments@.len() as int) =~= views(segments@).drop_first());
        return rest;
    }
    segments
}


/// The stores that index the entries `es` of `file`: each entry's key path
/// under the file's namespace rule, with its value and ranges.
pub open spec fn file_inserts(file: LocaleFile, es: Seq<LocaleEntry>, layout: LocaleLayout, config: ProjectConfig) -> Seq<(Seq<Seq<char>>, LocalizedValue)> {
    es.map_values(|e: LocaleEntry| (
        namespaced_path(file, views(e.key_path@), layout, config),
        LocalizedValue { value: e.value, file: file.path, range: e.range, key_range: e.key_range },
    ))
}

/// Every entry sits under a top-level property named `stem`, and there is one.
pub open spec fn inline_root(es: Seq<LocaleEntry>, stem: Seq<char>) -> bool {
    &&& es.len() > 0
    &&& forall|i: int| 0 <= i < es.len() ==> (#[trigger] es[i]).key_path@.len() > 0 && es[i].key_path@[0]@ == stem
}

/// True when every parsed key sits under a top-level property named after
/// the file stem (`slots.json` holding `{ "slots": { ... } }`).
pub fn entries_use_inline_namespace_root(entries: &Vec<LocaleEntry>, stem: &str) -> (r: bool)
    ensures
        r == inline_root(entries@, stem@),
{
    if entries.len() == 0 {
        return false;
    }
    let mut i: usize = 0;
    while i < entries.len()
        invariant
            i <= entries@.len(),
            forall|j: int| 0 <= j < i ==> (#[trigger] entries@[j]).key_path@.len() > 0 && entries@[j].key_path@[0]@ == stem@,
        decreases entries@.len() - i,
    {
        let e = &entries[i];
        if e.key_path.len() == 0 || !str_eq(e.key_path[0].as_str(), stem) {
            return false;
        }
        i = i + 1;
    }
    true
}

/// Stores every entry of `file` in `tree`, in order.
fn insert_entries(tree: &mut KeyTree, file: &LocaleFile, entries: &Vec<LocaleEntry>, layout: LocaleLayout, config: &ProjectConfig)
    requires
        tree_wf(*old(tree)),
    ensures
        tree_wf(*final(tree)),
        inserted_seq(*old(tree), file_inserts(*file, entries@, layout, *config), *final(tree)),
{
    let ghost items = file_inserts(*file, entries@, layout, *config);
    let ghost t0 = *tree;
    proof { lemma_inserted_seq_empty(t0); assert(items.take(0) =~= Seq::<(Seq<Seq<char>>, LocalizedValue)>::empty()); }
    let mut k: usize = 0;
    while k < entries.len()
        invariant
            items == file_inserts(*file, entries@, layout, *config),
            k <= entries@.len(),
            tree_wf(*tree),
            inserted_seq(t0, items.take(k as int), *tree),
        decreases entries@.len() - k,
    {
        let e = &entries[k];
        let full = push_namespaced_key_path(file, e.key_path.as_slice(), layout, config);
        let v = LocalizedValue { value: e.value.clone(), file: file.path.clone(), range: e.range, key_range: e.key_range };
        let ghost mid = *tree;
        assert(items[k as int] == (views(full@), v));
        tree.insert(full.as_slice(), v);
        proof { lemma_inserted_seq_step(t0, items, k as int, mid, *tree); }
        k = k + 1;
    }
    assert(items.take(entries@.len() as int) =~= items);
}

/// Index of the first file at `path`.
pub open spec fn first_file_at(files: Seq<LocaleFile>, path: Seq<char>, i: int) -> bool {
    &&& 0 <= i < files.len()
    &&& files[i].path@ == path
    &&& forall|j: int| 0 <= j < i ==> (#[trigger] files[j]).path@ != path
}

/// `file` with its inline-namespace flag recomputed from its entries `es`.
pub open spec fn refreshed_file(file: LocaleFile, es: Seq<LocaleEntry>) -> LocaleFile {
    LocaleFile {
        inline_namespace_root: match file.namespace {
            Some(ns) => inline_root(es, ns@),
            None => file.inline_namespace_root,
        },
        ..file
    }
}

/// `new` is `old` after re-reading file `i` from the entries `es`: the
/// file's flag refreshed, its old leaves pruned from its locale's tree and
/// its entries stored again; everything else unchanged.
pub open spec fn reindexed(old: LocaleIndex, new: LocaleIndex, i: int, es: Seq<LocaleEntry>) -> bool {
    let f = old.files@[i];
    let f2 = refreshed_file(f, es);
    let l = f.locale@;
    &&& new.files@ == old.files@.update(i, f2)
    &&& new.layout == old.layout
    &&& new.source_locale == old.source_locale
    &&& new.config == old.config
    &&& forall|m: Seq<char>| m != l ==> #[trigger] new.trees.tree(m) == old.trees.tree(m)
    &&& new.trees.tree(l) matches Some(t2) && exists|t1: KeyTree| #![trigger inserted_seq(t1, file_inserts(f2, es, layout_or_nested(old.layout), old.config), t2)]
        tree_wf(t1) && inserted_seq(t1, file_inserts(f2, es, layout_or_nested(old.layout), old.config), t2)
        && match old.trees.tree(l) {
            Some(t0) => pruned(t0, f.path@, t1),
            None => t1.children@.len() == 0,
        }
}

/// Some leaf of the tree of `l` comes from `file`.
pub open spec fn locale_has_file_leaf(trees: LocaleTrees, l: Seq<char>, file: Seq<char>) -> bool {
    match trees.tree(l) {
        Some(t) => has_file_leaf(t, file),
        None => false,
    }
}

impl LocaleIndex {
    /// Replaces every leaf sourced from the file at `path` with what parsing
    /// `content` gives. `Ok(false)` without change when no file of the index
    /// is at `path`; the parse error, without change, when `content` does not
    /// parse; else `Ok` of whether the file had leaves or has entries now.
    #[verifier::spinoff_prover]
    #[verifier::rlimit(40)]
    pub fn update_file_from_buffer(&mut self, path: &str, content: &str) -> (r: Result<bool, ParseError>)
        requires
            old(self).trees.wf(),
            2 * content.spec_bytes().len() <= u32::MAX,
        ensures
            final(self).trees.wf(),
            (forall|i: int| 0 <= i < old(self).files@.len() ==> (#[trigger] old(self).files@[i]).path@ != path@)
                ==> (r matches Ok(false) && *final(self) == *old(self)),
            forall|i: int| #[trigger] first_file_at(old(self).files@, path@, i) ==>
                exists|pr: Result<Vec<LocaleEntry>, ParseError>| #[trigger] parse_result_for(content.spec_bytes(), content@, path@, pr)
                    && match pr {
                        Err(e) => r == Err::<bool, ParseError>(e) && *final(self) == *old(self),
                        Ok(es) => reindexed(*old(self), *final(self), i, es@)
                            && r == Ok::<bool, ParseError>(locale_has_file_leaf(old(self).trees, old(self).files@[i].locale@, old(self).files@[i].path@) || es@.len() > 0),
                    },
    {
        let mut i: usize = 0;
        while i < self.files.len() && !paths_equal(self.files[i].path.as_str(), path)
            invariant
                i <= self.files@.len(),
                forall|j: int| 0 <= j < i ==> (#[trigger] self.files@[j]).path@ != path@,
            decreases self.files@.len() - i,
        {
            i = i + 1;
        }
        if i >= self.files.len() {
            return Ok(false);
        }
        assert(first_file_at(self.files@, path@, i as int));
        let ghost old_idx = *self;
        let pr = parse_with_extension(content, path);
        let entries = match pr {
            Ok(es) => es,
            Err(e) => {
                assert(parse_result_for(content.spec_bytes(), content@, path@, Err::<Vec<LocaleEntry>, ParseError>(e)));
                return Err(e);
            },
        };
        let ghost es = entries@;
        let mut file = self.files.remove(i);
        let ghost f = file;
        let inline = match &file.namespace {
            Some(ns) => entries_use_inline_namespace_root(&entries, ns.as_str()),
            None => file.inline_namespace_root,
        };
        file.inline_namespace_root = inline;
        assert(file == refreshed_file(f, es));
        let mut tree = self.trees.take(&file.locale);
        let ghost t_before = tree;
        let had_leaves = tree.prune_leaves_from_file(file.path.as_str());
        let ghost t1 = tree;
        let layout = match self.layout {
            Some(l) => l,
            None => LocaleLayout::Nested,
        };
        insert_entries(&mut tree, &file, &entries, layout, &self.config);
        let ghost t2 = tree;
        let locale = file.locale.duplicate();
        self.trees.insert(locale, tree);
        self.files.insert(i, file);
        proof {
            assert(self.files@ =~= old_idx.files@.update(i as int, refreshed_file(f, es)));
            assert(self.trees.tree(f.locale@) == Some(t2));
            match old_idx.trees.tree(f.locale@) {
                Some(t0) => { assert(t_before == t0); },
                None => {
                    assert(t_before.children@.len() == 0);
                    assert(!has_file_leaf(t_before, f.path@)) by {
                        if has_file_leaf(t_before, f.path@) {
                            let q = choose|q: Seq<Seq<char>>| #[trigger] crate::keytree::from_file(crate::keytree::node_at(t_before, q), f.path@);
                            assert(!has_key(t_before.children@, q[0]));
                        }
                    }
                    assert(pruned(t_before, f.path@, t1));
                    assert(t1.children@.len() == 0) by {
                        if t1.children@.len() > 0 {
                            let k = t1.children@[0].0@;
                            lemma_find_child_at(t1.children@, 0);
                            assert(crate::keytree::node_at(t1, seq![k]) is Some);
                            match t1.children@[0].1 {
                                KeyNode::Leaf(_) => {
                                    assert(crate::keytree::is_leaf(crate::keytree::node_at(t1, seq![k])));
                                    assert(!has_key(t_before.children@, k));
                                },
                                KeyNode::Branch(_) => {
                                    assert(crate::keytree::is_branch(crate::keytree::node_at(t1, seq![k])));
                                    assert(!has_key(t_before.children@, k));
                                },
                            }
                        }
                    }
                },
            }
            assert(f == old_idx.files@[i as int]);
            assert(self.source_locale == old_idx.source_locale);
            let f2 = refreshed_file(f, es);
            let items = file_inserts(f2, es, layout_or_nested(old_idx.layout), old_idx.config);
            assert(self.files@ == old_idx.files@.update(i as int, f2));
            assert(self.layout == old_idx.layout);
            assert(self.config == old_idx.config);
            assert(forall|m: Seq<char>| m != f.locale@ ==> #[trigger] self.trees.tree(m) == old_idx.trees.tree(m));
            assert(layout == layout_or_nested(old_idx.layout));
            assert(inserted_seq(t1, items, t2));
            assert(tree_wf(t1));
            assert(match old_idx.trees.tree(f.locale@) {
                Some(t0) => pruned(t0, f.path@, t1),
                None => t1.children@.len() == 0,
            });
            assert(exists|t1: KeyTree| #![trigger inserted_seq(t1, items, t2)]
                tree_wf(t1) && inserted_seq(t1, items, t2)
                && match old_idx.trees.tree(f.locale@) {
                    Some(t0) => pruned(t0, f.path@, t1),
                    None => t1.children@.len() == 0,
                });
            assert(self.trees.tree(f.locale@) matches Some(tt) && tt == t2);
            assert(reindexed(old_idx, *self, i as int, es));
            assert(parse_result_for(content.spec_bytes(), content@, path@, Ok::<Vec<LocaleEntry>, ParseError>(entries)));
        }
        Ok(had_leaves || entries.len() > 0)
    }
}

// ---------- Building ----------

/// Why an index could not be built.
#[derive(Debug)]
pub enum IndexError {
    /// No locale file was found.
    NoLocalesFound,
    /// A locale directory could not be walked.
    Scan { path: String, message: String },
    /// A locale file does not parse.
    Parse(ParseError),
}

/// Extensions of locale data files.
pub open spec fn is_locale_extension(e: Seq<char>) -> bool {
    is_json_extension(e) || e == seq!['y', 'm', 'l'] || e == seq!['y', 'a', 'm', 'l']
}

pub open spec fn is_folder_char(c: char) -> bool {
    ('a' <= c <= 'z') || ('A' <= c <= 'Z') || ('0' <= c <= '9') || c == '-' || c == '_'
}

/// A BCP-47-like folder name (`fr`, `en-US`), not `locales` or `l10n`.
pub open spec fn locale_folder_name(name: Seq<char>) -> bool {
    &&& name.len() > 0
    &&& name != seq!['l', 'o', 'c', 'a', 'l', 'e', 's']
    &&& name != seq!['l', '1', '0', 'n']
    &&& forall|i: int| 0 <= i < name.len() ==> is_folder_char(#[trigger] name[i])
}

pub open spec fn has_prefix(s: Seq<char>, p: Seq<char>) -> bool {
    p.len() <= s.len() && s.take(p.len() as int) == p
}

/// The stem without an ARB-style `app_`, `intl_` or `messages_` prefix.
pub open spec fn stem_code(stem: Seq<char>) -> Seq<char> {
    let app = seq!['a', 'p', 'p', '_'];
    let intl = seq!['i', 'n', 't', 'l', '_'];
    let messages = seq!['m', 'e', 's', 's', 'a', 'g', 'e', 's', '_'];
    if has_prefix(stem, app) {
        stem.skip(4)
    } else if has_prefix(stem, intl) {
        stem.skip(5)
    } else if has_prefix(stem, messages) {
        stem.skip(9)
    } else {
        stem
    }
}

/// Law: a stem that starts with an ARB prefix (`app_`, `intl_`,
/// `messages_`) names the locale that follows the prefix; any other stem
/// names its own locale. So `extract_locale_from_stem("app_" + s)` is
/// `Locale::new(s)`.
pub proof fn lemma_arb_prefix_dropped(s: Seq<char>)
    ensures
        stem_code(seq!['a', 'p', 'p', '_'] + s) == s,
        stem_code(seq!['i', 'n', 't', 'l', '_'] + s) == s,
        stem_code(seq!['m', 'e', 's', 's', 'a', 'g', 'e', 's', '_'] + s) == s,
        !has_prefix(s, seq!['a', 'p', 'p', '_']) && !has_prefix(s, seq!['i', 'n', 't', 'l', '_'])
            && !has_prefix(s, seq!['m', 'e', 's', 's', 'a', 'g', 'e', 's', '_']) ==> stem_code(s) == s,
{
    let app = seq!['a', 'p', 'p', '_'];
    let intl = seq!['i', 'n', 't', 'l', '_'];
    let messages = seq!['m', 'e', 's', 's', 'a', 'g', 'e', 's', '_'];
    assert((app + s).take(4) =~= app);
    assert((app + s).skip(4) =~= s);
    assert((intl + s).take(5) =~= intl);
    assert((intl + s).skip(5) =~= s);
    assert(!has_prefix(intl + s, app)) by { assert((intl + s)[0] != app[0]); }
    assert((messages + s).take(9) =~= messages);
    assert((messages + s).skip(9) =~= s);
    assert(!has_prefix(messages + s, app)) by { assert((messages + s)[0] != app[0]); }
    assert(!has_prefix(messages + s, intl)) by { assert((messages + s)[0] != intl[0]); }
}

/// Locale and namespace of the file at `path`, found under the locale
/// directory `dir`: `None` for a file that is not locale data or names no
/// locale. A file directly in `dir` belongs to the locale named by `dir`
/// when that looks like a locale folder (one file per namespace), else to
/// the locale named by its stem (flat layout); a file in a subfolder belongs
/// to the locale named by that folder, with its stem as namespace.
pub open spec fn classify(dir: Seq<char>, path: Seq<char>) -> Option<(Seq<char>, Option<Seq<char>>)> {
    let st = stem_of(path);
    let par = parent_of(path);
    let seg = file_name_of(dir);
    let found: (Seq<char>, Option<Seq<char>>) = if par == dir {
        if locale_folder_name(seg) {
            (normalize_locale(seg), Some(st))
        } else {
            (normalize_locale(stem_code(st)), None)
        }
    } else {
        (normalize_locale(file_name_of(par)), Some(st))
    };
    match extension_of(path) {
        Some(e) => if is_locale_extension(e) && found.0.len() > 0 { Some(found) } else { None },
        None => None,
    }
}

pub(crate) fn is_locale_ext_str(e: &str) -> (r: bool)
    ensures
        r == is_locale_extension(e@),
{
    is_locale_ext(e)
}

fn is_locale_ext(e: &str) -> (r: bool)
    ensures
        r == is_locale_extension(e@),
{
    proof {
        reveal_strlit("yml");
        reveal_strlit("yaml");
        assert("yml"@ =~= seq!['y', 'm', 'l']);
        assert("yaml"@ =~= seq!['y', 'a', 'm', 'l']);
    }
    crate::parser::is_json_ext(e) || str_eq(e, "yml") || str_eq(e, "yaml")
}

/// True when `name` looks like a locale folder (`fr`, `en-US`), not `locales` or `src`.
pub fn looks_like_locale_folder_name(name: &str) -> (r: bool)
    ensures
        r == locale_folder_name(name@),
{
    proof {
        reveal_strlit("locales");
        reveal_strlit("l10n");
        assert("locales"@ =~= seq!['l', 'o', 'c', 'a', 'l', 'e', 's']);
        assert("l10n"@ =~= seq!['l', '1', '0', 'n']);
    }
    if name.unicode_len() == 0 || str_eq(name, "locales") || str_eq(name, "l10n") {
        return false;
    }
    let cs = chars_of(name);
    let mut i: usize = 0;
    while i < cs.len()
        invariant
            cs@ == name@,
            i <= cs@.len(),
            forall|j: int| 0 <= j < i ==> is_folder_char(#[trigger] cs@[j]),
        decreases cs@.len() - i,
    {
        let c = cs[i];
        if !(('a' <= c && c <= 'z') || ('A' <= c && c <= 'Z') || ('0' <= c && c <= '9') || c == '-' || c == '_') {
            return false;
        }
        i = i + 1;
    }
    true
}

fn starts_with_chars(cs: &Vec<char>, p: &str) -> (r: bool)
    ensures
        r == has_prefix(cs@, p@),
{
    let ps = chars_of(p);
    if ps.len() > cs.len() {
        return false;
    }
    let mut i: usize = 0;
    while i < ps.len()
        invariant
            ps@ == p@,
            ps@.len() <= cs@.len(),
            i <= ps@.len(),
            forall|j: int| 0 <= j < i ==> cs@[j] == ps@[j],
        decreases ps@.len() - i,
    {
        if cs[i] != ps[i] {
            assert(cs@.take(ps@.len() as int)[i as int] != ps@[i as int]);
            return false;
        }
        i = i + 1;
    }
    assert(cs@.take(ps@.len() as int) =~= ps@);
    true
}

/// The locale named by a file stem, without an ARB-style prefix (`app_en`, `intl_en_US`).
pub fn extract_locale_from_stem(stem: &str) -> (r: Locale)
    ensures
        r@ == normalize_locale(stem_code(stem@)),
{
    proof {
        reveal_strlit("app_");
        reveal_strlit("intl_");
        reveal_strlit("messages_");
        assert("app_"@ =~= seq!['a', 'p', 'p', '_']);
        assert("intl_"@ =~= seq!['i', 'n', 't', 'l', '_']);
        assert("messages_"@ =~= seq!['m', 'e', 's', 's', 'a', 'g', 'e', 's', '_']);
    }
    let cs = chars_of(stem);
    let from: usize = if starts_with_chars(&cs, "app_") {
        4
    } else if starts_with_chars(&cs, "intl_") {
        5
    } else if starts_with_chars(&cs, "messages_") {
        9
    } else {
        0
    };
    let rest = crate::text::string_from_chars(&cs, from, cs.len());
    assert(rest@ =~= stem_code(stem@));
    Locale::new(rest.as_str())
}

/// The locale file at `path` under the locale directory `dir`, if it is one.
pub fn classify_locale_file(dir: &str, path: &str) -> (r: Option<LocaleFile>)
    ensures
        match classify(dir@, path@) {
            None => r is None,
            Some(c) => r matches Some(f) && f.locale@ == c.0 && f.path@ == path@ && !f.inline_namespace_root
                && match c.1 {
                    Some(ns) => f.namespace matches Some(n) && n@ == ns,
                    None => f.namespace is None,
                },
        },
{
    let ext = match extension(path) {
        Some(e) => e,
        None => return None,
    };
    if !is_locale_ext(ext.as_str()) {
        return None;
    }
    let st = stem(path);
    let par = parent(path);
    let (locale, namespace) = if str_eq(par.as_str(), dir) {
        let seg = file_name(dir);
        if looks_like_locale_folder_name(seg.as_str()) {
            (Locale::new(seg.as_str()), Some(st))
        } else {
            (extract_locale_from_stem(st.as_str()), None)
        }
    } else {
        let name = file_name(par.as_str());
        (Locale::new(name.as_str()), Some(st))
    };
    if locale.is_empty() {
        return None;
    }
    Some(LocaleFile { locale, namespace, path: path.to_string(), inline_namespace_root: false })
}

/// Nested when some file has a namespace, else flat.
pub open spec fn layout_of(files: Seq<LocaleFile>) -> LocaleLayout {
    if exists|i: int| 0 <= i < files.len() && (#[trigger] files[i]).namespace is Some {
        LocaleLayout::Nested
    } else {
        LocaleLayout::Flat
    }
}

pub fn detect_layout(files: &Vec<LocaleFile>) -> (r: LocaleLayout)
    ensures
        r == layout_of(files@),
{
    let mut i: usize = 0;
    while i < files.len()
        invariant
            i <= files@.len(),
            forall|j: int| 0 <= j < i ==> (#[trigger] files@[j]).namespace is None,
        decreases files@.len() - i,
    {
        if files[i].namespace.is_some() {
            return LocaleLayout::Nested;
        }
        i = i + 1;
    }
    LocaleLayout::Flat
}

/// The configured source locale when it has a tree; else the first locale;
/// else the configured one.
pub open spec fn resolved_source(config: ProjectConfig, trees: LocaleTrees) -> Seq<char> {
    let pref = config.source_locale_code();
    if trees.tree(pref) is Some {
        pref
    } else if trees.entries@.len() > 0 {
        trees.entries@[0].0@
    } else {
        pref
    }
}

pub fn resolve_source_locale(config: &ProjectConfig, trees: &LocaleTrees) -> (r: Locale)
    requires
        trees.wf(),
    ensures
        r@ == resolved_source(*config, *trees),
{
    let preferred = config.resolved_source_locale();
    if trees.contains_key(&preferred) {
        return preferred;
    }
    if trees.entries.len() > 0 {
        return trees.entries[0].0.duplicate();
    }
    preferred
}

/// A file found under a locale directory, with its text.
#[derive(Debug)]
pub struct SourceFile {
    /// The locale directory it was found under.
    pub dir: String,
    /// Its path.
    pub path: String,
    /// Its content.
    pub content: String,
}

/// Indices of the sources that are locale files, in order.
pub open spec fn classified(sources: Seq<SourceFile>) -> Seq<int>
    decreases sources.len(),
{
    if sources.len() == 0 {
        Seq::empty()
    } else {
        let rest = classified(sources.drop_last());
        if classify(sources.last().dir@, sources.last().path@) is Some {
            rest.push(sources.len() - 1)
        } else {
            rest
        }
    }
}

/// The stores of the files of locale `l`, file after file.
pub open spec fn locale_items(files: Seq<LocaleFile>, parsed: Seq<Vec<LocaleEntry>>, l: Seq<char>, layout: LocaleLayout, config: ProjectConfig) -> Seq<(Seq<Seq<char>>, LocalizedValue)>
    decreases files.len(),
{
    if files.len() == 0 || parsed.len() != files.len() {
        Seq::empty()
    } else {
        let n = files.len() - 1;
        locale_items(files.drop_last(), parsed.drop_last(), l, layout, config)
            + if files[n].locale@ == l { file_inserts(files[n], parsed[n]@, layout, config) } else { Seq::empty() }
    }
}

/// `f` describes the locale file `src` as classified.
pub open spec fn file_classified(src: SourceFile, f: LocaleFile) -> bool {
    match classify(src.dir@, src.path@) {
        Some(c) => {
            &&& f.locale@ == c.0
            &&& f.path@ == src.path@
            &&& match c.1 {
                Some(ns) => f.namespace matches Some(n) && n@ == ns,
                None => f.namespace is None,
            }
        },
        None => false,
    }
}

/// `src` parses as `es`, and `f`'s inline-namespace flag is what `es` gives.
pub open spec fn file_parsed(src: SourceFile, f: LocaleFile, es: Vec<LocaleEntry>) -> bool {
    &&& parse_result_for(vstd::utf8::encode_utf8(src.content@), src.content@, src.path@, Ok::<Vec<LocaleEntry>, ParseError>(es))
    &&& f.inline_namespace_root == match f.namespace {
        Some(ns) => inline_root(es@, ns@),
        None => false,
    }
}

/// The locales with a tree are those of `files`.
pub open spec fn trees_cover(trees: LocaleTrees, files: Seq<LocaleFile>) -> bool {
    forall|l: Seq<char>| #[trigger] trees.tree(l) is Some <==> exists|k: int| 0 <= k < files.len() && (#[trigger] files[k]).locale@ == l
}

/// Each tree holds the stores of its locale's files, made in order into an empty tree.
pub open spec fn trees_store(trees: LocaleTrees, files: Seq<LocaleFile>, parsed: Seq<Vec<LocaleEntry>>, layout: LocaleLayout, config: ProjectConfig) -> bool {
    forall|l: Seq<char>| #[trigger] trees.tree(l) is Some ==> exists|t0: KeyTree|
        t0.children@.len() == 0 && #[trigger] inserted_seq(t0, locale_items(files, parsed, l, layout, config), trees.tree(l)->0)
}

/// `idx` is the index of the locale files `sources[classified(sources)[j]]`, parsed as `parsed[j]`.
pub open spec fn built_from(sources: Seq<SourceFile>, config: ProjectConfig, parsed: Seq<Vec<LocaleEntry>>, idx: LocaleIndex) -> bool {
    let cl = classified(sources);
    let files = idx.files@;
    &&& parsed.len() == cl.len()
    &&& files.len() == cl.len()
    &&& forall|j: int| 0 <= j < cl.len() ==> file_classified(#[trigger] sources[cl[j]], files[j])
    &&& forall|j: int| 0 <= j < cl.len() ==> file_parsed(#[trigger] sources[cl[j]], files[j], parsed[j])
    &&& idx.layout == Some(layout_of(files))
    &&& idx.config.same_as(config)
    &&& idx.trees.wf()
    &&& trees_cover(idx.trees, files)
    &&& trees_store(idx.trees, files, parsed, layout_of(files), config)
    &&& idx.source_locale@ == resolved_source(config, idx.trees)
}

/// Stores of files none of which is of locale `l`: none.
proof fn lemma_locale_items_absent(files: Seq<LocaleFile>, parsed: Seq<Vec<LocaleEntry>>, l: Seq<char>, layout: LocaleLayout, config: ProjectConfig)
    requires
        forall|k: int| 0 <= k < files.len() ==> (#[trigger] files[k]).locale@ != l,
    ensures
        locale_items(files, parsed, l, layout, config) == Seq::<(Seq<Seq<char>>, LocalizedValue)>::empty(),
    decreases files.len(),
{
    if files.len() > 0 && parsed.len() == files.len() {
        let n = files.len() - 1;
        assert forall|k: int| 0 <= k < files.drop_last().len() implies (#[trigger] files.drop_last()[k]).locale@ != l by {
            assert(files.drop_last()[k] == files[k]);
        }
        lemma_locale_items_absent(files.drop_last(), parsed.drop_last(), l, layout, config);
        assert(files[n].locale@ != l);
        assert(Seq::<(Seq<Seq<char>>, LocalizedValue)>::empty() + Seq::<(Seq<Seq<char>>, LocalizedValue)>::empty()
            =~= Seq::<(Seq<Seq<char>>, LocalizedValue)>::empty());
    }
}

/// One more file: its locale's tree now also holds its stores.
proof fn lemma_build_step(
    old_trees: LocaleTrees,
    trees: LocaleTrees,
    files: Seq<LocaleFile>,
    parsed: Seq<Vec<LocaleEntry>>,
    f: LocaleFile,
    es: Vec<LocaleEntry>,
    t_prev: KeyTree,
    t_new: KeyTree,
    layout: LocaleLayout,
    config: ProjectConfig,
)
    requires
        parsed.len() == files.len(),
        trees_cover(old_trees, files),
        trees_store(old_trees, files, parsed, layout, config),
        match old_trees.tree(f.locale@) {
            Some(t) => t_prev == t,
            None => t_prev.children@.len() == 0,
        },
        inserted_seq(t_prev, file_inserts(f, es@, layout, config), t_new),
        trees.tree(f.locale@) == Some(t_new),
        forall|m: Seq<char>| m != f.locale@ ==> #[trigger] trees.tree(m) == old_trees.tree(m),
    ensures
        trees_cover(trees, files.push(f)),
        trees_store(trees, files.push(f), parsed.push(es), layout, config),
{
    let files2 = files.push(f);
    let parsed2 = parsed.push(es);
    let lj = f.locale@;
    let items = file_inserts(f, es@, layout, config);
    assert forall|l: Seq<char>| #[trigger] trees.tree(l) is Some <==> exists|k: int| 0 <= k < files2.len() && (#[trigger] files2[k]).locale@ == l by {
        if l == lj {
            assert(files2[files.len() as int].locale@ == l);
        } else {
            if exists|k: int| 0 <= k < files2.len() && (#[trigger] files2[k]).locale@ == l {
                let k = choose|k: int| 0 <= k < files2.len() && (#[trigger] files2[k]).locale@ == l;
                assert(files2[k] == files[k]);
            }
            if exists|k: int| 0 <= k < files.len() && (#[trigger] files[k]).locale@ == l {
                let k = choose|k: int| 0 <= k < files.len() && (#[trigger] files[k]).locale@ == l;
                assert(files2[k] == files[k]);
            }
        }
    }
    assert forall|l: Seq<char>| #[trigger] trees.tree(l) is Some implies exists|t0: KeyTree|
        t0.children@.len() == 0 && #[trigger] inserted_seq(t0, locale_items(files2, parsed2, l, layout, config), trees.tree(l)->0) by {
        assert(files2.drop_last() =~= files);
        assert(parsed2.drop_last() =~= parsed);
        assert(files2[files.len() as int] == f);
        assert(parsed2[files.len() as int] == es);
        let prev = locale_items(files, parsed, l, layout, config);
        assert(locale_items(files2, parsed2, l, layout, config)
            == prev + if lj == l { items } else { Seq::<(Seq<Seq<char>>, LocalizedValue)>::empty() });
        if l == lj {
            match old_trees.tree(l) {
                Some(t1) => {
                    let t0 = choose|t0: KeyTree| t0.children@.len() == 0 && #[trigger] inserted_seq(t0, prev, t1);
                    lemma_inserted_seq_concat(t0, prev, t_prev, items, t_new);
                    assert(trees.tree(l)->0 == t_new);
                    assert(inserted_seq(t0, locale_items(files2, parsed2, l, layout, config), trees.tree(l)->0));
                },
                None => {
                    assert forall|k: int| 0 <= k < files.len() implies (#[trigger] files[k]).locale@ != l by {
                        if files[k].locale@ == l {
                            assert(exists|k2: int| 0 <= k2 < files.len() && (#[trigger] files[k2]).locale@ == l);
                        }
                    }
                    lemma_locale_items_absent(files, parsed, l, layout, config);
                    assert(prev + items =~= items);
                    assert(trees.tree(l)->0 == t_new);
                    assert(inserted_seq(t_prev, locale_items(files2, parsed2, l, layout, config), trees.tree(l)->0));
                },
            }
        } else {
            assert(prev + Seq::<(Seq<Seq<char>>, LocalizedValue)>::empty() =~= prev);
            assert(trees.tree(l) == old_trees.tree(l));
            let t1 = old_trees.tree(l)->0;
            assert(old_trees.tree(l) is Some);
            let t0 = choose|t0: KeyTree| t0.children@.len() == 0 && #[trigger] inserted_seq(t0, prev, t1);
            assert(locale_items(files2, parsed2, l, layout, config) == prev);
            assert(inserted_seq(t0, locale_items(files2, parsed2, l, layout, config), trees.tree(l)->0));
        }
    }
}

/// The locale files among `sources`, with the index of the source of each.
fn discover_files(sources: &Vec<SourceFile>) -> (r: (Vec<LocaleFile>, Vec<usize>))
    ensures
        r.1@.len() == r.0@.len(),
        r.1@.len() == classified(sources@).len(),
        forall|j: int| 0 <= j < r.1@.len() ==> r.1@[j] as int == #[trigger] classified(sources@)[j],
        forall|j: int| 0 <= j < r.1@.len() ==> r.1@[j] < sources@.len(),
        forall|j: int| 0 <= j < r.0@.len() ==> file_classified(sources@[r.1@[j] as int], #[trigger] r.0@[j]),
        forall|j: int| 0 <= j < r.0@.len() ==> !(#[trigger] r.0@[j]).inline_namespace_root,
{
    let ghost ss = sources@;
    let mut files: Vec<LocaleFile> = Vec::new();
    let mut origin: Vec<usize> = Vec::new();
    let mut i: usize = 0;
    while i < sources.len()
        invariant
            ss == sources@,
            i <= ss.len(),
            origin@.len() == files@.len(),
            origin@.len() == classified(ss.take(i as int)).len(),
            forall|j: int| 0 <= j < origin@.len() ==> origin@[j] as int == #[trigger] classified(ss.take(i as int))[j],
            forall|j: int| 0 <= j < origin@.len() ==> origin@[j] < i,
            forall|j: int| 0 <= j < files@.len() ==> file_classified(ss[origin@[j] as int], #[trigger] files@[j]),
            forall|j: int| 0 <= j < files@.len() ==> !(#[trigger] files@[j]).inline_namespace_root,
        decreases ss.len() - i,
    {
        assert(ss.take(i + 1).drop_last() =~= ss.take(i as int));
        assert(ss.take(i + 1).last() == ss[i as int]);
        let src = &sources[i];
        match classify_locale_file(src.dir.as_str(), src.path.as_str()) {
            Some(f) => {
                files.push(f);
                origin.push(i);
            },
            None => {},
        }
        i = i + 1;
    }
    assert(ss.take(ss.len() as int) =~= ss);
    (files, origin)
}

/// Builds the index of a workspace from its locale files.
pub struct IndexBuilder<'a> {
    pub workspace_root: &'a str,
    pub config: &'a ProjectConfig,
}

impl<'a> IndexBuilder<'a> {
    pub fn new(workspace_root: &'a str, config: &'a ProjectConfig) -> (r: Self)
        ensures
            r.workspace_root == workspace_root,
            r.config == config,
    {
        IndexBuilder { workspace_root, config }
    }

    /// The index of the locale files among `sources`: `NoLocalesFound` when
    /// there is none, the first parse error when one does not parse.
    pub fn build(&self, sources: &Vec<SourceFile>) -> (r: Result<LocaleIndex, IndexError>)
        requires
            forall|i: int| 0 <= i < sources@.len() ==> 2 * vstd::utf8::encode_utf8((#[trigger] sources@[i]).content@).len() <= u32::MAX,
        ensures
            (classified(sources@).len() == 0) <==> (r matches Err(IndexError::NoLocalesFound)),
            !(r matches Err(IndexError::Scan { .. })),
            r matches Ok(idx) ==> exists|parsed: Seq<Vec<LocaleEntry>>| #[trigger] built_from(sources@, *self.config, parsed, idx),
            r matches Err(IndexError::Parse(e)) ==> exists|j: int| 0 <= j < classified(sources@).len()
                && #[trigger] parse_result_for(vstd::utf8::encode_utf8(sources@[classified(sources@)[j]].content@),
                    sources@[classified(sources@)[j]].content@, sources@[classified(sources@)[j]].path@,
                    Err::<Vec<LocaleEntry>, ParseError>(e)),
    {
        let ghost ss = sources@;
        let ghost cl = classified(ss);
        let (found, origin) = discover_files(sources);
        if found.len() == 0 {
            return Err(IndexError::NoLocalesFound);
        }
        let layout = detect_layout(&found);
        let ghost files0 = found@;
        let mut files: Vec<LocaleFile> = Vec::new();
        let mut trees = LocaleTrees::new();
        let ghost mut parsed: Seq<Vec<LocaleEntry>> = Seq::empty();
        let mut j: usize = 0;
        while j < found.len()
            invariant
                ss == sources@,
                cl == classified(ss),
                forall|k: int| 0 <= k < ss.len() ==> 2 * vstd::utf8::encode_utf8((#[trigger] ss[k]).content@).len() <= u32::MAX,
                found@ == files0,
                origin@.len() == files0.len(),
                cl.len() == files0.len(),
                forall|k: int| 0 <= k < origin@.len() ==> origin@[k] as int == #[trigger] cl[k],
                forall|k: int| 0 <= k < origin@.len() ==> origin@[k] < ss.len(),
                forall|k: int| 0 <= k < files0.len() ==> file_classified(ss[origin@[k] as int], #[trigger] files0[k]),
                layout == layout_of(files0),
                j <= files0.len(),
                files@.len() == j,
                parsed.len() == j,
                forall|k: int| 0 <= k < j ==> (#[trigger] files@[k]).locale == files0[k].locale
                    && files@[k].namespace == files0[k].namespace && files@[k].path == files0[k].path,
                forall|k: int| 0 <= k < j ==> file_parsed(ss[cl[k]], #[trigger] files@[k], parsed[k]),
                trees.wf(),
                trees_cover(trees, files@),
                trees_store(trees, files@, parsed, layout, *self.config),
            decreases files0.len() - j,
        {
            let src = &sources[origin[j]];
            let pr = parse_with_extension(src.content.as_str(), src.path.as_str());
            let ghost pr_g = pr;
            let entries = match pr {
                Ok(es) => es,
                Err(e) => {
                    assert(*src == ss[cl[j as int]]);
                    assert(parse_result_for(vstd::utf8::encode_utf8(ss[cl[j as int]].content@), ss[cl[j as int]].content@,
                        ss[cl[j as int]].path@, Err::<Vec<LocaleEntry>, ParseError>(e)));
                    return Err(IndexError::Parse(e));
                },
            };
            let mut file = found[j].duplicate();
            if let Some(ns) = &file.namespace {
                file.inline_namespace_root = entries_use_inline_namespace_root(&entries, ns.as_str());
            } else {
                file.inline_namespace_root = false;
            }
            let locale = file.locale.duplicate();
            let ghost old_trees = trees;
            let mut tree = trees.take(&locale);
            let ghost t_prev = tree;
            insert_entries(&mut tree, &file, &entries, layout, self.config);
            let ghost t_new = tree;
            trees.insert(locale, tree);
            proof {
                lemma_build_step(old_trees, trees, files@, parsed, file, entries, t_prev, t_new, layout, *self.config);
                assert(*src == ss[cl[j as int]]);
                assert(pr_g == Ok::<Vec<LocaleEntry>, ParseError>(entries));
                assert(file_parsed(ss[cl[j as int]], file, entries));
            }
            let ghost files_before = files@;
            files.push(file);
            proof {
                assert forall|k: int| 0 <= k < j + 1 implies file_parsed(ss[cl[k]], #[trigger] files@[k], parsed.push(entries)[k]) by {
                    if k < j {
                        assert(files@[k] == files_before[k]);
                    }
                }
                parsed = parsed.push(entries);
            }
            j = j + 1;
        }
        let source_locale = resolve_source_locale(self.config, &trees);
        let idx = LocaleIndex {
            trees,
            files,
            layout: Some(layout),
            source_locale,
            config: self.config.duplicate(),
        };
        proof {
            assert(layout_of(idx.files@) == layout_of(files0)) by {
                if exists|k: int| 0 <= k < files0.len() && (#[trigger] files0[k]).namespace is Some {
                    let k = choose|k: int| 0 <= k < files0.len() && (#[trigger] files0[k]).namespace is Some;
                    assert(idx.files@[k].namespace is Some);
                }
                if exists|k: int| 0 <= k < idx.files@.len() && (#[trigger] idx.files@[k]).namespace is Some {
                    let k = choose|k: int| 0 <= k < idx.files@.len() && (#[trigger] idx.files@[k]).namespace is Some;
                    assert(files0[k].namespace is Some);
                }
            }
            assert forall|k: int| 0 <= k < cl.len() implies file_classified(#[trigger] ss[cl[k]], idx.files@[k]) by {
                assert(file_classified(ss[origin@[k] as int], files0[k]));
            }
            assert(built_from(ss, *self.config, parsed, idx));
        }
        Ok(idx)
    }
}


/// Some group of `r` is for file `f`.
pub open spec fn group_listed<'a>(r: Seq<(String, Vec<(String, &'a LocalizedValue)>)>, f: Seq<char>) -> bool {
    exists|a: int| 0 <= a < r.len() && (#[trigger] r[a]).0@ == f
}

/// Some leaf of the trees `es` comes from file `f`.
pub open spec fn file_has_leaves(es: Seq<(Locale, KeyTree)>, f: Seq<char>) -> bool {
    exists|i: int| 0 <= i < entries_of_trees(es, None).len() && (#[trigger] entries_of_trees(es, None)[i]).1.file@ == f
}

/// Law: the entries of one file (what `entries_for_file` gives) are the
/// entries of every file that come from it, in the same order; they are
/// empty exactly when no leaf comes from the file, that is when
/// `entries_by_file` does not list it.
pub proof fn lemma_file_entries_are_filtered(es: Seq<(Locale, KeyTree)>, f: Seq<char>)
    ensures
        entries_of_trees(es, Some(f)) == entries_of_trees(es, None).filter(|e: (Seq<char>, LocalizedValue)| e.1.file@ == f),
        entries_of_trees(es, Some(f)).len() > 0 <==> file_has_leaves(es, f),
    decreases es.len(),
{
    let q = |e: (Seq<char>, LocalizedValue)| e.1.file@ == f;
    let p = |e: (Seq<Seq<char>>, LocalizedValue)| e.1.file@ == f;
    let all = entries_of_trees(es, None);
    if es.len() == 0 {
        reveal(Seq::filter);
        assert(all.filter(q) =~= Seq::<(Seq<char>, LocalizedValue)>::empty());
    } else {
        lemma_file_entries_are_filtered(es.drop_last(), f);
        let t = es.last().1;
        crate::keytree::lemma_file_entries_from_filter(t, 0, f);
        let g = |e: (Seq<Seq<char>>, LocalizedValue)| (join_spec(Seq::<Seq<char>>::empty() + e.0, '.'), e.1);
        crate::keytree::lemma_filter_map_commute(file_entries(t, None), g, p, q);
        assert(dotted_entries(Seq::<Seq<char>>::empty(), file_entries(t, Some(f)))
            == dotted_entries(Seq::<Seq<char>>::empty(), file_entries(t, None)).filter(q));
        Seq::filter_distributes_over_add(entries_of_trees(es.drop_last(), None),
            dotted_entries(Seq::<Seq<char>>::empty(), file_entries(t, None)), q);
    }
    let fl = all.filter(q);
    assert(entries_of_trees(es, Some(f)) == fl);
    if fl.len() > 0 {
        all.lemma_filter_pred(q, 0);
        assert(fl.contains(fl[0]));
        all.lemma_filter_contains_rev(q, fl[0]);
        let i = choose|i: int| 0 <= i < all.len() && all[i] == fl[0];
        assert(all[i].1.file@ == f);
    }
    if file_has_leaves(es, f) {
        let i = choose|i: int| 0 <= i < all.len() && (#[trigger] all[i]).1.file@ == f;
        all.lemma_filter_contains(q, i);
    }
}

pub open spec fn file_in(files: Seq<String>, f: Seq<char>) -> bool {
    exists|a: int| 0 <= a < files.len() && (#[trigger] files[a])@ == f
}

pub open spec fn leaf_file_before(av: Seq<(Seq<char>, LocalizedValue)>, i: int, f: Seq<char>) -> bool {
    exists|k: int| 0 <= k < i && (#[trigger] av[k]).1.file@ == f
}

/// Files of `files` in order of first appearance, each once.
pub open spec fn distinct_views(v: Seq<String>) -> bool {
    forall|a: int, b: int| 0 <= a < b < v.len() ==> (#[trigger] v[a])@ != (#[trigger] v[b])@
}

impl LocaleIndex {
    /// The keys of [`Self::all_keys`] that no source file in `usages` uses.
    pub fn unused_keys(&self, usages: &UsageIndex) -> (r: Vec<String>)
        requires
            usages.wf(),
        ensures
            strictly_sorted(views(r@)),
            forall|x: Seq<char>| #[trigger] views(r@).contains(x) <==> (keys_of_trees(self.trees.entries@).contains(x)
                && !exists|p: Seq<char>| #[trigger] usages.view().contains_key(p) && usages.view()[p].contains(x)),
    {
        let keys = self.all_keys();
        let ghost ks = views(keys@);
        let mut out: Vec<String> = Vec::new();
        let mut i: usize = 0;
        while i < keys.len()
            invariant
                usages.wf(),
                ks == views(keys@),
                strictly_sorted(ks),
                forall|x: Seq<char>| #[trigger] ks.contains(x) <==> keys_of_trees(self.trees.entries@).contains(x),
                i <= ks.len(),
                strictly_sorted(views(out@)),
                forall|a: int, j: int| 0 <= a < out@.len() && i <= j < ks.len() ==> str_lt(#[trigger] views(out@)[a], #[trigger] ks[j]),
                forall|x: Seq<char>| #[trigger] views(out@).contains(x) <==> (ks.take(i as int).contains(x)
                    && !exists|p: Seq<char>| #[trigger] usages.view().contains_key(p) && usages.view()[p].contains(x)),
            decreases ks.len() - i,
        {
            let used = usages.is_key_used(keys[i].as_str());
            let ghost o = views(out@);
            proof {
                assert(ks.take(i + 1) =~= ks.take(i as int).push(ks[i as int]));
                lemma_contains_push(ks.take(i as int), ks[i as int]);
            }
            if !used {
                out.push(keys[i].clone());
                proof {
                    assert(views(out@) =~= o.push(ks[i as int]));
                    lemma_contains_push(o, ks[i as int]);
                    assert forall|a: int, b: int| 0 <= a < b < views(out@).len() implies str_lt(#[trigger] views(out@)[a], #[trigger] views(out@)[b]) by {
                        if b == o.len() {
                            assert(str_lt(o[a], ks[i as int]));
                        } else {
                            assert(str_lt(o[a], o[b]));
                        }
                    }
                    assert forall|a: int, j: int| 0 <= a < views(out@).len() && i + 1 <= j < ks.len() implies str_lt(#[trigger] views(out@)[a], #[trigger] ks[j]) by {
                        if a == o.len() {
                            assert(str_lt(ks[i as int], ks[j]));
                        } else {
                            assert(str_lt(o[a], ks[j]));
                        }
                    }
                }
            } else {
                proof {
                    assert forall|a: int, j: int| 0 <= a < views(out@).len() && i + 1 <= j < ks.len() implies str_lt(#[trigger] views(out@)[a], #[trigger] ks[j]) by {
                        assert(str_lt(o[a], ks[j]));
                    }
                }
            }
            i = i + 1;
        }
        assert(ks.take(ks.len() as int) =~= ks);
        out
    }

    /// Every leaf grouped by its file: each file once, in order of first
    /// appearance, with its `(dotted key, value)` pairs in traversal order.
    pub fn entries_by_file(&self) -> (r: Vec<(String, Vec<(String, &LocalizedValue)>)>)
        ensures
            forall|a: int, b: int| 0 <= a < b < r@.len() ==> (#[trigger] r@[a]).0@ != (#[trigger] r@[b]).0@,
            forall|a: int| 0 <= a < r@.len() ==> entry_views((#[trigger] r@[a]).1@) == entries_of_trees(self.trees.entries@, Some(r@[a].0@)),
            forall|f: Seq<char>| #![trigger group_listed(r@, f)] #![trigger file_has_leaves(self.trees.entries@, f)]
                group_listed(r@, f) <==> file_has_leaves(self.trees.entries@, f),
    {
        let all = self.collect_entries(None);
        let ghost av = entries_of_trees(self.trees.entries@, None);
        assert(entry_views(all@) == av);
        let mut files: Vec<String> = Vec::new();
        let mut i: usize = 0;
        while i < all.len()
            invariant
                entry_views(all@) == av,
                i <= av.len(),
                distinct_views(files@),
                forall|f: Seq<char>| #![trigger file_in(files@, f)] #![trigger leaf_file_before(av, i as int, f)]
                    file_in(files@, f) <==> leaf_file_before(av, i as int, f),
            decreases av.len() - i,
        {
            let file = &all[i].1.file;
            assert(av[i as int].1.file@ == file@);
            let mut k: usize = 0;
            let mut seen: bool = false;
            while k < files.len() && !seen
                invariant
                    k <= files@.len(),
                    seen ==> k < files@.len() && files@[k as int]@ == file@,
                    forall|j: int| 0 <= j < k ==> files@[j]@ != file@,
                decreases files@.len() - k, if seen { 0int } else { 1int },
            {
                if str_eq(files[k].as_str(), file.as_str()) {
                    seen = true;
                } else {
                    k = k + 1;
                }
            }
            let ghost fb = files@;
            if !seen {
                files.push(file.clone());
                proof {
                    assert forall|a: int, b: int| 0 <= a < b < files@.len() implies (#[trigger] files@[a])@ != (#[trigger] files@[b])@ by {
                        if b == fb.len() {
                            assert(files@[a] == fb[a]);
                        } else {
                            assert(files@[a] == fb[a] && files@[b] == fb[b]);
                        }
                    }
                }
            }
            proof {
                assert forall|f: Seq<char>| file_in(files@, f) <==> leaf_file_before(av, i + 1, f) by {
                    if file_in(files@, f) {
                        let a = choose|a: int| 0 <= a < files@.len() && (#[trigger] files@[a])@ == f;
                        if a < fb.len() {
                            assert(files@[a] == fb[a]);
                            assert(file_in(fb, f));
                            let k2 = choose|k2: int| 0 <= k2 < i && (#[trigger] av[k2]).1.file@ == f;
                            assert(leaf_file_before(av, i + 1, f));
                        } else {
                            assert(av[i as int].1.file@ == f);
                            assert(leaf_file_before(av, i + 1, f));
                        }
                    }
                    if leaf_file_before(av, i + 1, f) {
                        let k2 = choose|k2: int| 0 <= k2 < i + 1 && (#[trigger] av[k2]).1.file@ == f;
                        if k2 < i {
                            assert(leaf_file_before(av, i as int, f));
                            assert(file_in(fb, f));
                            let a = choose|a: int| 0 <= a < fb.len() && (#[trigger] fb[a])@ == f;
                            assert(files@[a] == fb[a]);
                        } else if seen {
                            assert(files@[k as int]@ == f);
                        } else {
                            assert(files@[fb.len() as int]@ == f);
                        }
                    }
                }
            }
            i = i + 1;
        }
        let mut out: Vec<(String, Vec<(String, &LocalizedValue)>)> = Vec::new();
        let mut j: usize = 0;
        while j < files.len()
            invariant
                j <= files@.len(),
                out@.len() == j,
                forall|a: int| 0 <= a < j ==> (#[trigger] out@[a]).0@ == files@[a]@,
                forall|a: int| 0 <= a < j ==> entry_views((#[trigger] out@[a]).1@) == entries_of_trees(self.trees.entries@, Some(out@[a].0@)),
            decreases files@.len() - j,
        {
            let group = self.entries_for_file(files[j].as_str());
            out.push((files[j].clone(), group));
            j = j + 1;
        }
        proof {
            assert(av.take(av.len() as int) =~= av);
            assert forall|a: int, b: int| 0 <= a < b < out@.len() implies (#[trigger] out@[a]).0@ != (#[trigger] out@[b]).0@ by {
                assert(out@[a].0@ == files@[a]@ && out@[b].0@ == files@[b]@);
            }
            assert forall|f: Seq<char>| group_listed(out@, f) <==> file_has_leaves(self.trees.entries@, f) by {
                if group_listed(out@, f) {
                    let a = choose|a: int| 0 <= a < out@.len() && (#[trigger] out@[a]).0@ == f;
                    assert(files@[a]@ == f);
                    assert(file_in(files@, f));
                    assert(leaf_file_before(av, av.len() as int, f));
                    let k = choose|k: int| 0 <= k < av.len() && (#[trigger] av[k]).1.file@ == f;
                }
                if file_has_leaves(self.trees.entries@, f) {
                    let k = choose|k: int| 0 <= k < av.len() && (#[trigger] av[k]).1.file@ == f;
                    assert(leaf_file_before(av, av.len() as int, f));
                    assert(file_in(files@, f));
                    let a = choose|a: int| 0 <= a < files@.len() && (#[trigger] files@[a])@ == f;
                    assert(out@[a].0@ == f);
                }
            }
        }
        out
    }
}
// ---------- Laws ----------

/// Law: the dotted key of a leaf finds it. Looking up the `.`-join of a
/// non-empty path whose segments hold no `.` gives, for each locale, the
/// leaf of that locale's tree at the path.
pub proof fn lemma_lookup_dotted_key(es: Seq<(Locale, KeyTree)>, p: Seq<Seq<char>>, l: Seq<char>)
    requires
        keys_sorted(es),
        p.len() >= 1,
        forall|i: int| 0 <= i < p.len() ==> !(#[trigger] p[i]).contains('.'),
    ensures
        find_child(lookup_spec(es, split_spec(join_spec(p, '.'), '.')), l) == match find_child(es, l) {
            Some(t) => leaf_at(t, p),
            None => None,
        },
{
    crate::text::lemma_split_join(p, '.');
    lemma_lookup_spec_find(es, p, l);
}

/// Law: the key an entry of `file` is indexed under leads back to the
/// entry's path. Splitting the composed key of a non-empty path (segments
/// and namespace without `.`) inside `file` gives the path again.
pub proof fn lemma_key_path_round_trip(file: LocaleFile, p: Seq<Seq<char>>, layout: LocaleLayout, config: ProjectConfig)
    requires
        p.len() >= 1,
        forall|i: int| 0 <= i < p.len() ==> !(#[trigger] p[i]).contains('.'),
        file.namespace matches Some(ns) ==> !ns@.contains('.'),
    ensures
        key_path_in_file_spec(join_spec(namespaced_path(file, p, layout, config), '.'), file, layout, config) == p,
{
    let full = namespaced_path(file, p, layout, config);
    if file.spec_should_prepend_filename_namespace(&config, layout) && file.namespace is Some {
        let ns = file.namespace->0@;
        assert(full == seq![ns] + p);
        assert forall|i: int| 0 <= i < full.len() implies !(#[trigger] full[i]).contains('.') by {
            if i > 0 {
                assert(full[i] == p[i - 1]);
            }
        }
        crate::text::lemma_split_join(full, '.');
        assert(full[0] == ns);
        assert(full.drop_first() =~= p);
    } else {
        crate::text::lemma_split_join(p, '.');
    }
}

/// Law: when no key of the source tree holds a `.`, the keys that
/// [`LocaleIndex::missing_keys`] lists for `locale` hold none twice.
pub proof fn lemma_missing_keys_distinct(idx: LocaleIndex, locale: Seq<char>)
    requires
        idx.trees.wf(),
        idx.trees.tree(idx.source_locale@) matches Some(src) ==> crate::keytree::keys_plain_from(src, 0),
    ensures
        idx.trees.tree(idx.source_locale@) matches Some(src)
            ==> dotted(Seq::<Seq<char>>::empty(), diff_from(src, idx.trees.tree(locale), 0)).no_duplicates(),
{
    if let Some(src) = idx.trees.tree(idx.source_locale@) {
        let j = choose|j: int| 0 <= j < idx.trees.entries@.len() && (#[trigger] idx.trees.entries@[j]).0@ == idx.source_locale@;
        lemma_find_child_at(idx.trees.entries@, j);
        assert(tree_wf(idx.trees.entries@[j].1));
        crate::keytree::lemma_diff_sound(src, idx.trees.tree(locale), 0);
        crate::keytree::lemma_diff_plain(src, idx.trees.tree(locale));
        crate::keytree::lemma_dotted_distinct(diff_from(src, idx.trees.tree(locale), 0));
    }
}

/// Law: the paths behind [`LocaleIndex::missing_keys`] for `locale`: none
/// twice; each a path of the source tree on which exactly one of the source
/// and the locale's tree has a leaf (so a source leaf that the locale also
/// has is never listed); and every source leaf that the locale lacks is
/// listed, itself or through a prefix where the locale holds a leaf.
pub proof fn lemma_missing_paths_exact(idx: LocaleIndex, locale: Seq<char>)
    requires
        idx.trees.wf(),
    ensures
        match idx.trees.tree(idx.source_locale@) {
            Some(src) => {
                let d = diff_from(src, idx.trees.tree(locale), 0);
                &&& d.no_duplicates()
                &&& forall|j: int| 0 <= j < d.len() ==> crate::keytree::disagrees_at(src, idx.trees.tree(locale), 0, #[trigger] d[j])
                &&& forall|j: int| 0 <= j < leaf_paths(src).len()
                    && !is_leaf(crate::keytree::target_node(idx.trees.tree(locale), #[trigger] leaf_paths(src)[j]))
                    ==> crate::keytree::listed_prefix(d, leaf_paths(src)[j])
            },
            None => true,
        },
{
    match idx.trees.tree(idx.source_locale@) {
        Some(src) => {
            let j = choose|j: int| 0 <= j < idx.trees.entries@.len() && (#[trigger] idx.trees.entries@[j]).0@ == idx.source_locale@;
            lemma_find_child_at(idx.trees.entries@, j);
            assert(tree_wf(idx.trees.entries@[j].1));
            crate::keytree::lemma_diff_sound(src, idx.trees.tree(locale), 0);
            crate::keytree::lemma_diff_complete(src, idx.trees.tree(locale), 0);
        },
        None => {},
    }
}

/// Law: the source locale misses nothing; its own missing keys are none.
pub proof fn lemma_source_misses_nothing(idx: LocaleIndex)
    requires
        idx.trees.wf(),
    ensures
        match idx.trees.tree(idx.source_locale@) {
            Some(src) => dotted(Seq::<Seq<char>>::empty(), diff_from(src, idx.trees.tree(idx.source_locale@), 0)).len() == 0,
            None => true,
        },
{
    match idx.trees.tree(idx.source_locale@) {
        Some(src) => {
            let j = choose|j: int| 0 <= j < idx.trees.entries@.len() && (#[trigger] idx.trees.entries@[j]).0@ == idx.source_locale@;
            lemma_find_child_at(idx.trees.entries@, j);
            assert(tree_wf(idx.trees.entries@[j].1));
            crate::keytree::lemma_diff_with_itself(src);
        },
        None => {},
    }
}

/// Law: self-wrapped files are never double-prefixed. In an index built
/// from `sources`, every entry of a file whose keys all sit under a
/// top-level property named after its namespace is indexed under its own
/// key path, whatever the configuration says of file namespaces.
pub proof fn lemma_self_wrapped_not_prefixed(sources: Seq<SourceFile>, config: ProjectConfig, parsed: Seq<Vec<LocaleEntry>>, idx: LocaleIndex, j: int, e: int)
    requires
        built_from(sources, config, parsed, idx),
        0 <= j < idx.files@.len(),
        idx.files@[j].namespace matches Some(ns) && inline_root(parsed[j]@, ns@),
        0 <= e < parsed[j]@.len(),
    ensures
        namespaced_path(idx.files@[j], views(parsed[j]@[e].key_path@), layout_of(idx.files@), config)
            == views(parsed[j]@[e].key_path@),
{
    let cl = classified(sources);
    assert(file_parsed(sources[cl[j]], idx.files@[j], parsed[j]));
}

/// Law: in a built index, the keys of a namespaced file (`en/common.json`)
/// are indexed under its namespace (`common.*`) unless its entries already
/// sit under a top-level property of that name or the configuration turns
/// namespaces off.
pub proof fn lemma_namespace_prefixed(sources: Seq<SourceFile>, config: ProjectConfig, parsed: Seq<Vec<LocaleEntry>>, idx: LocaleIndex, j: int, e: int)
    requires
        built_from(sources, config, parsed, idx),
        0 <= j < idx.files@.len(),
        idx.files@[j].namespace matches Some(ns) && !inline_root(parsed[j]@, ns@),
        config.spec_use_file_namespace(),
        0 <= e < parsed[j]@.len(),
    ensures
        namespaced_path(idx.files@[j], views(parsed[j]@[e].key_path@), layout_of(idx.files@), config)
            == seq![idx.files@[j].namespace->0@] + views(parsed[j]@[e].key_path@),
{
    let cl = classified(sources);
    assert(file_parsed(sources[cl[j]], idx.files@[j], parsed[j]));
    assert(layout_of(idx.files@) == LocaleLayout::Nested) by {
        assert(idx.files@[j].namespace is Some);
    }
}

/// A strict prefix of `p` ends on a leaf of a file other than `file`.
pub open spec fn blocked_by_others(t: KeyTree, p: Seq<Seq<char>>, file: Seq<char>) -> bool {
    exists|k: int| 1 <= k < p.len() && #[trigger] kept_leaf(node_at(t, p.take(k)), file)
}

/// Law: a file re-read from its buffer is read back. When the stores of its
/// new entries go to non-empty, pairwise unrelated key paths (no path is
/// another or a prefix of it) and no other file of the locale has a leaf on
/// a strict prefix of one of them, every entry's value is found at its key.
pub proof fn lemma_buffer_update_found(old: LocaleIndex, new: LocaleIndex, i: int, es: Seq<LocaleEntry>)
    requires
        0 <= i < old.files@.len(),
        reindexed(old, new, i, es),
        paths_unrelated(file_inserts(refreshed_file(old.files@[i], es), es, layout_or_nested(old.layout), old.config)),
        forall|m: int| 0 <= m < es.len() ==>
            (#[trigger] file_inserts(refreshed_file(old.files@[i], es), es, layout_or_nested(old.layout), old.config)[m]).0.len() > 0,
        forall|m: int| 0 <= m < es.len() ==> (old.trees.tree(old.files@[i].locale@) matches Some(t0)
            ==> !blocked_by_others(t0, (#[trigger] file_inserts(refreshed_file(old.files@[i], es), es, layout_or_nested(old.layout), old.config)[m]).0, old.files@[i].path@)),
    ensures
        new.trees.tree(old.files@[i].locale@) is Some,
        forall|m: int| 0 <= m < es.len() ==> leaf_at(new.trees.tree(old.files@[i].locale@).unwrap(),
            (#[trigger] file_inserts(refreshed_file(old.files@[i], es), es, layout_or_nested(old.layout), old.config)[m]).0)
            == Some(file_inserts(refreshed_file(old.files@[i], es), es, layout_or_nested(old.layout), old.config)[m].1),
{
    let f = old.files@[i];
    let f2 = refreshed_file(f, es);
    let l = f.locale@;
    let items = file_inserts(f2, es, layout_or_nested(old.layout), old.config);
    let t2 = new.trees.tree(l).unwrap();
    let t1 = choose|t1: KeyTree| #![trigger inserted_seq(t1, items, t2)]
        tree_wf(t1) && inserted_seq(t1, items, t2)
        && match old.trees.tree(l) {
            Some(t0) => pruned(t0, f.path@, t1),
            None => t1.children@.len() == 0,
        };
    assert forall|m: int| 0 <= m < items.len() implies (#[trigger] items[m]).0.len() > 0 && !blocked(t1, items[m].0) by {
        let p = items[m].0;
        if blocked(t1, p) {
            let k = choose|k: int| 1 <= k < p.len() && is_leaf(#[trigger] node_at(t1, p.take(k)));
            match old.trees.tree(l) {
                Some(t0) => {
                    assert(kept_leaf(node_at(t0, p.take(k)), f.path@));
                    assert(blocked_by_others(t0, p, f.path@));
                },
                None => {
                    assert(find_child(t1.children@, p.take(k)[0]) is None);
                },
            }
        }
    }
    assert(items.take(items.len() as int) =~= items);
    crate::keytree::lemma_inserted_seq_found(t1, items, t2, items);
}

/// Law: re-reading a file from its buffer leaves in its locale only the
/// values of its new entries and unchanged leaves of other files; no leaf
/// the file had before survives unless re-stored, and no other file's value
/// changes.
pub proof fn lemma_buffer_update_leaves(old: LocaleIndex, new: LocaleIndex, i: int, es: Seq<LocaleEntry>, q: Seq<Seq<char>>)
    requires
        0 <= i < old.files@.len(),
        reindexed(old, new, i, es),
    ensures
        match new.trees.tree(old.files@[i].locale@) {
            Some(t2) => match node_at(t2, q) {
                Some(KeyNode::Leaf(v)) => (exists|k: int| 0 <= k < es.len()
                        && v == #[trigger] file_inserts(refreshed_file(old.files@[i], es), es, layout_or_nested(old.layout), old.config)[k].1)
                    || (v.file@ != old.files@[i].path@ && (old.trees.tree(old.files@[i].locale@) matches Some(t0)
                        && node_at(t0, q) == node_at(t2, q))),
                _ => true,
            },
            None => true,
        },
{
    let f = old.files@[i];
    let f2 = refreshed_file(f, es);
    let l = f.locale@;
    let items = file_inserts(f2, es, layout_or_nested(old.layout), old.config);
    let t2 = new.trees.tree(l).unwrap();
    if is_leaf(node_at(t2, q)) {
        let t1 = choose|t1: KeyTree| #![trigger inserted_seq(t1, items, t2)]
            tree_wf(t1) && inserted_seq(t1, items, t2)
            && match old.trees.tree(l) {
                Some(t0) => pruned(t0, f.path@, t1),
                None => t1.children@.len() == 0,
            };
        crate::keytree::lemma_inserted_seq_leaf(t1, items, t2, q);
        if node_at(t2, q) == node_at(t1, q) {
            match old.trees.tree(l) {
                Some(t0) => {
                    assert(is_leaf(node_at(t1, q)));
                },
                None => {
                    assert(node_at(t1, q) is None) by {
                        if q.len() > 0 {
                            assert(find_child(t1.children@, q[0]) is None);
                        }
                    }
                },
            }
        } else {
            let k = choose|k: int| 0 <= k < items.len() && node_at(t2, q) == Some(KeyNode::Leaf(#[trigger] items[k].1));
            assert(items.len() == es.len());
        }
    }
}

} // verus!
