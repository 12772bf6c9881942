//! The hierarchical key tree a translation browser shows: every key of the
//! index split at `.`, branches that can be expanded, and the keys some
//! target locale misses.
use vstd::prelude::*;
use vstd::string::*;
use crate::index::{LocaleIndex, insert_sorted_unique, strictly_sorted, keys_of_trees};
use crate::keytree::dotted;
use crate::project::{missing_of, targets_of};
use crate::text::{split_char, split_spec, join_spec, join_char, views, chars_of};
use crate::display::{contains_seq, contains_str};
use crate::linked::{lowercase, to_lowercase};

verus! {

broadcast use vstd::seq::group_seq_axioms;

/// A node of the key tree: the key ending here, if any, and the segments below.
#[derive(Debug)]
pub struct KeyTreeNode {
    pub leaf_key: Option<String>,
    pub children: Vec<(String, KeyTreeNode)>,
}

/// The top level of the key tree.
#[derive(Debug)]
pub struct KeyTreeRoot {
    pub children: Vec<(String, KeyTreeNode)>,
}

/// Segments below a node, with the key they lead to.
pub type KeyItem = (Seq<Seq<char>>, Seq<char>);

pub open spec fn key_sub_items(items: Seq<KeyItem>, name: Seq<char>) -> Seq<KeyItem>
    decreases items.len(),
{
    if items.len() == 0 {
        Seq::empty()
    } else {
        let rest = key_sub_items(items.drop_last(), name);
        let x = items.last();
        if x.0.len() > 0 && x.0[0] == name { rest.push((x.0.drop_first(), x.1)) } else { rest }
    }
}

/// The key of the last item that ends here.
pub open spec fn key_ending_here(items: Seq<KeyItem>) -> Option<Seq<char>>
    decreases items.len(),
{
    if items.len() == 0 {
        None
    } else if items.last().0.len() == 0 {
        Some(items.last().1)
    } else {
        key_ending_here(items.drop_last())
    }
}

pub open spec fn key_has_first(items: Seq<KeyItem>, x: Seq<char>) -> bool {
    exists|i: int| 0 <= i < items.len() && (#[trigger] items[i]).0.len() > 0 && items[i].0[0] == x
}

pub open spec fn child_names(cs: Seq<(String, KeyTreeNode)>) -> Seq<Seq<char>> {
    cs.map_values(|c: (String, KeyTreeNode)| c.0@)
}

pub open spec fn opt_string_view(o: Option<String>) -> Option<Seq<char>> {
    match o {
        Some(s) => Some(s@),
        None => None,
    }
}

/// `n` is the node built from `items`, `depth` levels deep at most.
pub open spec fn key_node_built(n: KeyTreeNode, items: Seq<KeyItem>, depth: nat) -> bool
    decreases depth, 0nat,
{
    &&& opt_string_view(n.leaf_key) == key_ending_here(items)
    &&& if depth == 0 { n.children@.len() == 0 } else { key_level_built(n.children@, items, (depth - 1) as nat) }
}

/// `cs` are the children built from `items`: one per first segment, in
/// increasing order, each built from the items below it.
pub open spec fn key_level_built(cs: Seq<(String, KeyTreeNode)>, items: Seq<KeyItem>, depth: nat) -> bool
    decreases depth, 1nat,
{
    &&& strictly_sorted(child_names(cs))
    &&& forall|x: Seq<char>| #[trigger] child_names(cs).contains(x) <==> key_has_first(items, x)
    &&& forall|i: int| 0 <= i < cs.len() ==> key_node_built((#[trigger] cs[i]).1, key_sub_items(items, cs[i].0@), depth)
}

pub open spec fn key_max_len(items: Seq<KeyItem>) -> nat
    decreases items.len(),
{
    if items.len() == 0 {
        0
    } else {
        let m = key_max_len(items.drop_last());
        if items.last().0.len() > m { items.last().0.len() } else { m }
    }
}

/// The items of `keys`: each split at `.`.
pub open spec fn key_items(keys: Seq<Seq<char>>) -> Seq<KeyItem> {
    keys.map_values(|k: Seq<char>| (split_spec(k, '.'), k))
}

spec fn items_view(v: Seq<(Vec<String>, String)>) -> Seq<KeyItem> {
    v.map_values(|x: (Vec<String>, String)| (views(x.0@), x.1@))
}

/// The sorted keys of an index: those of `all_keys`.
pub open spec fn sorted_index_keys(keys: Seq<Seq<char>>, idx: LocaleIndex) -> bool {
    &&& strictly_sorted(keys)
    &&& forall|x: Seq<char>| #[trigger] keys.contains(x) <==> keys_of_trees(idx.trees.entries@).contains(x)
}

/// Paths of the branches below child `i` of `n` and its later siblings,
/// each followed by those below it, in tree order.
pub open spec fn branches_from(n: KeyTreeNode, prefix: Seq<Seq<char>>, i: int) -> Seq<Seq<Seq<char>>>
    decreases n, n.children@.len() - i,
{
    if i < 0 || i >= n.children@.len() {
        Seq::empty()
    } else {
        let c = n.children@[i].1;
        let p = prefix.push(n.children@[i].0@);
        proof { assert(decreases_to!(n => c)); }
        (if c.children@.len() > 0 { seq![p] + branches_from(c, p, 0) } else { Seq::empty() }) + branches_from(n, prefix, i + 1)
    }
}

impl KeyTreeRoot {
    /// The tree of every key of the index.
    pub fn from_index(index: &LocaleIndex) -> (r: KeyTreeRoot)
        ensures
            exists|keys: Seq<Seq<char>>| #[trigger] sorted_index_keys(keys, *index)
                && key_level_built(r.children@, key_items(keys), key_max_len(key_items(keys))),
    {
        let keys = index.all_keys();
        let ghost ks = views(keys@);
        let ghost es = key_items(ks);
        let mut items: Vec<(Vec<String>, String)> = Vec::new();
        let mut depth: usize = 0;
        let mut i: usize = 0;
        while i < keys.len()
            invariant
                ks == views(keys@),
                es == key_items(ks),
                i <= keys@.len(),
                items_view(items@) == es.take(i as int),
                depth as nat == key_max_len(es.take(i as int)),
            decreases keys@.len() - i,
        {
            let parts = split_char(keys[i].as_str(), '.');
            assert(es.take(i + 1).drop_last() =~= es.take(i as int));
            let ghost iv = items_view(items@);
            if parts.len() > depth {
                depth = parts.len();
            }
            items.push((parts, keys[i].clone()));
            assert(items_view(items@) =~= iv.push(es[i as int]));
            assert(es.take(i + 1) =~= es.take(i as int).push(es[i as int]));
            i = i + 1;
        }
        assert(es.take(keys@.len() as int) =~= es);
        assert(sorted_index_keys(ks, *index));
        KeyTreeRoot { children: build_children(&items, depth) }
    }

    /// The dotted path of every branch, each followed by the branches
    /// below it, children in increasing order.
    pub fn branch_paths(&self) -> (r: Vec<String>)
        ensures
            views(r@) == dotted(Seq::<Seq<char>>::empty(),
                branches_from(KeyTreeNode { leaf_key: None, children: self.children }, Seq::empty(), 0)),
    {
        let mut out: Vec<String> = Vec::new();
        let mut prefix: Vec<String> = Vec::new();
        assert(views(prefix@) =~= Seq::<Seq<char>>::empty());
        assert(views(out@) =~= Seq::<Seq<char>>::empty());
        collect_branches_from(&self.children, 0, &mut prefix, &mut out);
        proof {
            let n = KeyTreeNode { leaf_key: None, children: self.children };
            assert(n.children@ == self.children@);
            let d = dotted(Seq::<Seq<char>>::empty(), branches_from(n, Seq::empty(), 0));
            assert(Seq::<Seq<char>>::empty() + d =~= d);
            assert(views(out@) =~= d);
        }
        out
    }
}

proof fn lemma_dotted_concat(prefix: Seq<Seq<char>>, a: Seq<Seq<Seq<char>>>, b: Seq<Seq<Seq<char>>>)
    ensures
        dotted(prefix, a + b) == dotted(prefix, a) + dotted(prefix, b),
{
    assert(dotted(prefix, a + b) =~= dotted(prefix, a) + dotted(prefix, b));
}

/// Appends the branch paths below `children` from child `i` on (under the
/// segments `prefix`) to `out`.
fn collect_branches_from(children: &Vec<(String, KeyTreeNode)>, i: usize, prefix: &mut Vec<String>, out: &mut Vec<String>)
    requires
        i <= children@.len(),
    ensures
        views(final(prefix)@) == views(old(prefix)@),
        views(final(out)@) == views(old(out)@) + dotted(Seq::<Seq<char>>::empty(),
            branches_from(KeyTreeNode { leaf_key: None, children: *children }, views(old(prefix)@), i as int)),
    decreases *children, children@.len() - i,
{
    let ghost n = KeyTreeNode { leaf_key: None, children: *children };
    let ghost pre = views(prefix@);
    let ghost out0 = views(out@);
    if i >= children.len() {
        assert(dotted(Seq::<Seq<char>>::empty(), Seq::<Seq<Seq<char>>>::empty()) =~= Seq::<Seq<char>>::empty());
        assert(out0 + Seq::<Seq<char>>::empty() =~= out0);
        return;
    }
    let c = &children[i].1;
    let ghost p = pre.push(children@[i as int].0@);
    prefix.push(children[i].0.clone());
    assert(views(prefix@) =~= p);
    let ghost mid: Seq<Seq<Seq<char>>> = Seq::empty();
    if c.children.len() > 0 {
        let path = join_char(prefix.as_slice(), '.');
        assert(path@ == join_spec(Seq::<Seq<char>>::empty() + p, '.')) by {
            assert(Seq::<Seq<char>>::empty() + p =~= p);
        }
        out.push(path);
        proof { assert(decreases_to!(*children => c.children)); }
        collect_branches_from(&c.children, 0, prefix, out);
        proof {
            let inner = KeyTreeNode { leaf_key: None, children: c.children };
            assert(branches_from(inner, p, 0) =~= branches_from(*c, p, 0)) by {
                lemma_branches_same_children(inner, *c, p, 0);
            }
        }
    }
    let ghost after = views(out@);
    let ghost pl = prefix@.len();
    let ghost pv = views(prefix@);
    prefix.pop();
    assert(views(prefix@) =~= pv.drop_last());
    assert(views(prefix@) =~= pre);
    collect_branches_from(children, i + 1, prefix, out);
    proof {
        let cc = n.children@[i as int].1;
        assert(cc == *c);
        let here: Seq<Seq<Seq<char>>> = if cc.children@.len() > 0 { seq![p] + branches_from(cc, p, 0) } else { Seq::empty() };
        assert(branches_from(n, pre, i as int) == here + branches_from(n, pre, i + 1));
        let e = Seq::<Seq<char>>::empty();
        lemma_dotted_concat(e, here, branches_from(n, pre, i + 1));
        if cc.children@.len() > 0 {
            lemma_dotted_concat(e, seq![p], branches_from(cc, p, 0));
            assert(dotted(e, seq![p]) =~= seq![join_spec(e + p, '.')]);
            assert(after == out0 + dotted(e, here));
        } else {
            assert(dotted(e, here) =~= Seq::<Seq<char>>::empty());
            assert(after =~= out0 + dotted(e, here));
        }
    }
}

/// Branch paths depend only on the children.
proof fn lemma_branches_same_children(a: KeyTreeNode, b: KeyTreeNode, prefix: Seq<Seq<char>>, i: int)
    requires
        a.children == b.children,
    ensures
        branches_from(a, prefix, i) == branches_from(b, prefix, i),
    decreases a.children@.len() - i,
{
    if 0 <= i < a.children@.len() {
        lemma_branches_same_children(a, b, prefix, i + 1);
    }
}

fn key_sub_items_of(items: &Vec<(Vec<String>, String)>, name: &String) -> (r: Vec<(Vec<String>, String)>)
    ensures
        items_view(r@) == key_sub_items(items_view(items@), name@),
{
    let ghost iv = items_view(items@);
    let mut out: Vec<(Vec<String>, String)> = Vec::new();
    let mut i: usize = 0;
    while i < items.len()
        invariant
            iv == items_view(items@),
            i <= items@.len(),
            items_view(out@) == key_sub_items(iv.take(i as int), name@),
        decreases items@.len() - i,
    {
        assert(iv.take(i + 1).drop_last() =~= iv.take(i as int));
        assert(iv.take(i + 1).last() == iv[i as int]);
        let p = &items[i].0;
        if p.len() > 0 && crate::text::str_eq(p[0].as_str(), name.as_str()) {
            let mut rest: Vec<String> = Vec::new();
            let mut j: usize = 1;
            while j < p.len()
                invariant
                    1 <= j <= p@.len(),
                    views(rest@) == views(p@).subrange(1, j as int),
                decreases p@.len() - j,
            {
                let ghost r0 = views(rest@);
                rest.push(p[j].clone());
                assert(views(rest@) =~= r0.push(p@[j as int]@));
                assert(views(p@).subrange(1, j + 1) =~= views(p@).subrange(1, j as int).push(p@[j as int]@));
                j = j + 1;
            }
            assert(views(rest@) =~= views(p@).drop_first());
            let ghost o = items_view(out@);
            out.push((rest, items[i].1.clone()));
            assert(items_view(out@) =~= o.push((views(p@).drop_first(), items@[i as int].1@)));
        }
        i = i + 1;
    }
    assert(iv.take(items@.len() as int) =~= iv);
    out
}

fn key_here(items: &Vec<(Vec<String>, String)>) -> (r: Option<String>)
    ensures
        opt_string_view(r) == key_ending_here(items_view(items@)),
{
    let ghost iv = items_view(items@);
    let mut i: usize = items.len();
    assert(iv.take(iv.len() as int) =~= iv);
    while i > 0
        invariant
            iv == items_view(items@),
            i <= items@.len(),
            key_ending_here(iv) == key_ending_here(iv.take(i as int)),
        decreases i,
    {
        assert(iv.take(i as int).drop_last() =~= iv.take(i - 1));
        assert(iv.take(i as int).last() == iv[i - 1]);
        if items[i - 1].0.len() == 0 {
            return Some(items[i - 1].1.clone());
        }
        i = i - 1;
    }
    None
}

/// The children built from `items`, `depth` levels deep at most.
fn build_children(items: &Vec<(Vec<String>, String)>, depth: usize) -> (r: Vec<(String, KeyTreeNode)>)
    ensures
        key_level_built(r@, items_view(items@), depth as nat),
    decreases depth,
{
    let ghost iv = items_view(items@);
    let mut names: Vec<String> = Vec::new();
    let mut i: usize = 0;
    while i < items.len()
        invariant
            iv == items_view(items@),
            i <= items@.len(),
            strictly_sorted(views(names@)),
            forall|x: Seq<char>| #[trigger] views(names@).contains(x) <==> key_has_first(iv.take(i as int), x),
        decreases items@.len() - i,
    {
        assert(iv.take(i + 1)[i as int] == iv[i as int]);
        if items[i].0.len() > 0 {
            insert_sorted_unique(&mut names, items[i].0[0].clone());
        }
        assert forall|x: Seq<char>| #[trigger] views(names@).contains(x) <==> key_has_first(iv.take(i + 1), x) by {
            if key_has_first(iv.take(i + 1), x) {
                let j = choose|j: int| 0 <= j < iv.take(i + 1).len() && (#[trigger] iv.take(i + 1)[j]).0.len() > 0 && iv.take(i + 1)[j].0[0] == x;
                if j < i {
                    assert(iv.take(i as int)[j] == iv.take(i + 1)[j]);
                }
            }
            if key_has_first(iv.take(i as int), x) {
                let j = choose|j: int| 0 <= j < iv.take(i as int).len() && (#[trigger] iv.take(i as int)[j]).0.len() > 0 && iv.take(i as int)[j].0[0] == x;
                assert(iv.take(i + 1)[j] == iv.take(i as int)[j]);
            }
        }
        i = i + 1;
    }
    assert(iv.take(items@.len() as int) =~= iv);
    let mut out: Vec<(String, KeyTreeNode)> = Vec::new();
    let mut j: usize = 0;
    while j < names.len()
        invariant
            iv == items_view(items@),
            j <= names@.len(),
            out@.len() == j,
            forall|a: int| 0 <= a < j ==> (#[trigger] out@[a]).0@ == names@[a]@,
            forall|a: int| 0 <= a < j ==> key_node_built((#[trigger] out@[a]).1, key_sub_items(iv, names@[a]@), depth as nat),
        decreases names@.len() - j,
    {
        let sub = key_sub_items_of(items, &names[j]);
        let leaf_key = key_here(&sub);
        let children = if depth > 0 { build_children(&sub, depth - 1) } else { Vec::new() };
        let node = KeyTreeNode { leaf_key, children };
        assert(key_node_built(node, key_sub_items(iv, names@[j as int]@), depth as nat));
        out.push((names[j].clone(), node));
        j = j + 1;
    }
    proof {
        assert(child_names(out@) =~= views(names@));
        assert forall|a: int| 0 <= a < out@.len() implies key_node_built((#[trigger] out@[a]).1, key_sub_items(iv, out@[a].0@), depth as nat) by {
            assert(out@[a].0@ == names@[a]@);
        }
    }
    out
}

/// Keys some target locale misses, sorted, each once.
pub fn missing_key_set(index: &LocaleIndex) -> (r: Vec<String>)
    requires
        index.trees.wf(),
    ensures
        strictly_sorted(views(r@)),
        forall|x: Seq<char>| #[trigger] views(r@).contains(x) <==> exists|l: Seq<char>|
            #[trigger] targets_of(index.trees.entries@, index.source_locale@).contains(l) && missing_of(*index, l).contains(x),
{
    let ghost es = index.trees.entries@;
    let ghost src = index.source_locale@;
    let mut out: Vec<String> = Vec::new();
    let mut i: usize = 0;
    while i < index.trees.entries.len()
        invariant
            index.trees.wf(),
            es == index.trees.entries@,
            src == index.source_locale@,
            i <= es.len(),
            strictly_sorted(views(out@)),
            forall|x: Seq<char>| #[trigger] views(out@).contains(x) <==> exists|l: Seq<char>|
                #[trigger] targets_of(es.take(i as int), src).contains(l) && missing_of(*index, l).contains(x),
        decreases es.len() - i,
    {
        assert(es.take(i + 1).drop_last() =~= es.take(i as int));
        assert(es.take(i + 1).last() == es[i as int]);
        let ghost before = views(out@);
        let l = &index.trees.entries[i].0;
        if !l.same_as(&index.source_locale) {
            let missing = index.missing_keys(l);
            let mut k: usize = 0;
            while k < missing.len()
                invariant
                    strictly_sorted(views(out@)),
                    k <= missing@.len(),
                    forall|x: Seq<char>| #[trigger] views(out@).contains(x) <==> (before.contains(x) || views(missing@).take(k as int).contains(x)),
                decreases missing@.len() - k,
            {
                insert_sorted_unique(&mut out, missing[k].clone());
                proof {
                    assert(views(missing@).take(k + 1) =~= views(missing@).take(k as int).push(missing@[k as int]@));
                    crate::text::lemma_contains_push(views(missing@).take(k as int), missing@[k as int]@);
                }
                k = k + 1;
            }
            assert(views(missing@).take(missing@.len() as int) =~= views(missing@));
            proof {
                let ts = targets_of(es.take(i + 1), src);
                assert(ts == targets_of(es.take(i as int), src).push(l@));
                crate::text::lemma_contains_push(targets_of(es.take(i as int), src), l@);
                assert(views(missing@) == missing_of(*index, l@));
                assert forall|x: Seq<char>| #[trigger] views(out@).contains(x) <==> exists|m: Seq<char>|
                    #[trigger] ts.contains(m) && missing_of(*index, m).contains(x) by {
                    let old_ts = targets_of(es.take(i as int), src);
                    if views(missing@).contains(x) {
                        assert(ts.contains(l@) && missing_of(*index, l@).contains(x));
                    }
                    if before.contains(x) {
                        let m = choose|m: Seq<char>| #[trigger] old_ts.contains(m) && missing_of(*index, m).contains(x);
                        assert(ts.contains(m));
                    }
                    if exists|m: Seq<char>| #[trigger] ts.contains(m) && missing_of(*index, m).contains(x) {
                        let m = choose|m: Seq<char>| #[trigger] ts.contains(m) && missing_of(*index, m).contains(x);
                        if m != l@ {
                            assert(old_ts.contains(m));
                        }
                    }
                }
            }
        } else {
            assert(targets_of(es.take(i + 1), src) == targets_of(es.take(i as int), src));
        }
        i = i + 1;
    }
    assert(es.take(es.len() as int) =~= es);
    out
}

/// `key` answers the search `needle` (already in lower case): the needle is
/// empty or occurs in the lower-cased key.
pub open spec fn key_matches(key: Seq<char>, needle: Seq<char>) -> bool {
    needle.len() == 0 || contains_seq(lowercase(key), needle)
}

pub fn key_matches_search(key: &str, needle: &str) -> (r: bool)
    ensures
        r == key_matches(key@, needle@),
{
    let ns = chars_of(needle);
    if ns.len() == 0 {
        return true;
    }
    let low = to_lowercase(key);
    let cs = chars_of(low.as_str());
    contains_str(&cs, needle)
}

/// The key ending at `n` answers the search.
pub open spec fn leaf_matches(n: KeyTreeNode, needle: Seq<char>) -> bool {
    match n.leaf_key {
        Some(k) => key_matches(k@, needle),
        None => false,
    }
}

/// Some node below child `i` of `n` or a later sibling answers the search.
pub open spec fn matches_from(n: KeyTreeNode, needle: Seq<char>, i: int) -> bool
    decreases n, n.children@.len() - i,
{
    if i < 0 || i >= n.children@.len() {
        false
    } else {
        let c = n.children@[i].1;
        proof { assert(decreases_to!(n => c)); }
        leaf_matches(c, needle) || matches_from(c, needle, 0) || matches_from(n, needle, i + 1)
    }
}

/// `n` or some node below it answers the search.
pub open spec fn subtree_matches(n: KeyTreeNode, needle: Seq<char>) -> bool {
    leaf_matches(n, needle) || matches_from(n, needle, 0)
}

pub fn subtree_matches_search(node: &KeyTreeNode, needle: &str) -> (r: bool)
    ensures
        r == subtree_matches(*node, needle@),
    decreases *node,
{
    if let Some(k) = &node.leaf_key {
        if key_matches_search(k.as_str(), needle) {
            return true;
        }
    }
    let mut i: usize = 0;
    while i < node.children.len()
        invariant
            i <= node.children@.len(),
            !leaf_matches(*node, needle@),
            matches_from(*node, needle@, 0) == matches_from(*node, needle@, i as int),
        decreases node.children@.len() - i,
    {
        let c = &node.children[i].1;
        proof { assert(decreases_to!(*node => *c)); }
        if subtree_matches_search(c, needle) {
            return true;
        }
        i = i + 1;
    }
    false
}

/// The last segment of `key`, as shown in the tree.
pub open spec fn short_label(key: Seq<char>) -> Seq<char> {
    split_spec(key, '.').last()
}

pub fn short_key_label(key: &str) -> (r: String)
    ensures
        r@ == short_label(key@),
{
    let parts = split_char(key, '.');
    proof { crate::text::lemma_split_nonempty(key@, '.'); }
    assert(views(parts@).len() == parts@.len());
    parts[parts.len() - 1].clone()
}

/// What the browser shows of `key` in locale `l`: its text (empty when the
/// locale lacks it) and whether it is missing there.
pub open spec fn draft_of(es: Seq<(crate::locale::Locale, crate::keytree::KeyTree)>, key: Seq<char>, l: Seq<char>) -> (Seq<char>, bool) {
    match crate::keytree::find_child(crate::index::lookup_spec(es, split_spec(key, '.')), l) {
        Some(v) => (v.value@, false),
        None => (Seq::empty(), true),
    }
}

/// The editable drafts of `key`: one per locale of the index, in order.
pub fn locale_drafts(idx: &LocaleIndex, key: &str) -> (r: Vec<(crate::locale::Locale, String, bool)>)
    requires
        idx.trees.wf(),
    ensures
        r@.len() == idx.trees.entries@.len(),
        forall|i: int| 0 <= i < r@.len() ==> (#[trigger] r@[i]).0@ == idx.trees.entries@[i].0@
            && (r@[i].1@, r@[i].2) == draft_of(idx.trees.entries@, key@, idx.trees.entries@[i].0@),
{
    let ghost es = idx.trees.entries@;
    let values = idx.lookup(key);
    let mut out: Vec<(crate::locale::Locale, String, bool)> = Vec::new();
    let mut i: usize = 0;
    while i < idx.trees.entries.len()
        invariant
            es == idx.trees.entries@,
            i <= es.len(),
            out@.len() == i,
            crate::index::lookup_pairs(values.entries@) == crate::index::lookup_spec(es, split_spec(key@, '.')),
            crate::index::locales_increasing(values.entries@),
            forall|j: int| 0 <= j < i ==> (#[trigger] out@[j]).0@ == es[j].0@
                && (out@[j].1@, out@[j].2) == draft_of(es, key@, es[j].0@),
        decreases es.len() - i,
    {
        let l = &idx.trees.entries[i].0;
        let d = match values.get(l) {
            Some(v) => (l.duplicate(), v.value.clone(), false),
            None => (l.duplicate(), String::new(), true),
        };
        out.push(d);
        i = i + 1;
    }
    out
}

/// `path` without the `/` it ends with, if any.
pub open spec fn without_trailing_slashes(path: Seq<char>) -> Seq<char>
    decreases path.len(),
{
    if path.len() > 0 && path.last() == '/' { without_trailing_slashes(path.drop_last()) } else { path }
}

/// The title of a workspace: the last component of its path, else the
/// whole path.
pub open spec fn label_of(path: Seq<char>) -> Seq<char> {
    let n = crate::paths::file_name_of(without_trailing_slashes(path));
    if n.len() > 0 && n != ".."@ { n } else { path }
}

pub fn project_label(path: &str) -> (r: String)
    ensures
        r@ == label_of(path@),
{
    let cs = chars_of(path);
    let mut end: usize = cs.len();
    assert(cs@.take(end as int) =~= cs@);
    while end > 0 && cs[end - 1] == '/'
        invariant
            end <= cs@.len(),
            cs@ == path@,
            without_trailing_slashes(path@) == without_trailing_slashes(cs@.take(end as int)),
        decreases end,
    {
        assert(cs@.take(end as int).drop_last() =~= cs@.take(end - 1));
        end = end - 1;
    }
    assert(without_trailing_slashes(cs@.take(end as int)) == cs@.take(end as int));
    let trimmed = crate::text::string_from_chars(&cs, 0, end);
    assert(trimmed@ =~= cs@.take(end as int));
    let name = crate::paths::file_name(trimmed.as_str());
    let nc = chars_of(name.as_str());
    let dots = nc.len() == 2 && nc[0] == '.' && nc[1] == '.';
    proof {
        reveal_strlit("..");
        if dots { assert(nc@ =~= ".."@); }
        if nc@ == ".."@ { assert(nc@.len() == 2 && nc@[0] == '.' && nc@[1] == '.'); }
    }
    if nc.len() > 0 && !dots { name } else { path.to_string() }
}

/// How the browser marks a key.
#[derive(Clone, Copy, Debug, PartialEq, Eq, Structural)]
pub enum KeyStatus {
    /// Some target locale misses it.
    Missing,
    /// No scanned source file uses it.
    Unused,
    /// Neither.
    Complete,
}

/// The mark of `key`: missing first, then unused.
pub fn key_status(key: &str, missing_keys: &Vec<String>, unused_keys: &Vec<String>) -> (r: KeyStatus)
    ensures
        views(missing_keys@).contains(key@) ==> r == KeyStatus::Missing,
        !views(missing_keys@).contains(key@) && views(unused_keys@).contains(key@) ==> r == KeyStatus::Unused,
        !views(missing_keys@).contains(key@) && !views(unused_keys@).contains(key@) ==> r == KeyStatus::Complete,
{
    if contains_string(missing_keys, key) {
        KeyStatus::Missing
    } else if contains_string(unused_keys, key) {
        KeyStatus::Unused
    } else {
        KeyStatus::Complete
    }
}

fn contains_string(v: &Vec<String>, key: &str) -> (r: bool)
    ensures
        r == views(v@).contains(key@),
{
    let mut i: usize = 0;
    while i < v.len()
        invariant
            i <= v@.len(),
            forall|j: int| 0 <= j < i ==> v@[j]@ != key@,
        decreases v@.len() - i,
    {
        if crate::text::str_eq(v[i].as_str(), key) {
            assert(views(v@)[i as int] == key@);
            return true;
        }
        i = i + 1;
    }
    proof {
        if views(v@).contains(key@) {
            let j = choose|j: int| 0 <= j < views(v@).len() && views(v@)[j] == key@;
            assert(v@[j]@ == key@);
        }
    }
    false
}

/// The locales of the drafts marked missing, in order.
pub open spec fn missing_draft_locales(drafts: Seq<(crate::locale::Locale, String, bool)>) -> Seq<Seq<char>>
    decreases drafts.len(),
{
    if drafts.len() == 0 {
        Seq::empty()
    } else {
        let rest = missing_draft_locales(drafts.drop_last());
        if drafts.last().2 { rest.push(drafts.last().0@) } else { rest }
    }
}

/// What filling `key` from the source locale writes: the source locale's
/// value, into every locale whose draft is missing; an error when the
/// source locale has no value for it.
pub fn fill_from_source(idx: &LocaleIndex, key: &str, drafts: &Vec<(crate::locale::Locale, String, bool)>) -> (r: Result<(String, Vec<crate::locale::Locale>), String>)
    requires
        idx.trees.wf(),
    ensures
        match crate::keytree::find_child(crate::index::lookup_spec(idx.trees.entries@, split_spec(key@, '.')), idx.source_locale@) {
            None => r matches Err(m) && m@ == "No value in source locale"@,
            Some(v) => r matches Ok(t) && t.0@ == v.value@
                && t.1@.map_values(|l: crate::locale::Locale| l@) == missing_draft_locales(drafts@),
        },
{
    let values = idx.lookup(key);
    let value = match values.get(&idx.source_locale) {
        Some(v) => v.value.clone(),
        None => return Err(String::from_str("No value in source locale")),
    };
    let mut out: Vec<crate::locale::Locale> = Vec::new();
    let mut i: usize = 0;
    while i < drafts.len()
        invariant
            i <= drafts@.len(),
            out@.map_values(|l: crate::locale::Locale| l@) == missing_draft_locales(drafts@.take(i as int)),
        decreases drafts@.len() - i,
    {
        assert(drafts@.take(i + 1).drop_last() =~= drafts@.take(i as int));
        assert(drafts@.take(i + 1).last() == drafts@[i as int]);
        if drafts[i].2 {
            let ghost o = out@;
            out.push(drafts[i].0.duplicate());
            assert(out@.map_values(|l: crate::locale::Locale| l@) =~= o.map_values(|l: crate::locale::Locale| l@).push(drafts@[i as int].0@));
        }
        i = i + 1;
    }
    assert(drafts@.take(drafts@.len() as int) =~= drafts@);
    Ok((value, out))
}

} // verus!
