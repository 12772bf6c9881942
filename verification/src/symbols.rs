//! Hierarchical document-symbol trees built from the leaves of a locale file.
use vstd::prelude::*;
use crate::display::{truncate_chars, truncate_spec};
use crate::index::{insert_sorted_unique, strictly_sorted};
use crate::keytree::LocalizedValue;
use crate::position::{Position, Range};
use crate::text::{split_char, split_spec, views};

verus! {

broadcast use vstd::seq::group_seq_axioms;

/// One node of a locale-file symbol tree.
#[derive(Debug)]
pub struct DocumentSymbolNode {
    pub name: String,
    /// Translation preview for leaf keys.
    pub detail: Option<String>,
    pub key_range: Range,
    pub range: Range,
    pub children: Vec<DocumentSymbolNode>,
}

/// Key segments below a node, with the value they lead to.
pub type SymbolItem = (Seq<Seq<char>>, LocalizedValue);

/// Length of a detail preview.
pub const DETAIL_MAX: usize = 48;

pub open spec fn zero_range() -> Range {
    Range { start: Position { line: 0, character: 0, offset: 0 }, end: Position { line: 0, character: 0, offset: 0 } }
}

/// The items below the child `name`: those whose path starts with `name`,
/// without that segment, in order.
pub open spec fn sub_items(items: Seq<SymbolItem>, name: Seq<char>) -> Seq<SymbolItem>
    decreases items.len(),
{
    if items.len() == 0 {
        Seq::empty()
    } else {
        let rest = sub_items(items.drop_last(), name);
        let x = items.last();
        if x.0.len() > 0 && x.0[0] == name { rest.push((x.0.drop_first(), x.1)) } else { rest }
    }
}

/// The value of the last item that ends here.
pub open spec fn leaf_of(items: Seq<SymbolItem>) -> Option<LocalizedValue>
    decreases items.len(),
{
    if items.len() == 0 {
        None
    } else if items.last().0.len() == 0 {
        Some(items.last().1)
    } else {
        leaf_of(items.drop_last())
    }
}

/// Some item's path starts with `x`.
pub open spec fn has_first(items: Seq<SymbolItem>, x: Seq<char>) -> bool {
    exists|i: int| 0 <= i < items.len() && (#[trigger] items[i]).0.len() > 0 && items[i].0[0] == x
}

/// The key and value ranges spanning `k`, `v` and those of every child:
/// the earliest start and the latest end, the first one on ties.
pub open spec fn union_ranges(children: Seq<DocumentSymbolNode>, k: Range, v: Range) -> (Range, Range)
    decreases children.len(),
{
    if children.len() == 0 {
        (k, v)
    } else {
        let u = union_ranges(children.drop_last(), k, v);
        let c = children.last();
        (Range {
            start: if c.key_range.start.offset < u.0.start.offset { c.key_range.start } else { u.0.start },
            end: if c.key_range.end.offset > u.0.end.offset { c.key_range.end } else { u.0.end },
        }, Range {
            start: if c.range.start.offset < u.1.start.offset { c.range.start } else { u.1.start },
            end: if c.range.end.offset > u.1.end.offset { c.range.end } else { u.1.end },
        })
    }
}

pub open spec fn node_names(nodes: Seq<DocumentSymbolNode>) -> Seq<Seq<char>> {
    nodes.map_values(|n: DocumentSymbolNode| n.name@)
}

/// `n` is the node `name` built from `items` (the items below it), `depth`
/// levels deep at most: its leaf value gives its preview and ranges, its
/// children are those of the items, and with children its ranges span theirs.
pub open spec fn node_built(n: DocumentSymbolNode, name: Seq<char>, items: Seq<SymbolItem>, depth: nat) -> bool
    decreases depth, 0nat,
{
    let leaf = leaf_of(items);
    let k = match leaf { Some(l) => l.key_range, None => zero_range() };
    let v = match leaf { Some(l) => l.range, None => zero_range() };
    &&& n.name@ == name
    &&& match leaf {
        Some(l) => n.detail matches Some(d) && d@ == truncate_spec(l.value@, DETAIL_MAX as int),
        None => n.detail is None,
    }
    &&& if depth == 0 { n.children@.len() == 0 } else { level_built(n.children@, items, (depth - 1) as nat) }
    &&& if n.children@.len() > 0 {
        (n.key_range, n.range) == union_ranges(n.children@, k, v)
    } else {
        n.key_range == k && n.range == v
    }
}

/// `nodes` are the children built from `items`: one per first segment, in
/// increasing order.
pub open spec fn level_built(nodes: Seq<DocumentSymbolNode>, items: Seq<SymbolItem>, depth: nat) -> bool
    decreases depth, 1nat,
{
    &&& strictly_sorted(node_names(nodes))
    &&& forall|x: Seq<char>| #[trigger] node_names(nodes).contains(x) <==> has_first(items, x)
    &&& forall|i: int| 0 <= i < nodes.len() ==> node_built(#[trigger] nodes[i], nodes[i].name@, sub_items(items, nodes[i].name@), depth)
}

/// Length of the longest path.
pub open spec fn max_path_len(items: Seq<SymbolItem>) -> nat
    decreases items.len(),
{
    if items.len() == 0 {
        0
    } else {
        let m = max_path_len(items.drop_last());
        if items.last().0.len() > m { items.last().0.len() } else { m }
    }
}

/// The items of `(dotted key, value)` entries: each key split at `.`.
pub open spec fn entry_items(es: Seq<(String, &LocalizedValue)>) -> Seq<SymbolItem> {
    es.map_values(|e: (String, &LocalizedValue)| (split_spec(e.0@, '.'), *e.1))
}

spec fn items_view(v: Seq<(Vec<String>, &LocalizedValue)>) -> Seq<SymbolItem> {
    v.map_values(|x: (Vec<String>, &LocalizedValue)| (views(x.0@), *x.1))
}

/// The nested tree of dotted keys, for an outline of a locale file.
pub fn build_document_symbol_tree(entries: &[(String, &LocalizedValue)]) -> (r: Vec<DocumentSymbolNode>)
    ensures
        level_built(r@, entry_items(entries@), max_path_len(entry_items(entries@))),
{
    let ghost es = entry_items(entries@);
    let mut items: Vec<(Vec<String>, &LocalizedValue)> = Vec::new();
    let mut depth: usize = 0;
    let mut i: usize = 0;
    while i < entries.len()
        invariant
            es == entry_items(entries@),
            i <= entries@.len(),
            items_view(items@) == es.take(i as int),
            depth as nat == max_path_len(es.take(i as int)),
        decreases entries@.len() - i,
    {
        let parts = split_char(entries[i].0.as_str(), '.');
        assert(es.take(i + 1).drop_last() =~= es.take(i as int));
        let ghost iv = items_view(items@);
        if parts.len() > depth {
            depth = parts.len();
        }
        items.push((parts, entries[i].1));
        assert(items_view(items@) =~= iv.push(es[i as int]));
        assert(es.take(i + 1) =~= es.take(i as int).push(es[i as int]));
        i = i + 1;
    }
    assert(es.take(entries@.len() as int) =~= es);
    build_level(&items, depth)
}

/// The items below the child `name`.
fn sub_items_of<'a>(items: &Vec<(Vec<String>, &'a LocalizedValue)>, name: &String) -> (r: Vec<(Vec<String>, &'a LocalizedValue)>)
    ensures
        items_view(r@) == sub_items(items_view(items@), name@),
{
    let ghost iv = items_view(items@);
    let mut out: Vec<(Vec<String>, &'a LocalizedValue)> = Vec::new();
    let mut i: usize = 0;
    while i < items.len()
        invariant
            iv == items_view(items@),
            i <= items@.len(),
            items_view(out@) == sub_items(iv.take(i as int), name@),
        decreases items@.len() - i,
    {
        assert(iv.take(i + 1).drop_last() =~= iv.take(i as int));
        assert(iv.take(i + 1).last() == iv[i as int]);
        let p = &items[i].0;
        if p.len() > 0 && crate::text::str_eq(p[0].as_str(), name.as_str()) {
            let mut rest: Vec<String> = Vec::new();
            let mut j: usize = 1;
            while j < p.len()
                invariant
                    1 <= j <= p@.len(),
                    views(rest@) == views(p@).subrange(1, j as int),
                decreases p@.len() - j,
            {
                let ghost r0 = views(rest@);
                rest.push(p[j].clone());
                assert(views(rest@) =~= r0.push(p@[j as int]@));
                assert(views(p@).subrange(1, j + 1) =~= views(p@).subrange(1, j as int).push(p@[j as int]@));
                j = j + 1;
            }
            assert(views(rest@) =~= views(p@).drop_first());
            let ghost o = items_view(out@);
            out.push((rest, items[i].1));
            assert(items_view(out@) =~= o.push((views(p@).drop_first(), *items@[i as int].1)));
        }
        i = i + 1;
    }
    assert(iv.take(items@.len() as int) =~= iv);
    out
}

/// The value of the last item that ends here.
fn leaf_value<'a>(items: &Vec<(Vec<String>, &'a LocalizedValue)>) -> (r: Option<&'a LocalizedValue>)
    ensures
        match r {
            Some(v) => leaf_of(items_view(items@)) == Some(*v),
            None => leaf_of(items_view(items@)) is None,
        },
{
    let ghost iv = items_view(items@);
    let mut i: usize = items.len();
    assert(iv.take(iv.len() as int) =~= iv);
    while i > 0
        invariant
            iv == items_view(items@),
            i <= items@.len(),
            leaf_of(iv) == leaf_of(iv.take(i as int)),
        decreases i,
    {
        assert(iv.take(i as int).drop_last() =~= iv.take(i - 1));
        assert(iv.take(i as int).last() == iv[i - 1]);
        if items[i - 1].0.len() == 0 {
            return Some(items[i - 1].1);
        }
        i = i - 1;
    }
    None
}

/// See [`union_ranges`].
fn union_child_ranges(children: &Vec<DocumentSymbolNode>, k: Range, v: Range) -> (r: (Range, Range))
    ensures
        r == union_ranges(children@, k, v),
{
    let mut key_start = k.start;
    let mut key_end = k.end;
    let mut val_start = v.start;
    let mut val_end = v.end;
    let mut i: usize = 0;
    while i < children.len()
        invariant
            i <= children@.len(),
            union_ranges(children@.take(i as int), k, v) == (Range { start: key_start, end: key_end }, Range { start: val_start, end: val_end }),
        decreases children@.len() - i,
    {
        assert(children@.take(i + 1).drop_last() =~= children@.take(i as int));
        assert(children@.take(i + 1).last() == children@[i as int]);
        let c = &children[i];
        if c.key_range.start.offset < key_start.offset {
            key_start = c.key_range.start;
        }
        if c.key_range.end.offset > key_end.offset {
            key_end = c.key_range.end;
        }
        if c.range.start.offset < val_start.offset {
            val_start = c.range.start;
        }
        if c.range.end.offset > val_end.offset {
            val_end = c.range.end;
        }
        i = i + 1;
    }
    assert(children@.take(children@.len() as int) =~= children@);
    (Range { start: key_start, end: key_end }, Range { start: val_start, end: val_end })
}

/// The children built from `items`, `depth` levels deep at most.
fn build_level(items: &Vec<(Vec<String>, &LocalizedValue)>, depth: usize) -> (r: Vec<DocumentSymbolNode>)
    ensures
        level_built(r@, items_view(items@), depth as nat),
    decreases depth,
{
    let ghost iv = items_view(items@);
    let mut names: Vec<String> = Vec::new();
    let mut i: usize = 0;
    while i < items.len()
        invariant
            iv == items_view(items@),
            i <= items@.len(),
            strictly_sorted(views(names@)),
            forall|x: Seq<char>| #[trigger] views(names@).contains(x) <==> has_first(iv.take(i as int), x),
        decreases items@.len() - i,
    {
        let ghost before = views(names@);
        assert(iv.take(i + 1)[i as int] == iv[i as int]);
        if items[i].0.len() > 0 {
            insert_sorted_unique(&mut names, items[i].0[0].clone());
        }
        assert forall|x: Seq<char>| #[trigger] views(names@).contains(x) <==> has_first(iv.take(i + 1), x) by {
            if has_first(iv.take(i + 1), x) {
                let j = choose|j: int| 0 <= j < iv.take(i + 1).len() && (#[trigger] iv.take(i + 1)[j]).0.len() > 0 && iv.take(i + 1)[j].0[0] == x;
                if j < i {
                    assert(iv.take(i as int)[j] == iv.take(i + 1)[j]);
                }
            }
            if has_first(iv.take(i as int), x) {
                let j = choose|j: int| 0 <= j < iv.take(i as int).len() && (#[trigger] iv.take(i as int)[j]).0.len() > 0 && iv.take(i as int)[j].0[0] == x;
                assert(iv.take(i + 1)[j] == iv.take(i as int)[j]);
            }
        }
        i = i + 1;
    }
    assert(iv.take(items@.len() as int) =~= iv);
    let mut out: Vec<DocumentSymbolNode> = Vec::new();
    let mut j: usize = 0;
    while j < names.len()
        invariant
            iv == items_view(items@),
            j <= names@.len(),
            out@.len() == j,
            forall|a: int| 0 <= a < j ==> (#[trigger] out@[a]).name@ == names@[a]@,
            forall|a: int| 0 <= a < j ==> node_built(#[trigger] out@[a], names@[a]@, sub_items(iv, names@[a]@), depth as nat),
        decreases names@.len() - j,
    {
        let sub = sub_items_of(items, &names[j]);
        let leaf = leaf_value(&sub);
        let children = if depth > 0 { build_level(&sub, depth - 1) } else { Vec::new() };
        let zero = Range { start: Position { line: 0, character: 0, offset: 0 }, end: Position { line: 0, character: 0, offset: 0 } };
        let (k, v, detail) = match leaf {
            Some(l) => (l.key_range, l.range, Some(truncate_chars(l.value.as_str(), DETAIL_MAX))),
            None => (zero, zero, None),
        };
        let (key_range, range) = if children.len() > 0 { union_child_ranges(&children, k, v) } else { (k, v) };
        let node = DocumentSymbolNode { name: names[j].clone(), detail, key_range, range, children };
        assert(node_built(node, names@[j as int]@, sub_items(iv, names@[j as int]@), depth as nat));
        out.push(node);
        j = j + 1;
    }
    proof {
        assert(node_names(out@) =~= views(names@));
        assert forall|a: int| 0 <= a < out@.len() implies node_built(#[trigger] out@[a], out@[a].name@, sub_items(iv, out@[a].name@), depth as nat) by {
            assert(out@[a].name@ == names@[a]@);
        }
    }
    out
}

} // verus!
