//! Trees of translation keys for one locale, and their traversals.
use vstd::prelude::*;
use crate::text::{str_lt, lemma_str_lt_order, order_str, str_eq, views, join_spec, split_spec, split_char, join_char};
use crate::position::Range;

verus! {

broadcast use vstd::seq::group_seq_axioms;

/// One translation value at a specific location in a locale file.
#[derive(Clone, Debug)]
pub struct LocalizedValue {
    pub value: String,
    pub file: String,
    /// Range of the value literal inside the file.
    pub range: Range,
    /// Range of the leaf key (the property name) inside the file.
    pub key_range: Range,
}

/// Tree of keys: `{ common: { submit: Leaf("Submit"), cancel: Leaf("Cancel") } }`.
/// Children are kept in strictly increasing key order.
#[derive(Debug)]
pub struct KeyTree {
    pub children: Vec<(String, KeyNode)>,
}

#[derive(Debug)]
pub enum KeyNode {
    Leaf(LocalizedValue),
    Branch(KeyTree),
}

/// Keys of `cs` strictly increase.
pub open spec fn keys_sorted<K: View<V = Seq<char>>, V>(cs: Seq<(K, V)>) -> bool {
    forall|i: int, j: int| 0 <= i < j < cs.len() ==> str_lt(#[trigger] cs[i].0@, #[trigger] cs[j].0@)
}

/// Every branch from index `i` on is itself well formed.
pub open spec fn wf_from(t: KeyTree, i: int) -> bool
    decreases t, t.children@.len() - i,
{
    if i < 0 || i >= t.children@.len() {
        true
    } else {
        (match t.children@[i].1 {
            KeyNode::Leaf(_) => true,
            KeyNode::Branch(sub) => {
                proof { assert(decreases_to!(t => sub)); }
                keys_sorted(sub.children@) && wf_from(sub, 0)
            },
        }) && wf_from(t, i + 1)
    }
}

/// Well formed: at every level the keys strictly increase.
pub open spec fn tree_wf(t: KeyTree) -> bool {
    keys_sorted(t.children@) && wf_from(t, 0)
}

/// A leaf, or a well-formed branch.
pub open spec fn node_wf(n: KeyNode) -> bool {
    match n {
        KeyNode::Leaf(_) => true,
        KeyNode::Branch(sub) => tree_wf(sub),
    }
}

pub proof fn lemma_wf_from(t: KeyTree, i: int)
    requires
        0 <= i <= t.children@.len(),
    ensures
        wf_from(t, i) <==> forall|j: int| i <= j < t.children@.len() ==>
            node_wf((#[trigger] t.children@[j]).1),
    decreases t.children@.len() - i,
{
    if i < t.children@.len() {
        lemma_wf_from(t, i + 1);
    }
}

pub open spec fn has_key<K: View<V = Seq<char>>, V>(cs: Seq<(K, V)>, name: Seq<char>) -> bool {
    exists|i: int| 0 <= i < cs.len() && (#[trigger] cs[i]).0@ == name
}

/// The child named `name`, if any.
pub open spec fn find_child<K: View<V = Seq<char>>, V>(cs: Seq<(K, V)>, name: Seq<char>) -> Option<V> {
    if has_key(cs, name) {
        Some(cs[choose|i: int| 0 <= i < cs.len() && (#[trigger] cs[i]).0@ == name].1)
    } else {
        None
    }
}

/// The node reached from `t` by following the key segments of `p`.
pub open spec fn node_at(t: KeyTree, p: Seq<Seq<char>>) -> Option<KeyNode>
    decreases p.len(),
{
    if p.len() == 0 {
        None
    } else {
        match find_child(t.children@, p[0]) {
            None => None,
            Some(n) => if p.len() == 1 {
                Some(n)
            } else {
                match n {
                    KeyNode::Leaf(_) => None,
                    KeyNode::Branch(sub) => node_at(sub, p.drop_first()),
                }
            },
        }
    }
}

/// The value stored at the leaf reached by `p`, if `p` ends on a leaf.
pub open spec fn leaf_at(t: KeyTree, p: Seq<Seq<char>>) -> Option<LocalizedValue> {
    match node_at(t, p) {
        Some(KeyNode::Leaf(v)) => Some(v),
        _ => None,
    }
}

pub proof fn lemma_find_child_at<K: View<V = Seq<char>>, V>(cs: Seq<(K, V)>, i: int)
    requires
        keys_sorted(cs),
        0 <= i < cs.len(),
    ensures
        find_child(cs, cs[i].0@) == Some(cs[i].1),
{
    assert(has_key(cs, cs[i].0@));
    let j = choose|j: int| 0 <= j < cs.len() && (#[trigger] cs[j]).0@ == cs[i].0@;
    if j != i {
        lemma_str_lt_order(cs[i].0@, cs[j].0@, cs[i].0@);
    }
}

pub open spec fn is_branch(n: Option<KeyNode>) -> bool {
    n matches Some(KeyNode::Branch(_))
}

pub open spec fn is_leaf(n: Option<KeyNode>) -> bool {
    n matches Some(KeyNode::Leaf(_))
}

/// `a` is a strict prefix of `b`.
pub open spec fn is_proper_prefix(a: Seq<Seq<char>>, b: Seq<Seq<char>>) -> bool {
    a.len() < b.len() && b.take(a.len() as int) == a
}

/// Same kind of node, and the same value when both are leaves (branches
/// are compared through the nodes below them).
pub open spec fn same_node(a: Option<KeyNode>, b: Option<KeyNode>) -> bool {
    match (a, b) {
        (None, None) => true,
        (Some(KeyNode::Leaf(x)), Some(KeyNode::Leaf(y))) => x == y,
        (Some(KeyNode::Branch(_)), Some(KeyNode::Branch(_))) => true,
        _ => false,
    }
}

/// A strict prefix of `p` ends on a leaf, so nothing can be stored at `p`.
pub open spec fn blocked(t: KeyTree, p: Seq<Seq<char>>) -> bool {
    exists|k: int| 1 <= k < p.len() && is_leaf(#[trigger] node_at(t, p.take(k)))
}

/// `new` is `old` after storing `v` at `p`: nothing changes when `p` is empty
/// or blocked; otherwise `p` holds `v`, nothing remains below `p`, every
/// strict prefix of `p` is a branch, and every other path is unchanged.
pub open spec fn inserted(old: KeyTree, p: Seq<Seq<char>>, v: LocalizedValue, new: KeyTree) -> bool {
    if p.len() == 0 || blocked(old, p) {
        forall|q: Seq<Seq<char>>| #[trigger] same_node(node_at(new, q), node_at(old, q))
    } else {
        &&& node_at(new, p) == Some(KeyNode::Leaf(v))
        &&& forall|q: Seq<Seq<char>>| is_proper_prefix(p, q) ==> (#[trigger] node_at(new, q)) is None
        &&& forall|q: Seq<Seq<char>>| q.len() > 0 && is_proper_prefix(q, p)
            ==> is_branch(#[trigger] node_at(new, q))
        &&& forall|q: Seq<Seq<char>>| q != p && !is_proper_prefix(p, q) && !is_proper_prefix(q, p)
            ==> #[trigger] same_node(node_at(new, q), node_at(old, q))
    }
}

pub proof fn lemma_find_child_update<K: View<V = Seq<char>>, V>(cs: Seq<(K, V)>, pos: int, e: (K, V))
    requires
        keys_sorted(cs),
        0 <= pos < cs.len(),
        cs[pos].0@ == e.0@,
    ensures
        keys_sorted(cs.update(pos, e)),
        forall|name: Seq<char>| #[trigger] find_child(cs.update(pos, e), name)
            == if name == e.0@ { Some(e.1) } else { find_child(cs, name) },
{
    let cs2 = cs.update(pos, e);
    assert forall|i: int, j: int| 0 <= i < j < cs2.len() implies str_lt(#[trigger] cs2[i].0@, #[trigger] cs2[j].0@) by {
        assert(str_lt(cs[i].0@, cs[j].0@));
    }
    assert forall|name: Seq<char>| #[trigger] find_child(cs2, name)
        == if name == e.0@ { Some(e.1) } else { find_child(cs, name) } by {
        if name == e.0@ {
            lemma_find_child_at(cs2, pos);
        } else if has_key(cs2, name) {
            let j = choose|j: int| 0 <= j < cs2.len() && (#[trigger] cs2[j]).0@ == name;
            lemma_find_child_at(cs2, j);
            lemma_find_child_at(cs, j);
        } else if has_key(cs, name) {
            let j = choose|j: int| 0 <= j < cs.len() && (#[trigger] cs[j]).0@ == name;
            assert(cs2[j].0@ == name);
        }
    }
}

pub proof fn lemma_find_child_insert<K: View<V = Seq<char>>, V>(cs: Seq<(K, V)>, pos: int, e: (K, V))
    requires
        keys_sorted(cs),
        0 <= pos <= cs.len(),
        forall|j: int| 0 <= j < pos ==> str_lt(#[trigger] cs[j].0@, e.0@),
        pos == cs.len() || str_lt(e.0@, cs[pos].0@),
    ensures
        keys_sorted(cs.insert(pos, e)),
        forall|name: Seq<char>| #[trigger] find_child(cs.insert(pos, e), name)
            == if name == e.0@ { Some(e.1) } else { find_child(cs, name) },
{
    let cs2 = cs.insert(pos, e);
    assert forall|i: int, j: int| 0 <= i < j < cs2.len() implies str_lt(#[trigger] cs2[i].0@, #[trigger] cs2[j].0@) by {
        if j < pos {
            assert(str_lt(cs[i].0@, cs[j].0@));
        } else if j == pos {
        } else if i == pos {
            if j - 1 > pos {
                assert(str_lt(cs[pos].0@, cs[j - 1].0@));
                lemma_str_lt_order(e.0@, cs[pos].0@, cs[j - 1].0@);
            }
        } else if i < pos {
            assert(str_lt(cs[i].0@, e.0@));
            if j - 1 > pos {
                assert(str_lt(cs[pos].0@, cs[j - 1].0@));
                lemma_str_lt_order(e.0@, cs[pos].0@, cs[j - 1].0@);
            }
            lemma_str_lt_order(cs[i].0@, e.0@, cs[j - 1].0@);
        } else {
            assert(str_lt(cs[i - 1].0@, cs[j - 1].0@));
        }
    }
    assert forall|name: Seq<char>| #[trigger] find_child(cs2, name)
        == if name == e.0@ { Some(e.1) } else { find_child(cs, name) } by {
        if name == e.0@ {
            lemma_find_child_at(cs2, pos);
        } else if has_key(cs2, name) {
            let j = choose|j: int| 0 <= j < cs2.len() && (#[trigger] cs2[j]).0@ == name;
            lemma_find_child_at(cs2, j);
            if j < pos {
                lemma_find_child_at(cs, j);
            } else {
                lemma_find_child_at(cs, j - 1);
            }
        } else if has_key(cs, name) {
            let j = choose|j: int| 0 <= j < cs.len() && (#[trigger] cs[j]).0@ == name;
            if j < pos {
                assert(cs2[j].0@ == name);
            } else {
                assert(cs2[j + 1].0@ == name);
            }
        }
    }
}

/// Lifts `inserted` from the subtree under the first segment of `p` to the
/// whole tree, given how the two trees relate at that segment.
proof fn lemma_insert_lift(
    old_t: KeyTree,
    new_t: KeyTree,
    sub0: KeyTree,
    sub1: KeyTree,
    h: Seq<char>,
    p: Seq<Seq<char>>,
    value: LocalizedValue,
)
    requires
        p.len() >= 2,
        p[0] == h,
        inserted(sub0, p.drop_first(), value, sub1),
        forall|q: Seq<Seq<char>>| q.len() > 0 && q[0] != h ==>
            #[trigger] same_node(node_at(new_t, q), node_at(old_t, q)),
        forall|q: Seq<Seq<char>>| q.len() > 1 && q[0] == h ==>
            #[trigger] node_at(new_t, q) == node_at(sub1, q.drop_first()),
        forall|q: Seq<Seq<char>>| q.len() > 1 && q[0] == h ==>
            #[trigger] node_at(old_t, q) == node_at(sub0, q.drop_first()),
        is_branch(node_at(new_t, seq![h])),
        is_branch(node_at(old_t, seq![h])) || (node_at(old_t, seq![h]) is None
            && forall|q2: Seq<Seq<char>>| #[trigger] node_at(sub0, q2) is None),
    ensures
        inserted(old_t, p, value, new_t),
{
    let rest = p.drop_first();
    assert(p =~= seq![h] + rest);
    assert(node_at(old_t, p.take(1)) == node_at(old_t, seq![h])) by {
        assert(p.take(1) =~= seq![h]);
    }
    assert(blocked(old_t, p) == blocked(sub0, rest)) by {
        if blocked(old_t, p) {
            let k = choose|k: int| 1 <= k < p.len() && is_leaf(#[trigger] node_at(old_t, p.take(k)));
            assert(k != 1);
            assert(p.take(k).drop_first() =~= rest.take(k - 1));
            assert(p.take(k)[0] == h);
            assert(is_leaf(node_at(sub0, rest.take(k - 1))));
        }
        if blocked(sub0, rest) {
            let k = choose|k: int| 1 <= k < rest.len() && is_leaf(#[trigger] node_at(sub0, rest.take(k)));
            assert(p.take(k + 1).drop_first() =~= rest.take(k));
            assert(p.take(k + 1)[0] == h);
            assert(is_leaf(node_at(old_t, p.take(k + 1))));
        }
    }
    if blocked(sub0, rest) {
        assert forall|q: Seq<Seq<char>>| #[trigger] same_node(node_at(new_t, q), node_at(old_t, q)) by {
            if q.len() > 1 && q[0] == h {
                assert(same_node(node_at(sub1, q.drop_first()), node_at(sub0, q.drop_first())));
            } else if q.len() == 1 && q[0] == h {
                assert(q =~= seq![h]);
                if !is_branch(node_at(old_t, seq![h])) {
                    let k = choose|k: int| 1 <= k < rest.len() && is_leaf(#[trigger] node_at(sub0, rest.take(k)));
                    assert(node_at(sub0, rest.take(k)) is None);
                }
            }
        }
    } else {
        assert(node_at(new_t, p) == Some(KeyNode::Leaf(value)));
        assert forall|q: Seq<Seq<char>>| is_proper_prefix(p, q) implies (#[trigger] node_at(new_t, q)) is None by {
            assert(q[0] == q.take(p.len() as int)[0]);
            assert(q.drop_first().take(rest.len() as int) =~= q.take(p.len() as int).drop_first());
            assert(is_proper_prefix(rest, q.drop_first()));
        }
        assert forall|q: Seq<Seq<char>>| q.len() > 0 && is_proper_prefix(q, p)
            implies is_branch(#[trigger] node_at(new_t, q)) by {
            assert(q[0] == p.take(q.len() as int)[0]);
            if q.len() > 1 {
                assert(rest.take(q.len() - 1) =~= p.take(q.len() as int).drop_first());
                assert(is_proper_prefix(q.drop_first(), rest));
            } else {
                assert(q =~= seq![h]);
            }
        }
        assert forall|q: Seq<Seq<char>>| q != p && !is_proper_prefix(p, q) && !is_proper_prefix(q, p)
            implies #[trigger] same_node(node_at(new_t, q), node_at(old_t, q)) by {
            if q.len() > 0 && q[0] == h {
                if q.len() == 1 {
                    assert(q =~= p.take(1));
                } else {
                    let q2 = q.drop_first();
                    assert(q =~= seq![h] + q2);
                    if q2 == rest {
                        assert(q =~= p);
                    }
                    if is_proper_prefix(rest, q2) {
                        assert(q.take(p.len() as int) =~= p);
                    }
                    if is_proper_prefix(q2, rest) {
                        assert(p.take(q.len() as int) =~= q);
                    }
                }
            }
        }
    }
}

/// Position of `name` among sorted children: the first index whose key is
/// not smaller, and whether that key is `name` itself.
pub fn find_slot(cs: &Vec<(String, KeyNode)>, name: &str) -> (r: (usize, bool))
    requires
        keys_sorted(cs@),
    ensures
        r.0 <= cs@.len(),
        forall|j: int| 0 <= j < r.0 ==> str_lt(#[trigger] cs@[j].0@, name@),
        r.1 ==> r.0 < cs@.len() && cs@[r.0 as int].0@ == name@,
        !r.1 ==> r.0 == cs@.len() || str_lt(name@, cs@[r.0 as int].0@),
        r.1 == has_key(cs@, name@),
{
    let mut i: usize = 0;
    while i < cs.len()
        invariant
            keys_sorted(cs@),
            i <= cs@.len(),
            forall|j: int| 0 <= j < i ==> str_lt(#[trigger] cs@[j].0@, name@),
        decreases cs@.len() - i,
    {
        let c = order_str(cs[i].0.as_str(), name);
        if c >= 0 {
            proof {
                if c > 0 && has_key(cs@, name@) {
                    let j = choose|j: int| 0 <= j < cs@.len() && (#[trigger] cs@[j]).0@ == name@;
                    lemma_str_lt_order(name@, name@, name@);
                    if j > i {
                        assert(str_lt(cs@[i as int].0@, cs@[j].0@));
                        lemma_str_lt_order(name@, cs@[i as int].0@, cs@[j].0@);
                    }
                }
            }
            return (i, c == 0);
        }
        i = i + 1;
    }
    proof {
        if has_key(cs@, name@) {
            let j = choose|j: int| 0 <= j < cs@.len() && (#[trigger] cs@[j]).0@ == name@;
            lemma_str_lt_order(name@, name@, name@);
        }
    }
    (i, false)
}

impl KeyTree {
    pub fn new() -> (t: KeyTree)
        ensures
            t.children@.len() == 0,
            tree_wf(t),
    {
        KeyTree { children: Vec::new() }
    }

    /// Stores `value` at the leaf reached by `path`, creating the branches on
    /// the way. A path that runs through an existing leaf is left alone.
    pub fn insert(&mut self, path: &[String], value: LocalizedValue)
        requires
            tree_wf(*old(self)),
        ensures
            tree_wf(*final(self)),
            inserted(*old(self), views(path@), value, *final(self)),
    {
        self.insert_from(path, 0, value);
        assert(views(path@).subrange(0, path@.len() as int) =~= views(path@));
    }

    fn insert_from(&mut self, path: &[String], i: usize, value: LocalizedValue)
        requires
            tree_wf(*old(self)),
            i <= path@.len(),
        ensures
            tree_wf(*final(self)),
            inserted(*old(self), views(path@).subrange(i as int, path@.len() as int), value, *final(self)),
        decreases path@.len() - i,
    {
        let ghost p = views(path@).subrange(i as int, path@.len() as int);
        let ghost old_t = *self;
        if i >= path.len() {
            return;
        }
        let (pos, found) = find_slot(&self.children, path[i].as_str());
        let ghost h = p[0];
        assert(h == path@[i as int]@);
        proof { lemma_wf_from(*self, 0); }
        if i + 1 == path.len() {
            let entry = (path[i].clone(), KeyNode::Leaf(value));
            let ghost cs = self.children@;
            if found {
                self.children.set(pos, entry);
                proof { lemma_find_child_update(cs, pos as int, entry); }
            } else {
                self.children.insert(pos, entry);
                proof { lemma_find_child_insert(cs, pos as int, entry); }
            }
            proof {
                lemma_wf_from(*self, 0);
                assert forall|j: int| 0 <= j < self.children@.len() implies
                    node_wf((#[trigger] self.children@[j]).1) by {
                    if found {
                        if j != pos { assert(self.children@[j] == cs[j]); }
                    } else if j < pos {
                        assert(self.children@[j] == cs[j]);
                    } else if j > pos {
                        assert(self.children@[j] == cs[j - 1]);
                    }
                }
                assert(!blocked(old_t, p));
                assert forall|q: Seq<Seq<char>>| q != p && !is_proper_prefix(p, q) && !is_proper_prefix(q, p)
                    implies #[trigger] same_node(node_at(*self, q), node_at(old_t, q)) by {
                    if q.len() > 0 && q[0] == h {
                        if q.len() == 1 {
                            assert(q =~= p);
                        } else {
                            assert(q.take(1) =~= p);
                        }
                    }
                }
                assert forall|q: Seq<Seq<char>>| is_proper_prefix(p, q) implies (#[trigger] node_at(*self, q)) is None by {
                    assert(q[0] == q.take(1)[0]);
                }
            }
            return;
        }
        if found {
            if let KeyNode::Leaf(_) = &self.children[pos].1 {
                proof {
                    lemma_find_child_at(self.children@, pos as int);
                    assert(p.take(1) =~= seq![h]);
                    assert(node_at(old_t, p.take(1)) matches Some(KeyNode::Leaf(_)));
                    assert(blocked(old_t, p));
                }
                return;
            }
        } else {
            let ghost cs = self.children@;
            let entry = (path[i].clone(), KeyNode::Branch(KeyTree::new()));
            self.children.insert(pos, entry);
            proof {
                lemma_find_child_insert(cs, pos as int, entry);
                lemma_wf_from(*self, 0);
                assert forall|j: int| 0 <= j < self.children@.len() implies
                    node_wf((#[trigger] self.children@[j]).1) by {
                    if j < pos {
                        assert(self.children@[j] == cs[j]);
                    } else if j > pos {
                        assert(self.children@[j] == cs[j - 1]);
                    }
                }
            }
        }
        let ghost mid = *self;
        let ghost cs_mid = self.children@;
        proof {
            lemma_find_child_at(cs_mid, pos as int);
        }
        let (key, node) = self.children.remove(pos);
        let mut sub = match node {
            KeyNode::Branch(sub) => sub,
            KeyNode::Leaf(v) => {
                assert(false);
                KeyTree::new()
            },
        };
        let ghost sub0 = sub;
        sub.insert_from(path, i + 1, value);
        let ghost sub1 = sub;
        let ghost rest = views(path@).subrange(i + 1, path@.len() as int);
        assert(rest =~= p.drop_first());
        let entry = (key, KeyNode::Branch(sub));
        self.children.insert(pos, entry);
        proof {
            let cs2 = self.children@;
            assert(cs2 =~= cs_mid.update(pos as int, entry));
            lemma_find_child_update(cs_mid, pos as int, entry);
            lemma_wf_from(*self, 0);
            assert forall|j: int| 0 <= j < cs2.len() implies
                node_wf((#[trigger] cs2[j]).1) by {
                if j != pos {
                    assert(cs2[j] == cs_mid[j]);
                }
            }
            // The old node at `h`: an existing branch `sub0`, or nothing when it was just created.
            assert forall|q: Seq<Seq<char>>| q.len() > 0 && q[0] != h implies
                #[trigger] same_node(node_at(*self, q), node_at(old_t, q)) by {
                if !found {
                    lemma_find_child_insert(old_t.children@, pos as int, cs_mid[pos as int]);
                }
            }
            assert forall|q: Seq<Seq<char>>| q.len() > 1 && q[0] == h implies
                #[trigger] node_at(*self, q) == node_at(sub1, q.drop_first()) by {}
            assert forall|q: Seq<Seq<char>>| q.len() > 1 && q[0] == h implies
                #[trigger] node_at(old_t, q) == node_at(sub0, q.drop_first()) by {
                if !found {
                    lemma_find_child_insert(old_t.children@, pos as int, cs_mid[pos as int]);
                    assert(node_at(sub0, q.drop_first()) is None) by {
                        let q2 = q.drop_first();
                        assert(!has_key(sub0.children@, q2[0]));
                    }
                }
            }
            assert(is_branch(node_at(*self, seq![h])));
            if !found {
                lemma_find_child_insert(old_t.children@, pos as int, cs_mid[pos as int]);
                assert(node_at(old_t, seq![h]) is None);
                assert(sub0.children@.len() == 0);
                assert forall|q2: Seq<Seq<char>>| #[trigger] node_at(sub0, q2) is None by {
                    if q2.len() > 0 {
                        assert(!has_key(sub0.children@, q2[0]));
                    }
                }
            } else {
                assert(is_branch(node_at(old_t, seq![h])));
            }
            lemma_insert_lift(old_t, *self, sub0, sub1, h, p, value);
        }
    }

    /// The value at the leaf reached by `path`; `None` when the path is
    /// empty, missing, or ends on a branch.
    pub fn lookup(&self, path: &[String]) -> (r: Option<&LocalizedValue>)
        requires
            tree_wf(*self),
        ensures
            match r {
                Some(v) => leaf_at(*self, views(path@)) == Some(*v),
                None => leaf_at(*self, views(path@)) is None,
            },
    {
        let r = self.lookup_from(path, 0);
        assert(views(path@).subrange(0, path@.len() as int) =~= views(path@));
        r
    }

    fn lookup_from(&self, path: &[String], i: usize) -> (r: Option<&LocalizedValue>)
        requires
            tree_wf(*self),
            i <= path@.len(),
        ensures
            match r {
                Some(v) => leaf_at(*self, views(path@).subrange(i as int, path@.len() as int)) == Some(*v),
                None => leaf_at(*self, views(path@).subrange(i as int, path@.len() as int)) is None,
            },
        decreases path@.len() - i,
    {
        if i >= path.len() {
            return None;
        }
        let ghost p = views(path@).subrange(i as int, path@.len() as int);
        let (pos, found) = find_slot(&self.children, path[i].as_str());
        if !found {
            return None;
        }
        proof {
            lemma_find_child_at(self.children@, pos as int);
        }
        match &self.children[pos].1 {
            KeyNode::Leaf(v) => {
                if i + 1 == path.len() {
                    Some(v)
                } else {
                    None
                }
            },
            KeyNode::Branch(sub) => {
                if i + 1 == path.len() {
                    None
                } else {
                    proof {
                        lemma_wf_from(*self, 0);
                        assert(p.drop_first() =~= views(path@).subrange(i + 1, path@.len() as int));
                    }
                    sub.lookup_from(path, i + 1)
                }
            },
        }
    }
}

// ---------- Traversals ----------

/// Paths of the leaves below child `i` and its later siblings, in tree order.
pub open spec fn leaf_paths_from(t: KeyTree, i: int) -> Seq<Seq<Seq<char>>>
    decreases t, t.children@.len() - i,
{
    if i < 0 || i >= t.children@.len() {
        Seq::<Seq<Seq<char>>>::empty()
    } else {
        let k = t.children@[i].0@;
        (match t.children@[i].1 {
            KeyNode::Leaf(_) => seq![seq![k]],
            KeyNode::Branch(sub) => {
                proof { assert(decreases_to!(t => sub)); }
                leaf_paths_from(sub, 0).map_values(|p: Seq<Seq<char>>| seq![k] + p)
            },
        }) + leaf_paths_from(t, i + 1)
    }
}

/// Paths of every leaf of `t`, in tree order (children by increasing key).
pub open spec fn leaf_paths(t: KeyTree) -> Seq<Seq<Seq<char>>> {
    leaf_paths_from(t, 0)
}

/// Dotted keys of `paths` under the segments `prefix`.
pub open spec fn dotted(prefix: Seq<Seq<char>>, paths: Seq<Seq<Seq<char>>>) -> Seq<Seq<char>> {
    paths.map_values(|p: Seq<Seq<char>>| join_spec(prefix + p, '.'))
}

/// Paths of `source` reported missing from `target`, below child `i` and its
/// later siblings, in tree order: a source leaf whose target counterpart is
/// absent or a branch, a source branch whose counterpart is a leaf, and, below
/// a source branch whose counterpart is a branch or absent, what is missing there.
pub open spec fn diff_from(source: KeyTree, target: Option<KeyTree>, i: int) -> Seq<Seq<Seq<char>>>
    decreases source, source.children@.len() - i,
{
    if i < 0 || i >= source.children@.len() {
        Seq::<Seq<Seq<char>>>::empty()
    } else {
        let k = source.children@[i].0@;
        let other = match target {
            Some(tt) => find_child(tt.children@, k),
            None => None,
        };
        (match source.children@[i].1 {
            KeyNode::Leaf(_) => match other {
                Some(KeyNode::Leaf(_)) => Seq::<Seq<Seq<char>>>::empty(),
                _ => seq![seq![k]],
            },
            KeyNode::Branch(sub) => {
                proof { assert(decreases_to!(source => sub)); }
                match other {
                    Some(KeyNode::Leaf(_)) => seq![seq![k]],
                    Some(KeyNode::Branch(tgt)) =>
                        diff_from(sub, Some(tgt), 0).map_values(|p: Seq<Seq<char>>| seq![k] + p),
                    None => diff_from(sub, None, 0).map_values(|p: Seq<Seq<char>>| seq![k] + p),
                }
            },
        }) + diff_from(source, target, i + 1)
    }
}

proof fn lemma_dotted_concat(prefix: Seq<Seq<char>>, a: Seq<Seq<Seq<char>>>, b: Seq<Seq<Seq<char>>>)
    ensures
        dotted(prefix, a + b) == dotted(prefix, a) + dotted(prefix, b),
{
    assert(dotted(prefix, a + b) =~= dotted(prefix, a) + dotted(prefix, b));
}

proof fn lemma_dotted_nest(prefix: Seq<Seq<char>>, k: Seq<char>, a: Seq<Seq<Seq<char>>>)
    ensures
        dotted(prefix, a.map_values(|p: Seq<Seq<char>>| seq![k] + p)) == dotted(prefix.push(k), a),
{
    let lhs = dotted(prefix, a.map_values(|p: Seq<Seq<char>>| seq![k] + p));
    let rhs = dotted(prefix.push(k), a);
    assert forall|j: int| 0 <= j < a.len() implies #[trigger] lhs[j] == rhs[j] by {
        assert(prefix + (seq![k] + a[j]) =~= prefix.push(k) + a[j]);
    }
    assert(lhs =~= rhs);
}

/// Appends the dotted keys of every leaf of `tree`, below `path`, to `out`.
pub(crate) fn collect_keys(tree: &KeyTree, path: &mut Vec<String>, out: &mut Vec<String>)
    ensures
        views(final(path)@) == views(old(path)@),
        views(final(out)@) == views(old(out)@) + dotted(views(old(path)@), leaf_paths(*tree)),
    decreases tree,
{
    let ghost prefix = views(path@);
    let ghost out0 = views(out@);
    let mut i: usize = 0;
    while i < tree.children.len()
        invariant
            i <= tree.children@.len(),
            views(path@) == prefix,
            views(out@) + dotted(prefix, leaf_paths_from(*tree, i as int))
                == out0 + dotted(prefix, leaf_paths(*tree)),
        decreases tree.children@.len() - i,
    {
        let ghost k = tree.children@[i as int].0@;
        let ghost rest = leaf_paths_from(*tree, i + 1);
        path.push(tree.children[i].0.clone());
        assert(views(path@) =~= prefix.push(k));
        match &tree.children[i].1 {
            KeyNode::Leaf(_) => {
                out.push(join_char(path.as_slice(), '.'));
                proof {
                    lemma_dotted_concat(prefix, seq![seq![k]], rest);
                    assert(prefix + seq![k] =~= prefix.push(k));
                    assert(dotted(prefix, seq![seq![k]]) =~= seq![join_spec(prefix.push(k), '.')]);
                }
            },
            KeyNode::Branch(sub) => {
                proof { assert(decreases_to!(*tree => *sub)); }
                collect_keys(sub, path, out);
                proof {
                    let mapped = leaf_paths_from(*sub, 0).map_values(|p: Seq<Seq<char>>| seq![k] + p);
                    lemma_dotted_concat(prefix, mapped, rest);
                    lemma_dotted_nest(prefix, k, leaf_paths(*sub));
                }
            },
        }
        let ghost pp = path@;
        path.pop();
        assert(views(path@) =~= views(pp).drop_last());
        assert(views(path@) =~= prefix);
        i = i + 1;
    }
}

/// Appends the dotted keys of the paths of `source` missing from `target`,
/// below `path`, to `out`.
pub(crate) fn diff_tree(source: &KeyTree, target: Option<&KeyTree>, path: &mut Vec<String>, out: &mut Vec<String>)
    requires
        target matches Some(t) ==> keys_sorted(t.children@),
        target matches Some(t) ==> tree_wf(*t),
    ensures
        views(final(path)@) == views(old(path)@),
        views(final(out)@) == views(old(out)@) + dotted(views(old(path)@),
            diff_from(*source, match target { Some(t) => Some(*t), None => None }, 0)),
    decreases source,
{
    let ghost prefix = views(path@);
    let ghost out0 = views(out@);
    let ghost tgt = match target { Some(t) => Some(*t), None => None };
    let mut i: usize = 0;
    while i < source.children.len()
        invariant
            i <= source.children@.len(),
            views(path@) == prefix,
            tgt == match target { Some(t) => Some(*t), None => None },
            target matches Some(t) ==> tree_wf(*t),
            views(out@) + dotted(prefix, diff_from(*source, tgt, i as int))
                == out0 + dotted(prefix, diff_from(*source, tgt, 0)),
        decreases source.children@.len() - i,
    {
        let ghost k = source.children@[i as int].0@;
        let ghost rest = diff_from(*source, tgt, i + 1);
        let name = &source.children[i].0;
        let other: Option<&KeyNode> = match target {
            Some(t) => {
                let (pos, found) = find_slot(&t.children, name.as_str());
                if found {
                    proof { lemma_find_child_at(t.children@, pos as int); }
                    Some(&t.children[pos].1)
                } else {
                    None
                }
            },
            None => None,
        };
        assert(match other { Some(n) => Some(*n), None => None } == match tgt {
            Some(tt) => find_child(tt.children@, k),
            None => None,
        });
        path.push(name.clone());
        assert(views(path@) =~= prefix.push(k));
        proof {
            assert(prefix + seq![k] =~= prefix.push(k));
            assert(dotted(prefix, seq![seq![k]]) =~= seq![join_spec(prefix.push(k), '.')]);
        }
        match (&source.children[i].1, other) {
            (KeyNode::Leaf(_), None) => {
                out.push(join_char(path.as_slice(), '.'));
                proof { lemma_dotted_concat(prefix, seq![seq![k]], rest); }
            },
            (KeyNode::Leaf(_), Some(KeyNode::Leaf(_))) => {
                proof { lemma_dotted_concat(prefix, Seq::<Seq<Seq<char>>>::empty(), rest); }
            },
            (KeyNode::Branch(sub), Some(KeyNode::Branch(t2))) => {
                proof {
                    assert(decreases_to!(*source => *sub));
                    let t = target->0;
                    lemma_wf_from(*t, 0);
                    let pos = choose|j: int| 0 <= j < t.children@.len() && (#[trigger] t.children@[j]).0@ == k;
                    lemma_find_child_at(t.children@, pos);
                    assert(node_wf(t.children@[pos].1));
                }
                diff_tree(sub, Some(t2), path, out);
                proof {
                    let mapped = diff_from(*sub, Some(*t2), 0).map_values(|p: Seq<Seq<char>>| seq![k] + p);
                    lemma_dotted_concat(prefix, mapped, rest);
                    lemma_dotted_nest(prefix, k, diff_from(*sub, Some(*t2), 0));
                }
            },
            (KeyNode::Branch(sub), None) => {
                proof { assert(decreases_to!(*source => *sub)); }
                diff_tree(sub, None, path, out);
                proof {
                    let mapped = diff_from(*sub, None, 0).map_values(|p: Seq<Seq<char>>| seq![k] + p);
                    lemma_dotted_concat(prefix, mapped, rest);
                    lemma_dotted_nest(prefix, k, diff_from(*sub, None, 0));
                }
            },
            _ => {
                out.push(join_char(path.as_slice(), '.'));
                proof { lemma_dotted_concat(prefix, seq![seq![k]], rest); }
            },
        }
        let ghost pp = path@;
        path.pop();
        assert(views(path@) =~= views(pp).drop_last());
        assert(views(path@) =~= prefix);
        i = i + 1;
    }
}


/// The leaves below child `i` and its later siblings whose file is `file`
/// (every leaf when `file` is `None`), with their paths, in tree order.
pub open spec fn file_entries_from(t: KeyTree, i: int, file: Option<Seq<char>>) -> Seq<(Seq<Seq<char>>, LocalizedValue)>
    decreases t, t.children@.len() - i,
{
    if i < 0 || i >= t.children@.len() {
        Seq::<(Seq<Seq<char>>, LocalizedValue)>::empty()
    } else {
        let k = t.children@[i].0@;
        (match t.children@[i].1 {
            KeyNode::Leaf(v) => if file is None || file == Some(v.file@) {
                seq![(seq![k], v)]
            } else {
                Seq::<(Seq<Seq<char>>, LocalizedValue)>::empty()
            },
            KeyNode::Branch(sub) => {
                proof { assert(decreases_to!(t => sub)); }
                file_entries_from(sub, 0, file).map_values(
                    |e: (Seq<Seq<char>>, LocalizedValue)| (seq![k] + e.0, e.1))
            },
        }) + file_entries_from(t, i + 1, file)
    }
}

/// The leaves of `t` defined in `file` (every leaf when `file` is `None`), in tree order.
pub open spec fn file_entries(t: KeyTree, file: Option<Seq<char>>) -> Seq<(Seq<Seq<char>>, LocalizedValue)> {
    file_entries_from(t, 0, file)
}

/// Entries with their paths joined into dotted keys under the segments `prefix`.
pub open spec fn dotted_entries(prefix: Seq<Seq<char>>, es: Seq<(Seq<Seq<char>>, LocalizedValue)>) -> Seq<(Seq<char>, LocalizedValue)> {
    es.map_values(|e: (Seq<Seq<char>>, LocalizedValue)| (join_spec(prefix + e.0, '.'), e.1))
}

/// Dotted keys and values of `(key, &value)` pairs.
pub open spec fn entry_views<'a>(v: Seq<(String, &'a LocalizedValue)>) -> Seq<(Seq<char>, LocalizedValue)> {
    v.map_values(|e: (String, &'a LocalizedValue)| (e.0@, *e.1))
}

pub open spec fn opt_view(s: Option<&str>) -> Option<Seq<char>> {
    match s {
        Some(x) => Some(x@),
        None => None,
    }
}

proof fn lemma_dotted_entries_concat(prefix: Seq<Seq<char>>, a: Seq<(Seq<Seq<char>>, LocalizedValue)>, b: Seq<(Seq<Seq<char>>, LocalizedValue)>)
    ensures
        dotted_entries(prefix, a + b) == dotted_entries(prefix, a) + dotted_entries(prefix, b),
{
    assert(dotted_entries(prefix, a + b) =~= dotted_entries(prefix, a) + dotted_entries(prefix, b));
}

proof fn lemma_dotted_entries_nest(prefix: Seq<Seq<char>>, k: Seq<char>, a: Seq<(Seq<Seq<char>>, LocalizedValue)>)
    ensures
        dotted_entries(prefix, a.map_values(|e: (Seq<Seq<char>>, LocalizedValue)| (seq![k] + e.0, e.1)))
            == dotted_entries(prefix.push(k), a),
{
    let lhs = dotted_entries(prefix, a.map_values(|e: (Seq<Seq<char>>, LocalizedValue)| (seq![k] + e.0, e.1)));
    let rhs = dotted_entries(prefix.push(k), a);
    assert forall|j: int| 0 <= j < a.len() implies #[trigger] lhs[j] == rhs[j] by {
        assert(prefix + (seq![k] + a[j].0) =~= prefix.push(k) + a[j].0);
    }
    assert(lhs =~= rhs);
}

/// Filtering by a property that a map keeps commutes with the map.
pub proof fn lemma_filter_map_commute<A, B>(s: Seq<A>, g: spec_fn(A) -> B, p: spec_fn(A) -> bool, q: spec_fn(B) -> bool)
    requires
        forall|x: A| #[trigger] q(g(x)) == p(x),
    ensures
        s.filter(p).map_values(g) == s.map_values(g).filter(q),
    decreases s.len(),
{
    reveal(Seq::filter);
    if s.len() > 0 {
        lemma_filter_map_commute(s.drop_last(), g, p, q);
        assert(s.map_values(g).drop_last() =~= s.drop_last().map_values(g));
        assert(s.map_values(g).last() == g(s.last()));
        assert(q(g(s.last())) == p(s.last()));
        if p(s.last()) {
            assert(s.drop_last().filter(p).push(s.last()).map_values(g)
                =~= s.drop_last().filter(p).map_values(g).push(g(s.last())));
        }
    } else {
        assert(s.filter(p).map_values(g) =~= Seq::<B>::empty());
        assert(s.map_values(g) =~= Seq::<B>::empty());
    }
}

/// The leaves of `t` (from child `i` on) defined in `f` are those of all
/// its leaves that come from `f`, in the same order.
pub proof fn lemma_file_entries_from_filter(t: KeyTree, i: int, f: Seq<char>)
    ensures
        file_entries_from(t, i, Some(f))
            == file_entries_from(t, i, None).filter(|e: (Seq<Seq<char>>, LocalizedValue)| e.1.file@ == f),
    decreases t, t.children@.len() - i,
{
    let p = |e: (Seq<Seq<char>>, LocalizedValue)| e.1.file@ == f;
    reveal_with_fuel(Seq::filter, 2);
    if i < 0 || i >= t.children@.len() {
        assert(file_entries_from(t, i, None).filter(p) =~= Seq::<(Seq<Seq<char>>, LocalizedValue)>::empty());
    } else {
        lemma_file_entries_from_filter(t, i + 1, f);
        let k = t.children@[i].0@;
        let rest = file_entries_from(t, i + 1, None);
        match t.children@[i].1 {
            KeyNode::Leaf(v) => {
                let head = seq![(seq![k], v)];
                assert(head.drop_last() =~= Seq::<(Seq<Seq<char>>, LocalizedValue)>::empty());
                if v.file@ == f {
                    assert(head.filter(p) =~= head);
                } else {
                    assert(head.filter(p) =~= Seq::<(Seq<Seq<char>>, LocalizedValue)>::empty());
                }
                Seq::filter_distributes_over_add(head, rest, p);
            },
            KeyNode::Branch(sub) => {
                assert(decreases_to!(t => sub));
                lemma_file_entries_from_filter(sub, 0, f);
                let g = |e: (Seq<Seq<char>>, LocalizedValue)| (seq![k] + e.0, e.1);
                let all = file_entries_from(sub, 0, None);
                lemma_filter_map_commute(all, g, p, p);
                assert(file_entries_from(sub, 0, Some(f)).map_values(g) == all.filter(p).map_values(g));
                Seq::filter_distributes_over_add(all.map_values(g), rest, p);
                assert(file_entries_from(t, i, None) == all.map_values(g) + rest);
                assert(file_entries_from(t, i, Some(f)) == file_entries_from(sub, 0, Some(f)).map_values(g)
                    + file_entries_from(t, i + 1, Some(f)));
            },
        }
    }
}

/// Appends the dotted keys and values of the leaves of `tree` defined in
/// `file` (every leaf when `file` is `None`), below `path`, to `out`.
pub(crate) fn collect_file_entries<'a>(
    tree: &'a KeyTree,
    file: Option<&str>,
    path: &mut Vec<String>,
    out: &mut Vec<(String, &'a LocalizedValue)>,
)
    ensures
        views(final(path)@) == views(old(path)@),
        entry_views(final(out)@) == entry_views(old(out)@)
            + dotted_entries(views(old(path)@), file_entries(*tree, opt_view(file))),
    decreases tree,
{
    let ghost prefix = views(path@);
    let ghost out0 = entry_views(out@);
    let ghost f = opt_view(file);
    let mut i: usize = 0;
    while i < tree.children.len()
        invariant
            i <= tree.children@.len(),
            views(path@) == prefix,
            f == opt_view(file),
            entry_views(out@) + dotted_entries(prefix, file_entries_from(*tree, i as int, f))
                == out0 + dotted_entries(prefix, file_entries(*tree, f)),
        decreases tree.children@.len() - i,
    {
        let ghost k = tree.children@[i as int].0@;
        let ghost rest = file_entries_from(*tree, i + 1, f);
        path.push(tree.children[i].0.clone());
        assert(views(path@) =~= prefix.push(k));
        let ghost e0 = entry_views(out@);
        match &tree.children[i].1 {
            KeyNode::Leaf(v) => {
                let keep = match file {
                    Some(fl) => str_eq(v.file.as_str(), fl),
                    None => true,
                };
                if keep {
                    out.push((join_char(path.as_slice(), '.'), v));
                    proof {
                        assert(entry_views(out@) =~= e0.push((join_spec(prefix.push(k), '.'), *v)));
                        lemma_dotted_entries_concat(prefix, seq![(seq![k], *v)], rest);
                        assert(prefix + seq![k] =~= prefix.push(k));
                        assert(dotted_entries(prefix, seq![(seq![k], *v)]) =~= seq![(join_spec(prefix.push(k), '.'), *v)]);
                    }
                } else {
                    proof {
                        lemma_dotted_entries_concat(prefix, Seq::<(Seq<Seq<char>>, LocalizedValue)>::empty(), rest);
                        assert(dotted_entries(prefix, Seq::<(Seq<Seq<char>>, LocalizedValue)>::empty()) =~= Seq::<(Seq<char>, LocalizedValue)>::empty());
                    }
                }
            },
            KeyNode::Branch(sub) => {
                proof { assert(decreases_to!(*tree => *sub)); }
                collect_file_entries(sub, file, path, out);
                proof {
                    let mapped = file_entries_from(*sub, 0, f).map_values(
                        |e: (Seq<Seq<char>>, LocalizedValue)| (seq![k] + e.0, e.1));
                    lemma_dotted_entries_concat(prefix, mapped, rest);
                    lemma_dotted_entries_nest(prefix, k, file_entries(*sub, f));
                }
            },
        }
        let ghost pp = path@;
        path.pop();
        assert(views(path@) =~= views(pp).drop_last());
        assert(views(path@) =~= prefix);
        i = i + 1;
    }
}


/// A leaf of a file other than `file`.
pub open spec fn kept_leaf(n: Option<KeyNode>, file: Seq<char>) -> bool {
    n matches Some(KeyNode::Leaf(v)) && v.file@ != file
}

/// A leaf of `file`.
pub open spec fn from_file(n: Option<KeyNode>, file: Seq<char>) -> bool {
    n matches Some(KeyNode::Leaf(v)) && v.file@ == file
}

/// Some leaf of `t` comes from `file`.
pub open spec fn has_file_leaf(t: KeyTree, file: Seq<char>) -> bool {
    exists|q: Seq<Seq<char>>| #[trigger] from_file(node_at(t, q), file)
}

/// `new` is `old` without the leaves of `file`: every other leaf stays
/// where it was, no leaf appears, and every branch of `new` was a branch of `old`.
pub open spec fn pruned(old: KeyTree, file: Seq<char>, new: KeyTree) -> bool {
    &&& forall|q: Seq<Seq<char>>| is_leaf(#[trigger] node_at(new, q))
        ==> node_at(new, q) == node_at(old, q) && kept_leaf(node_at(old, q), file)
    &&& forall|q: Seq<Seq<char>>| kept_leaf(#[trigger] node_at(old, q), file) ==> node_at(new, q) == node_at(old, q)
    &&& forall|q: Seq<Seq<char>>| is_branch(#[trigger] node_at(new, q)) ==> is_branch(node_at(old, q))
}

/// How a child of the pruned tree relates to the child of the same name before.
pub open spec fn child_pruned(n2: Option<KeyNode>, n: Option<KeyNode>, file: Seq<char>) -> bool {
    match n {
        None => n2 is None,
        Some(KeyNode::Leaf(v)) => if v.file@ == file { n2 is None } else { n2 == n },
        Some(KeyNode::Branch(s)) => exists|s2: KeyTree| #![trigger pruned(s, file, s2)]
            pruned(s, file, s2) && (n2 == Some(KeyNode::Branch(s2)) || (n2 is None && s2.children@.len() == 0)),
    }
}

proof fn lemma_empty_tree_nodes(t: KeyTree, q: Seq<Seq<char>>)
    requires
        t.children@.len() == 0,
    ensures
        node_at(t, q) is None,
{
    if q.len() > 0 {
        assert(!has_key(t.children@, q[0]));
    }
}

proof fn lemma_pruned_lift(old: KeyTree, new: KeyTree, file: Seq<char>)
    requires
        forall|name: Seq<char>| child_pruned(#[trigger] find_child(new.children@, name), find_child(old.children@, name), file),
    ensures
        pruned(old, file, new),
{
    assert forall|q: Seq<Seq<char>>| is_leaf(#[trigger] node_at(new, q))
        implies node_at(new, q) == node_at(old, q) && kept_leaf(node_at(old, q), file) by {
        let h = q[0];
        assert(child_pruned(find_child(new.children@, h), find_child(old.children@, h), file));
        if q.len() > 1 {
            match find_child(old.children@, h) {
                Some(KeyNode::Branch(s)) => {
                    let s2 = choose|s2: KeyTree| #![trigger pruned(s, file, s2)]
                        pruned(s, file, s2) && (find_child(new.children@, h) == Some(KeyNode::Branch(s2))
                        || (find_child(new.children@, h) is None && s2.children@.len() == 0));
                    assert(is_leaf(node_at(s2, q.drop_first())));
                },
                _ => {},
            }
        }
    }
    assert forall|q: Seq<Seq<char>>| kept_leaf(#[trigger] node_at(old, q), file)
        implies node_at(new, q) == node_at(old, q) by {
        let h = q[0];
        assert(child_pruned(find_child(new.children@, h), find_child(old.children@, h), file));
        if q.len() > 1 {
            match find_child(old.children@, h) {
                Some(KeyNode::Branch(s)) => {
                    let s2 = choose|s2: KeyTree| #![trigger pruned(s, file, s2)]
                        pruned(s, file, s2) && (find_child(new.children@, h) == Some(KeyNode::Branch(s2))
                        || (find_child(new.children@, h) is None && s2.children@.len() == 0));
                    assert(kept_leaf(node_at(s, q.drop_first()), file));
                    if find_child(new.children@, h) is None {
                        lemma_empty_tree_nodes(s2, q.drop_first());
                    }
                },
                _ => {},
            }
        }
    }
    assert forall|q: Seq<Seq<char>>| is_branch(#[trigger] node_at(new, q)) implies is_branch(node_at(old, q)) by {
        let h = q[0];
        assert(child_pruned(find_child(new.children@, h), find_child(old.children@, h), file));
        if q.len() > 1 {
            match find_child(old.children@, h) {
                Some(KeyNode::Branch(s)) => {
                    let s2 = choose|s2: KeyTree| #![trigger pruned(s, file, s2)]
                        pruned(s, file, s2) && (find_child(new.children@, h) == Some(KeyNode::Branch(s2))
                        || (find_child(new.children@, h) is None && s2.children@.len() == 0));
                    assert(is_branch(node_at(s2, q.drop_first())));
                },
                _ => {},
            }
        }
    }
}

/// Whether child node `n` holds a leaf of `file`.
pub open spec fn child_has_file_leaf(n: KeyNode, file: Seq<char>) -> bool {
    match n {
        KeyNode::Leaf(v) => v.file@ == file,
        KeyNode::Branch(s) => has_file_leaf(s, file),
    }
}

proof fn lemma_has_file_leaf_children(t: KeyTree, file: Seq<char>)
    requires
        keys_sorted(t.children@),
    ensures
        has_file_leaf(t, file) <==> exists|j: int| 0 <= j < t.children@.len()
            && child_has_file_leaf(#[trigger] t.children@[j].1, file),
{
    if has_file_leaf(t, file) {
        let q = choose|q: Seq<Seq<char>>| #[trigger] from_file(node_at(t, q), file);
        let j = choose|j: int| 0 <= j < t.children@.len() && (#[trigger] t.children@[j]).0@ == q[0];
        lemma_find_child_at(t.children@, j);
        if q.len() > 1 {
            match t.children@[j].1 {
                KeyNode::Branch(s) => {
                    assert(from_file(node_at(s, q.drop_first()), file));
                },
                _ => {},
            }
        }
        assert(child_has_file_leaf(t.children@[j].1, file));
    }
    if exists|j: int| 0 <= j < t.children@.len() && child_has_file_leaf(#[trigger] t.children@[j].1, file) {
        let j = choose|j: int| 0 <= j < t.children@.len() && child_has_file_leaf(#[trigger] t.children@[j].1, file);
        let k = t.children@[j].0@;
        lemma_find_child_at(t.children@, j);
        match t.children@[j].1 {
            KeyNode::Leaf(v) => {
                assert(from_file(node_at(t, seq![k]), file));
            },
            KeyNode::Branch(s) => {
                let q = choose|q: Seq<Seq<char>>| #[trigger] from_file(node_at(s, q), file);
                assert(q.len() > 0);
                let q2 = seq![k] + q;
                assert(q2.drop_first() =~= q);
                assert(from_file(node_at(t, q2), file));
            },
        }
    }
}

impl KeyTree {
    /// Removes every leaf of `file` and the branches left empty by it;
    /// `true` when some leaf was removed.
    pub fn prune_leaves_from_file(&mut self, file: &str) -> (r: bool)
        requires
            tree_wf(*old(self)),
        ensures
            tree_wf(*final(self)),
            pruned(*old(self), file@, *final(self)),
            r == has_file_leaf(*old(self), file@),
        decreases *old(self),
    {
        let ghost old_t = *self;
        let ghost orig = self.children@;
        let mut olds: Vec<(String, KeyNode)> = Vec::new();
        std::mem::swap(&mut olds, &mut self.children);
        proof { lemma_wf_from(old_t, 0); }
        let mut kept: Vec<(String, KeyNode)> = Vec::new();
        let mut changed: bool = false;
        let mut i: usize = 0;
        let n0 = olds.len();
        assert(n0 == orig.len());
        while olds.len() > 0
            invariant
                old_t == *old(self),
                orig.len() == n0,
                orig == old_t.children@,
                keys_sorted(orig),
                forall|j: int| 0 <= j < orig.len() ==> node_wf((#[trigger] orig[j]).1),
                i <= orig.len(),
                olds@ == orig.subrange(i as int, orig.len() as int),
                keys_sorted(kept@),
                forall|a: int, j: int| 0 <= a < kept@.len() && i <= j < orig.len()
                    ==> str_lt(#[trigger] kept@[a].0@, #[trigger] orig[j].0@),
                forall|a: int| 0 <= a < kept@.len() ==> node_wf((#[trigger] kept@[a]).1),
                forall|name: Seq<char>| child_pruned(#[trigger] find_child(kept@, name),
                    find_child(orig.take(i as int), name), file@),
                changed == exists|j: int| 0 <= j < i && child_has_file_leaf(#[trigger] orig[j].1, file@),
            decreases olds@.len(),
        {
            let ghost k0 = kept@;
            let ghost e = orig[i as int];
            let (key, node) = olds.remove(0);
            assert(e == (key, node));
            assert(i < orig.len());
            proof {
                assert(keys_sorted(orig.take(i + 1)));
                assert(keys_sorted(orig.take(i as int)));
            }
            let ghost pre = orig.take(i as int);
            assert(orig.take(i + 1) =~= pre.push(e));
            let mut added: Option<(String, KeyNode)> = None;
            match node {
                KeyNode::Leaf(v) => {
                    if str_eq(v.file.as_str(), file) {
                        changed = true;
                    } else {
                        added = Some((key, KeyNode::Leaf(v)));
                    }
                },
                KeyNode::Branch(sub) => {
                    let mut sub = sub;
                    proof {
                        assert(0 <= i < old(self).children@.len());
                        assert(old(self).children@[i as int] == e);
                        assert(decreases_to!(*old(self) => old(self).children));
                        assert(decreases_to!(old(self).children => old(self).children@));
                        assert(decreases_to!(old(self).children@ => old(self).children@[i as int]));
                        assert(decreases_to!(e => e.1));
                        assert(e.1 == KeyNode::Branch(sub));
                        assert(decreases_to!(e.1 => sub));
                        assert(node_wf(orig[i as int].1));
                    }
                    let ghost s0 = sub;
                    let sub_changed = sub.prune_leaves_from_file(file);
                    if sub_changed {
                        changed = true;
                    }
                    if sub.children.len() > 0 {
                        added = Some((key, KeyNode::Branch(sub)));
                    } else {
                        proof {
                            assert(pruned(s0, file@, sub));
                        }
                    }
                },
            }
            match added {
                Some(entry) => {
                    kept.push(entry);
                    proof {
                        lemma_find_child_insert(k0, k0.len() as int, entry);
                        assert(k0.insert(k0.len() as int, entry) =~= kept@);
                    }
                },
                None => {},
            }
            proof {
                // every name: relation of the new child with the old one
                lemma_find_child_insert(pre, pre.len() as int, e);
                assert(pre.insert(pre.len() as int, e) =~= pre.push(e));
                assert forall|name: Seq<char>| child_pruned(#[trigger] find_child(kept@, name),
                    find_child(orig.take(i + 1), name), file@) by {
                    assert(child_pruned(find_child(k0, name), find_child(pre, name), file@));
                    if name == e.0@ {
                        assert(!has_key(pre, name)) by {
                            if has_key(pre, name) {
                                let j = choose|j: int| 0 <= j < pre.len() && (#[trigger] pre[j]).0@ == name;
                                assert(str_lt(orig[j].0@, orig[i as int].0@));
                                lemma_str_lt_order(name, name, name);
                            }
                        }
                        assert(!has_key(k0, name)) by {
                            if has_key(k0, name) {
                                let a = choose|a: int| 0 <= a < k0.len() && (#[trigger] k0[a]).0@ == name;
                                assert(str_lt(k0[a].0@, orig[i as int].0@));
                                lemma_str_lt_order(name, name, name);
                            }
                        }
                    }
                }
                assert forall|a: int, j: int| 0 <= a < kept@.len() && i + 1 <= j < orig.len()
                    implies str_lt(#[trigger] kept@[a].0@, #[trigger] orig[j].0@) by {
                    if a < k0.len() {
                        assert(kept@[a] == k0[a]);
                    } else {
                        assert(str_lt(orig[i as int].0@, orig[j].0@));
                    }
                }
                assert forall|a: int| 0 <= a < kept@.len() implies node_wf((#[trigger] kept@[a]).1) by {
                    if a < k0.len() {
                        assert(kept@[a] == k0[a]);
                    }
                }
                assert(changed == exists|j: int| 0 <= j < i + 1 && child_has_file_leaf(#[trigger] orig[j].1, file@)) by {
                    if exists|j: int| 0 <= j < i + 1 && child_has_file_leaf(#[trigger] orig[j].1, file@) {
                        let j = choose|j: int| 0 <= j < i + 1 && child_has_file_leaf(#[trigger] orig[j].1, file@);
                        if j < i {
                            assert(exists|j2: int| 0 <= j2 < i && child_has_file_leaf(#[trigger] orig[j2].1, file@));
                        }
                    }
                }
            }
            i = i + 1;
        }
        proof {
            assert(orig.take(orig.len() as int) =~= orig);
        }
        self.children = kept;
        proof {
            lemma_wf_from(*self, 0);
            lemma_pruned_lift(old_t, *self, file@);
            lemma_has_file_leaf_children(old_t, file@);
        }
        changed
    }
}

/// `new` is `old` after storing each `(path, value)` of `items` in turn.
pub open spec fn inserted_seq(old: KeyTree, items: Seq<(Seq<Seq<char>>, LocalizedValue)>, new: KeyTree) -> bool
    decreases items.len(),
{
    if items.len() == 0 {
        forall|q: Seq<Seq<char>>| #[trigger] same_node(node_at(new, q), node_at(old, q))
    } else {
        exists|mid: KeyTree| #![trigger inserted(mid, items.last().0, items.last().1, new)]
            inserted_seq(old, items.drop_last(), mid) && tree_wf(mid)
            && inserted(mid, items.last().0, items.last().1, new)
    }
}

/// Storing nothing leaves a tree as it is.
pub proof fn lemma_inserted_seq_empty(t: KeyTree)
    ensures
        inserted_seq(t, Seq::empty(), t),
{
}

/// One more store extends a sequence of stores.
pub proof fn lemma_inserted_seq_step(
    old: KeyTree,
    items: Seq<(Seq<Seq<char>>, LocalizedValue)>,
    k: int,
    mid: KeyTree,
    new: KeyTree,
)
    requires
        0 <= k < items.len(),
        inserted_seq(old, items.take(k), mid),
        tree_wf(mid),
        inserted(mid, items[k].0, items[k].1, new),
    ensures
        inserted_seq(old, items.take(k + 1), new),
{
    assert(items.take(k + 1).drop_last() =~= items.take(k));
    assert(items.take(k + 1).last() == items[k]);
}

/// Trees holding the same nodes at every path.
pub open spec fn same_trees(a: KeyTree, b: KeyTree) -> bool {
    forall|q: Seq<Seq<char>>| #[trigger] same_node(node_at(a, q), node_at(b, q))
}

proof fn lemma_inserted_same(mid: KeyTree, p: Seq<Seq<char>>, v: LocalizedValue, b: KeyTree, c: KeyTree)
    requires
        inserted(mid, p, v, b),
        same_trees(c, b),
    ensures
        inserted(mid, p, v, c),
{
    assert forall|q: Seq<Seq<char>>| #[trigger] node_at(c, q) == node_at(b, q)
        || (is_branch(node_at(c, q)) && is_branch(node_at(b, q))) by {
        assert(same_node(node_at(c, q), node_at(b, q)));
    }
    if p.len() == 0 || blocked(mid, p) {
        assert forall|q: Seq<Seq<char>>| #[trigger] same_node(node_at(c, q), node_at(mid, q)) by {
            assert(same_node(node_at(c, q), node_at(b, q)));
            assert(same_node(node_at(b, q), node_at(mid, q)));
        }
    } else {
        assert(same_node(node_at(c, p), node_at(b, p)));
        assert forall|q: Seq<Seq<char>>| is_proper_prefix(p, q) implies (#[trigger] node_at(c, q)) is None by {
            assert(same_node(node_at(c, q), node_at(b, q)));
        }
        assert forall|q: Seq<Seq<char>>| q.len() > 0 && is_proper_prefix(q, p) implies is_branch(#[trigger] node_at(c, q)) by {
            assert(same_node(node_at(c, q), node_at(b, q)));
        }
        assert forall|q: Seq<Seq<char>>| q != p && !is_proper_prefix(p, q) && !is_proper_prefix(q, p)
            implies #[trigger] same_node(node_at(c, q), node_at(mid, q)) by {
            assert(same_node(node_at(c, q), node_at(b, q)));
            assert(same_node(node_at(b, q), node_at(mid, q)));
        }
    }
}

/// Stores made in two rounds are the stores of both, in order.
pub proof fn lemma_inserted_seq_concat(
    a: KeyTree,
    xs: Seq<(Seq<Seq<char>>, LocalizedValue)>,
    b: KeyTree,
    ys: Seq<(Seq<Seq<char>>, LocalizedValue)>,
    c: KeyTree,
)
    requires
        inserted_seq(a, xs, b),
        inserted_seq(b, ys, c),
    ensures
        inserted_seq(a, xs + ys, c),
    decreases ys.len(),
{
    if ys.len() == 0 {
        assert(xs + ys =~= xs);
        if xs.len() == 0 {
            assert forall|q: Seq<Seq<char>>| #[trigger] same_node(node_at(c, q), node_at(a, q)) by {
                assert(same_node(node_at(c, q), node_at(b, q)));
                assert(same_node(node_at(b, q), node_at(a, q)));
            }
        } else {
            let mid = choose|mid: KeyTree| #![trigger inserted(mid, xs.last().0, xs.last().1, b)]
                inserted_seq(a, xs.drop_last(), mid) && tree_wf(mid)
                && inserted(mid, xs.last().0, xs.last().1, b);
            lemma_inserted_same(mid, xs.last().0, xs.last().1, b, c);
        }
    } else {
        let mid2 = choose|mid: KeyTree| #![trigger inserted(mid, ys.last().0, ys.last().1, c)]
            inserted_seq(b, ys.drop_last(), mid) && tree_wf(mid)
            && inserted(mid, ys.last().0, ys.last().1, c);
        lemma_inserted_seq_concat(a, xs, b, ys.drop_last(), mid2);
        assert((xs + ys).drop_last() =~= xs + ys.drop_last());
        assert((xs + ys).last() == ys.last());
    }
}

/// A leaf after a store is the stored value or the leaf that was there.
proof fn lemma_inserted_leaf(old: KeyTree, p: Seq<Seq<char>>, v: LocalizedValue, new: KeyTree, q: Seq<Seq<char>>)
    requires
        inserted(old, p, v, new),
        is_leaf(node_at(new, q)),
    ensures
        node_at(new, q) == Some(KeyNode::Leaf(v)) || node_at(new, q) == node_at(old, q),
{
    if p.len() == 0 || blocked(old, p) {
        assert(same_node(node_at(new, q), node_at(old, q)));
    } else if q == p {
    } else if is_proper_prefix(p, q) {
    } else if is_proper_prefix(q, p) {
        if q.len() > 0 {
            assert(is_branch(node_at(new, q)));
        }
    } else {
        assert(same_node(node_at(new, q), node_at(old, q)));
    }
}

/// A leaf after a sequence of stores is one of the stored values or the
/// leaf that was there before them all.
pub proof fn lemma_inserted_seq_leaf(old: KeyTree, items: Seq<(Seq<Seq<char>>, LocalizedValue)>, new: KeyTree, q: Seq<Seq<char>>)
    requires
        inserted_seq(old, items, new),
        is_leaf(node_at(new, q)),
    ensures
        node_at(new, q) == node_at(old, q)
            || exists|k: int| 0 <= k < items.len() && node_at(new, q) == Some(KeyNode::Leaf(#[trigger] items[k].1)),
    decreases items.len(),
{
    if items.len() == 0 {
        assert(same_node(node_at(new, q), node_at(old, q)));
    } else {
        let mid = choose|mid: KeyTree| #![trigger inserted(mid, items.last().0, items.last().1, new)]
            inserted_seq(old, items.drop_last(), mid) && tree_wf(mid)
            && inserted(mid, items.last().0, items.last().1, new);
        lemma_inserted_leaf(mid, items.last().0, items.last().1, new, q);
        if node_at(new, q) == Some(KeyNode::Leaf(items.last().1)) {
            assert(node_at(new, q) == Some(KeyNode::Leaf(items[items.len() - 1].1)));
        } else {
            lemma_inserted_seq_leaf(old, items.drop_last(), mid, q);
            if node_at(mid, q) != node_at(old, q) {
                let k = choose|k: int| 0 <= k < items.drop_last().len()
                    && node_at(mid, q) == Some(KeyNode::Leaf(#[trigger] items.drop_last()[k].1));
                assert(items.drop_last()[k] == items[k]);
            }
        }
    }
}

/// Neither path is the other or a prefix of it.
pub open spec fn unrelated_paths(a: Seq<Seq<char>>, b: Seq<Seq<char>>) -> bool {
    a != b && !is_proper_prefix(a, b) && !is_proper_prefix(b, a)
}

/// The paths of `items` are pairwise unrelated.
pub open spec fn paths_unrelated(items: Seq<(Seq<Seq<char>>, LocalizedValue)>) -> bool {
    forall|i: int, j: int| 0 <= i < j < items.len() ==> unrelated_paths(#[trigger] items[i].0, #[trigger] items[j].0)
}

/// Stores at pairwise unrelated, non-empty, unblocked paths are all found
/// afterwards, and leave every path of `all` unblocked.
pub proof fn lemma_inserted_seq_found(t0: KeyTree, items: Seq<(Seq<Seq<char>>, LocalizedValue)>, t: KeyTree,
    all: Seq<(Seq<Seq<char>>, LocalizedValue)>)
    requires
        inserted_seq(t0, items, t),
        items.len() <= all.len(),
        items == all.take(items.len() as int),
        paths_unrelated(all),
        forall|m: int| 0 <= m < all.len() ==> (#[trigger] all[m]).0.len() > 0 && !blocked(t0, all[m].0),
    ensures
        forall|m: int| 0 <= m < items.len() ==> leaf_at(t, (#[trigger] items[m]).0) == Some(items[m].1),
        forall|m: int| 0 <= m < all.len() ==> !blocked(t, (#[trigger] all[m]).0),
    decreases items.len(),
{
    if items.len() == 0 {
        assert forall|m: int| 0 <= m < all.len() implies !blocked(t, (#[trigger] all[m]).0) by {
            let p = all[m].0;
            if blocked(t, p) {
                let k = choose|k: int| 1 <= k < p.len() && is_leaf(#[trigger] node_at(t, p.take(k)));
                assert(same_node(node_at(t, p.take(k)), node_at(t0, p.take(k))));
                assert(blocked(t0, p));
            }
        }
    } else {
        let n = items.len() - 1;
        let mid = choose|mid: KeyTree| #![trigger inserted(mid, items.last().0, items.last().1, t)]
            inserted_seq(t0, items.drop_last(), mid) && tree_wf(mid)
            && inserted(mid, items.last().0, items.last().1, t);
        assert(items.drop_last() =~= all.take(n));
        lemma_inserted_seq_found(t0, items.drop_last(), mid, all);
        let p = items[n].0;
        let v = items[n].1;
        assert(items[n] == all[n]);
        assert(p.len() > 0 && !blocked(mid, p));
        assert(node_at(t, p) == Some(KeyNode::Leaf(v)));
        assert forall|m: int| 0 <= m < items.len() implies leaf_at(t, (#[trigger] items[m]).0) == Some(items[m].1) by {
            if m < n {
                assert(items[m] == all[m] && items.drop_last()[m] == items[m]);
                assert(unrelated_paths(all[m].0, all[n].0));
                assert(same_node(node_at(t, items[m].0), node_at(mid, items[m].0)));
            }
        }
        assert forall|m: int| 0 <= m < all.len() implies !blocked(t, (#[trigger] all[m]).0) by {
            let pm = all[m].0;
            if blocked(t, pm) {
                let k = choose|k: int| 1 <= k < pm.len() && is_leaf(#[trigger] node_at(t, pm.take(k)));
                let q = pm.take(k);
                assert(is_proper_prefix(q, pm));
                if q == p {
                    if m != n {
                        if m < n {
                            assert(unrelated_paths(all[m].0, all[n].0));
                        } else {
                            assert(unrelated_paths(all[n].0, all[m].0));
                        }
                    }
                } else if is_proper_prefix(p, q) {
                } else if is_proper_prefix(q, p) {
                    assert(q.len() > 0);
                    assert(is_branch(node_at(t, q)));
                } else {
                    assert(same_node(node_at(t, q), node_at(mid, q)));
                    assert(blocked(mid, pm));
                }
            }
        }
    }
}

// ---------- Laws ----------

/// Law: reading back a store. After `insert` stores `v` at a non-empty path
/// that no stored leaf blocks, `lookup` of that path finds `v`, and every
/// path that is neither `p`, a prefix of `p`, nor below `p` keeps the value
/// it had. An empty or blocked store changes no value.
pub proof fn lemma_lookup_after_insert(old: KeyTree, p: Seq<Seq<char>>, v: LocalizedValue, new: KeyTree)
    requires
        inserted(old, p, v, new),
    ensures
        p.len() > 0 && !blocked(old, p) ==> leaf_at(new, p) == Some(v),
        p.len() > 0 && !blocked(old, p) ==> forall|q: Seq<Seq<char>>|
            q != p && !is_proper_prefix(p, q) && !is_proper_prefix(q, p) ==> #[trigger] leaf_at(new, q) == leaf_at(old, q),
        p.len() == 0 || blocked(old, p) ==> forall|q: Seq<Seq<char>>| #[trigger] leaf_at(new, q) == leaf_at(old, q),
{
    if p.len() > 0 && !blocked(old, p) {
        assert forall|q: Seq<Seq<char>>| q != p && !is_proper_prefix(p, q) && !is_proper_prefix(q, p)
            implies #[trigger] leaf_at(new, q) == leaf_at(old, q) by {
            assert(same_node(node_at(new, q), node_at(old, q)));
        }
    } else {
        assert forall|q: Seq<Seq<char>>| #[trigger] leaf_at(new, q) == leaf_at(old, q) by {
            assert(same_node(node_at(new, q), node_at(old, q)));
        }
    }
}

/// Law: a tree misses nothing from itself; the keys missing from a locale
/// compared with itself are none.
/// The node at `p` in `target`, when there is a target.
pub open spec fn target_node(target: Option<KeyTree>, p: Seq<Seq<char>>) -> Option<KeyNode> {
    match target {
        Some(tt) => node_at(tt, p),
        None => None,
    }
}

/// `p` is a path of `source` under child `i` or a later sibling, on which
/// exactly one of `source` and `target` has a leaf.
pub open spec fn disagrees_at(source: KeyTree, target: Option<KeyTree>, i: int, p: Seq<Seq<char>>) -> bool {
    &&& p.len() >= 1
    &&& exists|m: int| i <= m < source.children@.len() && (#[trigger] source.children@[m]).0@ == p[0]
    &&& node_at(source, p) is Some
    &&& is_leaf(node_at(source, p)) != is_leaf(target_node(target, p))
}

/// Joins what child `i` lists (`h`) to what its later siblings list.
proof fn lemma_diff_join(source: KeyTree, target: Option<KeyTree>, i: int, h: Seq<Seq<Seq<char>>>)
    requires
        tree_wf(source),
        0 <= i < source.children@.len(),
        diff_from(source, target, i) == h + diff_from(source, target, i + 1),
        h.no_duplicates(),
        forall|j: int| 0 <= j < h.len() ==> (#[trigger] h[j]).len() >= 1 && h[j][0] == source.children@[i].0@
            && node_at(source, h[j]) is Some && is_leaf(node_at(source, h[j])) != is_leaf(target_node(target, h[j])),
        diff_from(source, target, i + 1).no_duplicates(),
        forall|j: int| 0 <= j < diff_from(source, target, i + 1).len()
            ==> disagrees_at(source, target, i + 1, #[trigger] diff_from(source, target, i + 1)[j]),
    ensures
        diff_from(source, target, i).no_duplicates(),
        forall|j: int| 0 <= j < diff_from(source, target, i).len()
            ==> disagrees_at(source, target, i, #[trigger] diff_from(source, target, i)[j]),
{
    let d = diff_from(source, target, i);
    let rest = diff_from(source, target, i + 1);
    let k = source.children@[i].0@;
    assert forall|j: int| 0 <= j < d.len() implies disagrees_at(source, target, i, #[trigger] d[j]) by {
        if j < h.len() {
            assert(d[j] == h[j]);
            assert(source.children@[i].0@ == d[j][0]);
        } else {
            assert(d[j] == rest[j - h.len()]);
            assert(disagrees_at(source, target, i + 1, rest[j - h.len()]));
            let m = choose|m: int| i + 1 <= m < source.children@.len() && (#[trigger] source.children@[m]).0@ == rest[j - h.len()][0];
            assert(source.children@[m].0@ == d[j][0]);
        }
    }
    assert forall|a: int, b: int| 0 <= a < d.len() && 0 <= b < d.len() && a != b implies d[a] != d[b] by {
        if a < h.len() && b < h.len() {
            assert(d[a] == h[a] && d[b] == h[b]);
        } else if a >= h.len() && b >= h.len() {
            assert(d[a] == rest[a - h.len()] && d[b] == rest[b - h.len()]);
        } else {
            let (x, y) = if a < h.len() { (a, b) } else { (b, a) };
            assert(d[x] == h[x]);
            assert(d[y] == rest[y - h.len()]);
            assert(disagrees_at(source, target, i + 1, rest[y - h.len()]));
            let m = choose|m: int| i + 1 <= m < source.children@.len() && (#[trigger] source.children@[m]).0@ == rest[y - h.len()][0];
            lemma_str_lt_order(k, source.children@[m].0@, k);
            assert(str_lt(source.children@[i].0@, source.children@[m].0@));
            assert(d[x][0] != d[y][0]);
        }
    }
}

/// What [`diff_from`] lists below child `i`: paths of `source` (under that
/// child or a later sibling) on which exactly one of `source` and `target`
/// has a leaf, none of them twice.
pub proof fn lemma_diff_sound(source: KeyTree, target: Option<KeyTree>, i: int)
    requires
        tree_wf(source),
        0 <= i,
    ensures
        diff_from(source, target, i).no_duplicates(),
        forall|j: int| 0 <= j < diff_from(source, target, i).len()
            ==> disagrees_at(source, target, i, #[trigger] diff_from(source, target, i)[j]),
    decreases source, source.children@.len() - i,
{
    let d = diff_from(source, target, i);
    if i < source.children@.len() {
        lemma_diff_sound(source, target, i + 1);
        lemma_find_child_at(source.children@, i);
        lemma_wf_from(source, 0);
        assert(node_wf(source.children@[i].1));
        let k = source.children@[i].0@;
        let other = match target {
            Some(tt) => find_child(tt.children@, k),
            None => None,
        };
        let rest = diff_from(source, target, i + 1);
        let single = seq![seq![k]];
        assert(target_node(target, seq![k]) == other);
        assert(node_at(source, seq![k]) == Some(source.children@[i].1));
        match source.children@[i].1 {
            KeyNode::Leaf(_) => {
                match other {
                    Some(KeyNode::Leaf(_)) => {
                        lemma_diff_join(source, target, i, Seq::empty());
                    },
                    _ => {
                        lemma_diff_join(source, target, i, single);
                    },
                }
            },
            KeyNode::Branch(sub) => {
                assert(decreases_to!(source => sub));
                assert(tree_wf(sub));
                match other {
                    Some(KeyNode::Leaf(_)) => {
                        lemma_diff_join(source, target, i, single);
                    },
                    _ => {
                        let t2 = match other {
                            Some(KeyNode::Branch(tgt)) => Some(tgt),
                            _ => None,
                        };
                        let sd = diff_from(sub, t2, 0);
                        lemma_diff_sound(sub, t2, 0);
                        let h = sd.map_values(|p: Seq<Seq<char>>| seq![k] + p);
                        assert(d == h + rest);
                        assert forall|j: int| 0 <= j < h.len() implies (#[trigger] h[j]).len() >= 1 && h[j][0] == source.children@[i].0@
                            && node_at(source, h[j]) is Some && is_leaf(node_at(source, h[j])) != is_leaf(target_node(target, h[j])) by {
                            let q = sd[j];
                            assert(disagrees_at(sub, t2, 0, q));
                            assert(h[j] == seq![k] + q);
                            assert(h[j].drop_first() =~= q);
                            assert(h[j][0] == k);
                            assert(node_at(source, h[j]) == node_at(sub, q));
                            assert(target_node(target, h[j]) == target_node(t2, q));
                        }
                        assert forall|a: int, b: int| 0 <= a < h.len() && 0 <= b < h.len() && a != b implies h[a] != h[b] by {
                            assert(h[a].drop_first() =~= sd[a]);
                            assert(h[b].drop_first() =~= sd[b]);
                        }
                        lemma_diff_join(source, target, i, h);
                    },
                }
            },
        }
    } else {
        assert(d.len() == 0);
    }
}

/// Every leaf path has a segment.
proof fn lemma_leaf_paths_nonempty(t: KeyTree, i: int, j: int)
    requires
        0 <= j < leaf_paths_from(t, i).len(),
    ensures
        leaf_paths_from(t, i)[j].len() >= 1,
    decreases t, t.children@.len() - i,
{
    if 0 <= i < t.children@.len() {
        let k = t.children@[i].0@;
        let h = match t.children@[i].1 {
            KeyNode::Leaf(_) => seq![seq![k]],
            KeyNode::Branch(sub) => leaf_paths_from(sub, 0).map_values(|p: Seq<Seq<char>>| seq![k] + p),
        };
        assert(leaf_paths_from(t, i) == h + leaf_paths_from(t, i + 1));
        if j >= h.len() {
            lemma_leaf_paths_nonempty(t, i + 1, j - h.len());
        }
    }
}

/// No key of `t`, from child `i` on and at any depth below, holds a `.`.
pub open spec fn keys_plain_from(t: KeyTree, i: int) -> bool
    decreases t, t.children@.len() - i,
{
    if i < 0 || i >= t.children@.len() {
        true
    } else {
        &&& !t.children@[i].0@.contains('.')
        &&& match t.children@[i].1 {
            KeyNode::Leaf(_) => true,
            KeyNode::Branch(sub) => {
                proof { assert(decreases_to!(t => sub)); }
                keys_plain_from(sub, 0)
            },
        }
        &&& keys_plain_from(t, i + 1)
    }
}

proof fn lemma_keys_plain_child(t: KeyTree, i: int, j: int)
    requires
        keys_plain_from(t, i),
        0 <= i <= j < t.children@.len(),
    ensures
        !t.children@[j].0@.contains('.'),
        t.children@[j].1 matches KeyNode::Branch(sub) ==> keys_plain_from(sub, 0),
    decreases j - i,
{
    if i < j {
        lemma_keys_plain_child(t, i + 1, j);
    }
}

/// The segments of a path of `t` are keys of `t`, so hold no `.` when its
/// keys hold none.
proof fn lemma_node_at_plain(t: KeyTree, p: Seq<Seq<char>>)
    requires
        keys_plain_from(t, 0),
        node_at(t, p) is Some,
    ensures
        forall|i: int| 0 <= i < p.len() ==> !(#[trigger] p[i]).contains('.'),
    decreases p.len(),
{
    let cs = t.children@;
    let j = choose|j: int| 0 <= j < cs.len() && (#[trigger] cs[j]).0@ == p[0];
    lemma_keys_plain_child(t, 0, j);
    if p.len() > 1 {
        match cs[j].1 {
            KeyNode::Branch(sub) => {
                lemma_node_at_plain(sub, p.drop_first());
                assert forall|i: int| 0 <= i < p.len() implies !(#[trigger] p[i]).contains('.') by {
                    if i > 0 {
                        assert(p[i] == p.drop_first()[i - 1]);
                    }
                }
            },
            KeyNode::Leaf(_) => {},
        }
    }
}

/// Joined with `.`, paths whose segments hold no `.` stay apart.
pub proof fn lemma_dotted_distinct(d: Seq<Seq<Seq<char>>>)
    requires
        d.no_duplicates(),
        forall|j: int| 0 <= j < d.len() ==> (#[trigger] d[j]).len() >= 1
            && forall|i: int| 0 <= i < d[j].len() ==> !(#[trigger] d[j][i]).contains('.'),
    ensures
        dotted(Seq::<Seq<char>>::empty(), d).no_duplicates(),
{
    let dd = dotted(Seq::<Seq<char>>::empty(), d);
    assert forall|a: int, b: int| 0 <= a < dd.len() && 0 <= b < dd.len() && a != b implies dd[a] != dd[b] by {
        assert(Seq::<Seq<char>>::empty() + d[a] =~= d[a]);
        assert(Seq::<Seq<char>>::empty() + d[b] =~= d[b]);
        crate::text::lemma_split_join(d[a], '.');
        crate::text::lemma_split_join(d[b], '.');
    }
}

/// Paths that [`diff_from`] lists, when no key of `source` holds a `.`:
/// their segments hold none either.
pub proof fn lemma_diff_plain(source: KeyTree, target: Option<KeyTree>)
    requires
        tree_wf(source),
        keys_plain_from(source, 0),
    ensures
        forall|j: int| 0 <= j < diff_from(source, target, 0).len() ==> (#[trigger] diff_from(source, target, 0)[j]).len() >= 1
            && forall|i: int| 0 <= i < diff_from(source, target, 0)[j].len() ==> !(#[trigger] diff_from(source, target, 0)[j][i]).contains('.'),
{
    lemma_diff_sound(source, target, 0);
    let d = diff_from(source, target, 0);
    assert forall|j: int| 0 <= j < d.len() implies (#[trigger] d[j]).len() >= 1
        && forall|i: int| 0 <= i < d[j].len() ==> !(#[trigger] d[j][i]).contains('.') by {
        assert(disagrees_at(source, target, 0, d[j]));
        lemma_node_at_plain(source, d[j]);
    }
}

/// Some path listed in `d` is `p` or a prefix of it.
pub open spec fn listed_prefix(d: Seq<Seq<Seq<char>>>, p: Seq<Seq<char>>) -> bool {
    exists|j: int| 0 <= j < d.len() && (#[trigger] d[j]).len() <= p.len() && p.take(d[j].len() as int) == d[j]
}

/// Every leaf of `source` (under child `i` or a later sibling) that is no
/// leaf of `target` is listed by [`diff_from`], itself or through a prefix
/// where `target` holds a leaf.
pub proof fn lemma_diff_complete(source: KeyTree, target: Option<KeyTree>, i: int)
    requires
        tree_wf(source),
        0 <= i,
    ensures
        forall|j: int| 0 <= j < leaf_paths_from(source, i).len()
            && !is_leaf(target_node(target, #[trigger] leaf_paths_from(source, i)[j]))
            ==> listed_prefix(diff_from(source, target, i), leaf_paths_from(source, i)[j]),
    decreases source, source.children@.len() - i,
{
    let d = diff_from(source, target, i);
    let lp = leaf_paths_from(source, i);
    if i < source.children@.len() {
        lemma_diff_complete(source, target, i + 1);
        let k = source.children@[i].0@;
        let other = match target {
            Some(tt) => find_child(tt.children@, k),
            None => None,
        };
        let rest = diff_from(source, target, i + 1);
        let lrest = leaf_paths_from(source, i + 1);
        let single = seq![seq![k]];
        assert(target_node(target, seq![k]) == other);
        let (hd, hl) = match source.children@[i].1 {
            KeyNode::Leaf(_) => (match other {
                Some(KeyNode::Leaf(_)) => Seq::<Seq<Seq<char>>>::empty(),
                _ => single,
            }, single),
            KeyNode::Branch(sub) => {
                let t2 = match other {
                    Some(KeyNode::Branch(tgt)) => Some(tgt),
                    _ => None,
                };
                (match other {
                    Some(KeyNode::Leaf(_)) => single,
                    _ => diff_from(sub, t2, 0).map_values(|p: Seq<Seq<char>>| seq![k] + p),
                }, leaf_paths_from(sub, 0).map_values(|p: Seq<Seq<char>>| seq![k] + p))
            },
        };
        assert(d == hd + rest);
        assert(lp == hl + lrest);
        assert forall|j: int| 0 <= j < lp.len() && !is_leaf(target_node(target, #[trigger] lp[j]))
            implies listed_prefix(d, lp[j]) by {
            if j >= hl.len() {
                assert(lp[j] == lrest[j - hl.len()]);
                let x = choose|x: int| 0 <= x < rest.len() && (#[trigger] rest[x]).len() <= lrest[j - hl.len()].len()
                    && lrest[j - hl.len()].take(rest[x].len() as int) == rest[x];
                assert(d[x + hd.len()] == rest[x]);
            } else {
                assert(lp[j] == hl[j]);
                match source.children@[i].1 {
                    KeyNode::Leaf(_) => {
                        assert(lp[j] == seq![k]);
                        assert(d[0] == seq![k]);
                        assert(lp[j].take(1) =~= seq![k]);
                    },
                    KeyNode::Branch(sub) => {
                        assert(decreases_to!(source => sub));
                        lemma_wf_from(source, 0);
                        assert(node_wf(source.children@[i].1));
                        let p2 = leaf_paths_from(sub, 0)[j];
                        assert(lp[j] == seq![k] + p2);
                        match other {
                            Some(KeyNode::Leaf(_)) => {
                                assert(d[0] == seq![k]);
                                assert(lp[j].take(1) =~= seq![k]);
                            },
                            _ => {
                                let t2 = match other {
                                    Some(KeyNode::Branch(tgt)) => Some(tgt),
                                    _ => None,
                                };
                                lemma_diff_complete(sub, t2, 0);
                                lemma_leaf_paths_nonempty(sub, 0, j);
                                assert(lp[j].drop_first() =~= p2);
                                assert(target_node(target, lp[j]) == target_node(t2, p2));
                                let sd = diff_from(sub, t2, 0);
                                let x = choose|x: int| 0 <= x < sd.len() && (#[trigger] sd[x]).len() <= p2.len() && p2.take(sd[x].len() as int) == sd[x];
                                assert(d[x] == seq![k] + sd[x]);
                                assert(lp[j].take(d[x].len() as int) =~= seq![k] + p2.take(sd[x].len() as int));
                            },
                        }
                    },
                }
            }
        }
    }
}

pub proof fn lemma_diff_with_itself(t: KeyTree)
    requires
        tree_wf(t),
    ensures
        diff_from(t, Some(t), 0).len() == 0,
{
    lemma_diff_with_itself_from(t, 0);
}

proof fn lemma_diff_with_itself_from(t: KeyTree, i: int)
    requires
        tree_wf(t),
        0 <= i,
    ensures
        diff_from(t, Some(t), i).len() == 0,
    decreases t, t.children@.len() - i,
{
    if i < t.children@.len() {
        lemma_find_child_at(t.children@, i);
        lemma_wf_from(t, 0);
        assert(node_wf(t.children@[i].1));
        match t.children@[i].1 {
            KeyNode::Leaf(_) => {},
            KeyNode::Branch(sub) => {
                assert(decreases_to!(t => sub));
                lemma_diff_with_itself_from(sub, 0);
            },
        }
        lemma_diff_with_itself_from(t, i + 1);
    }
}

} // verus!
