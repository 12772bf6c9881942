//! The reverse of the locale index: which translation keys each source file
//! uses. Only static literal keys are seen (`t(myKey)` is invisible).
use vstd::prelude::*;
use vstd::string::*;
use crate::framework::{KeyUsage, find_usages, usages_found};
use crate::text::{str_eq, str_lt, views, lemma_contains_push};
use crate::index::{strictly_sorted, insert_sorted_unique};
use crate::paths::{extension_of, extension, file_name_of, file_name};

verus! {

broadcast use vstd::seq::group_seq_axioms;

/// Source file to the set of translation keys it uses.
#[derive(Debug)]
pub struct UsageIndex {
    files: Vec<(String, Vec<String>)>,
}

/// The keys of `us`.
pub open spec fn usage_keys(us: Seq<KeyUsage>) -> Set<Seq<char>> {
    Set::new(|x: Seq<char>| exists|i: int| 0 <= i < us.len() && (#[trigger] us[i]).key@ == x)
}

/// Index of the entry of `es` for `path`.
pub open spec fn entry_of(es: Seq<(String, Vec<String>)>, path: Seq<char>, i: int) -> bool {
    0 <= i < es.len() && es[i].0@ == path
}

impl View for UsageIndex {
    type V = Map<Seq<char>, Set<Seq<char>>>;

    /// The files with their keys.
    closed spec fn view(&self) -> Map<Seq<char>, Set<Seq<char>>> {
        Map::new(
            |p: Seq<char>| exists|i: int| #[trigger] entry_of(self.files@, p, i),
            |p: Seq<char>| views(self.files@[choose|i: int| #[trigger] entry_of(self.files@, p, i)].1@).to_set(),
        )
    }
}

impl UsageIndex {
    /// Files appear once, each with a non-empty strictly sorted key list.
    pub closed spec fn wf(&self) -> bool {
        &&& forall|i: int, j: int| 0 <= i < j < self.files@.len() ==> (#[trigger] self.files@[i]).0@ != (#[trigger] self.files@[j]).0@
        &&& forall|i: int| 0 <= i < self.files@.len() ==> strictly_sorted(views((#[trigger] self.files@[i]).1@))
            && self.files@[i].1@.len() > 0
    }

    /// Number of (file, key) pairs.
    pub closed spec fn pair_count(&self) -> nat {
        pairs_total(self.files@)
    }

    pub fn new() -> (r: UsageIndex)
        ensures
            r.wf(),
            r.view() == Map::<Seq<char>, Set<Seq<char>>>::empty(),
            r.pair_count() == 0,
    {
        let r = UsageIndex { files: Vec::new() };
        assert(r.view() =~= Map::<Seq<char>, Set<Seq<char>>>::empty());
        r
    }

    fn position(&self, path: &str) -> (r: Option<usize>)
        requires
            self.wf(),
        ensures
            match r {
                Some(i) => entry_of(self.files@, path@, i as int),
                None => forall|i: int| !#[trigger] entry_of(self.files@, path@, i),
            },
    {
        let mut i: usize = 0;
        while i < self.files.len()
            invariant
                i <= self.files@.len(),
                forall|j: int| 0 <= j < i ==> self.files@[j].0@ != path@,
            decreases self.files@.len() - i,
        {
            if str_eq(self.files[i].0.as_str(), path) {
                return Some(i);
            }
            i = i + 1;
        }
        None
    }

    proof fn lemma_view_at(&self, i: int)
        requires
            self.wf(),
            0 <= i < self.files@.len(),
        ensures
            self.view().contains_key(self.files@[i].0@),
            self.view()[self.files@[i].0@] == views(self.files@[i].1@).to_set(),
    {
        let p = self.files@[i].0@;
        assert(entry_of(self.files@, p, i));
        let j = choose|j: int| #[trigger] entry_of(self.files@, p, j);
        if j != i {
            if j < i {
                assert(self.files@[j].0@ != self.files@[i].0@);
            } else {
                assert(self.files@[i].0@ != self.files@[j].0@);
            }
        }
    }

    /// Forgets everything recorded for `path`.
    pub fn remove_file(&mut self, path: &str)
        requires
            old(self).wf(),
        ensures
            final(self).wf(),
            final(self).view() == old(self).view().remove(path@),
            final(self).pair_count() + count_at(old(self).view(), path@) == old(self).pair_count(),
            final(self).view().dom().len() + (if old(self).view().contains_key(path@) { 1int } else { 0int })
                == old(self).view().dom().len(),
    {
        let ghost es = self.files@;
        let ghost before = *self;
        match self.position(path) {
            None => {
                assert(self.view() =~= self.view().remove(path@));
                assert(!self.view().contains_key(path@));
                proof { self.lemma_dom_len(); }
            },
            Some(i) => {
                proof {
                    before.lemma_count_at(i as int);
                    lemma_pairs_total_remove(es, i as int);
                    before.lemma_dom_len();
                    before.lemma_view_at(i as int);
                }
                self.files.remove(i);
                proof {
                    let es2 = self.files@;
                    assert forall|a: int| 0 <= a < es2.len() implies #[trigger] es2[a] == es[if a < i { a } else { a + 1 }] by {}
                    assert forall|a: int, b: int| 0 <= a < b < es2.len() implies (#[trigger] es2[a]).0@ != (#[trigger] es2[b]).0@ by {
                        let a0 = if a < i { a } else { a + 1 };
                        let b0 = if b < i { b } else { b + 1 };
                        assert(es2[a] == es[a0] && es2[b] == es[b0]);
                    }
                    assert forall|a: int| 0 <= a < es2.len() implies strictly_sorted(views((#[trigger] es2[a]).1@)) && es2[a].1@.len() > 0 by {
                        let a0 = if a < i { a } else { a + 1 };
                        assert(es2[a] == es[a0]);
                    }
                    assert forall|p: Seq<char>| #[trigger] self.view().contains_key(p) <==> before.view().remove(path@).contains_key(p) by {
                        if self.view().contains_key(p) {
                            let a = choose|a: int| #[trigger] entry_of(es2, p, a);
                            let a0 = if a < i { a } else { a + 1 };
                            assert(es2[a] == es[a0]);
                            assert(entry_of(es, p, a0));
                            if p == path@ {
                                assert(a0 != i);
                                if a0 < i { assert(es[a0].0@ != es[i as int].0@); } else { assert(es[i as int].0@ != es[a0].0@); }
                            }
                        }
                        if before.view().remove(path@).contains_key(p) {
                            let a0 = choose|a: int| #[trigger] entry_of(es, p, a);
                            assert(a0 != i);
                            let a = if a0 < i { a0 } else { a0 - 1 };
                            assert(es2[a] == es[a0]);
                            assert(entry_of(es2, p, a));
                        }
                    }
                    assert forall|p: Seq<char>| #[trigger] self.view().contains_key(p) implies self.view()[p] == before.view().remove(path@)[p] by {
                        let a = choose|a: int| #[trigger] entry_of(es2, p, a);
                        let a0 = if a < i { a } else { a + 1 };
                        assert(es2[a] == es[a0]);
                        self.lemma_view_at(a);
                        before.lemma_view_at(a0);
                    }
                    assert(self.view() =~= before.view().remove(path@));
                    self.lemma_dom_len();
                }
            },
        }
    }

    /// Replaces the keys recorded for `path` with those `content` uses;
    /// drops `path` when it uses none.
    pub fn update_file(&mut self, path: &str, content: &str, language_id: &str)
        requires
            old(self).wf(),
            2 * content.spec_bytes().len() <= u32::MAX,
        ensures
            final(self).wf(),
            exists|us: Seq<KeyUsage>| #[trigger] usages_found(content.spec_bytes(), content@, language_id@, us)
                && final(self).view() == (if usage_keys(us).is_empty() {
                    old(self).view().remove(path@)
                } else {
                    old(self).view().remove(path@).insert(path@, usage_keys(us))
                })
                && usage_keys(us).len() <= usize::MAX
                && final(self).pair_count() + count_at(old(self).view(), path@) == old(self).pair_count() + usage_keys(us).len()
                && final(self).view().dom().len() + (if old(self).view().contains_key(path@) { 1int } else { 0int })
                    == old(self).view().dom().len() + (if usage_keys(us).is_empty() { 0int } else { 1int }),
            forall|r: Seq<KeyUsage>| #[trigger] usages_found(content.spec_bytes(), content@, language_id@, r)
                ==> final(self).view() == (if usage_keys(r).is_empty() {
                    old(self).view().remove(path@)
                } else {
                    old(self).view().remove(path@).insert(path@, usage_keys(r))
                }),
    {
        let usages = find_usages(content, language_id);
        let ghost us = usages@;
        let mut keys: Vec<String> = Vec::new();
        let mut i: usize = 0;
        while i < usages.len()
            invariant
                us == usages@,
                i <= us.len(),
                strictly_sorted(views(keys@)),
                forall|x: Seq<char>| #[trigger] views(keys@).contains(x) <==> exists|j: int| 0 <= j < i && (#[trigger] us[j]).key@ == x,
            decreases us.len() - i,
        {
            insert_sorted_unique(&mut keys, usages[i].key.clone());
            proof {
                assert forall|x: Seq<char>| #[trigger] views(keys@).contains(x) <==> exists|j: int| 0 <= j < i + 1 && (#[trigger] us[j]).key@ == x by {
                    if x == us[i as int].key@ {
                        assert(exists|j: int| 0 <= j < i + 1 && (#[trigger] us[j]).key@ == x);
                    }
                }
            }
            i = i + 1;
        }
        let ghost ks = views(keys@).to_set();
        assert(ks =~= usage_keys(us)) by {
            assert forall|x: Seq<char>| ks.contains(x) <==> usage_keys(us).contains(x) by {
                if views(keys@).contains(x) {
                    let j = choose|j: int| 0 <= j < us.len() && (#[trigger] us[j]).key@ == x;
                }
            }
        }
        self.remove_file(path);
        let ghost mid = *self;
        assert(usages_found(content.spec_bytes(), content@, language_id@, us));
        proof {
            lemma_sorted_no_dup(views(keys@));
            views(keys@).unique_seq_to_set();
        }
        if keys.len() == 0 {
            assert(ks =~= Set::<Seq<char>>::empty());
            assert(usage_keys(us).is_empty());
        }
        if keys.len() > 0 {
            assert(ks.contains(views(keys@)[0]));
            assert(!usage_keys(us).is_empty());
            let ghost es = self.files@;
            self.files.push((path.to_string(), keys));
            proof {
                let es2 = self.files@;
                let n = es.len() as int;
                assert(forall|i: int| !#[trigger] entry_of(es, path@, i)) by {
                    if exists|i: int| #[trigger] entry_of(es, path@, i) {
                        let i = choose|i: int| #[trigger] entry_of(es, path@, i);
                        assert(mid.view().contains_key(path@));
                    }
                }
                assert forall|a: int, b: int| 0 <= a < b < es2.len() implies (#[trigger] es2[a]).0@ != (#[trigger] es2[b]).0@ by {
                    if b == n {
                        assert(!entry_of(es, path@, a));
                    } else {
                        assert(es2[a] == es[a] && es2[b] == es[b]);
                    }
                }
                assert forall|a: int| 0 <= a < es2.len() implies strictly_sorted(views((#[trigger] es2[a]).1@)) && es2[a].1@.len() > 0 by {
                    if a < n { assert(es2[a] == es[a]); }
                }
                assert forall|p: Seq<char>| #[trigger] self.view().contains_key(p) <==> mid.view().insert(path@, ks).contains_key(p) by {
                    if self.view().contains_key(p) {
                        let a = choose|a: int| #[trigger] entry_of(es2, p, a);
                        if a < n {
                            assert(es2[a] == es[a]);
                            assert(entry_of(es, p, a));
                        }
                    }
                    if mid.view().contains_key(p) {
                        let a = choose|a: int| #[trigger] entry_of(es, p, a);
                        assert(es2[a] == es[a]);
                        assert(entry_of(es2, p, a));
                    }
                    if p == path@ {
                        assert(entry_of(es2, p, n));
                    }
                }
                assert forall|p: Seq<char>| #[trigger] self.view().contains_key(p) implies self.view()[p] == mid.view().insert(path@, ks)[p] by {
                    let a = choose|a: int| #[trigger] entry_of(es2, p, a);
                    self.lemma_view_at(a);
                    if a < n {
                        assert(es2[a] == es[a]);
                        mid.lemma_view_at(a);
                    } else {
                        assert(p == path@);
                    }
                }
                assert(self.view() =~= mid.view().insert(path@, ks));
                assert(es2.drop_last() =~= es);
                mid.lemma_dom_len();
                self.lemma_dom_len();
            }
        }
        proof {
            assert forall|r: Seq<KeyUsage>| #[trigger] usages_found(content.spec_bytes(), content@, language_id@, r)
                implies usage_keys(r) == usage_keys(us) by {
                crate::framework::lemma_found_keys_agree(content.spec_bytes(), content@, language_id@, us, r);
            }
        }
    }

    /// Law: the number of (file, key) pairs is at least the number of
    /// distinct keys used and at least what any one file records, and it is
    /// zero when no file is recorded.
    pub proof fn lemma_pair_count_bounds(&self)
        requires
            self.wf(),
        ensures
            used_set(self.view()).finite(),
            used_set(self.view()).len() <= self.pair_count(),
            forall|p: Seq<char>| #[trigger] count_at(self.view(), p) <= self.pair_count(),
            self.view().dom().len() == 0 ==> self.pair_count() == 0,
    {
        let es = self.files@;
        lemma_union_of(es);
        assert(used_set(self.view()) =~= union_of(es)) by {
            assert forall|x: Seq<char>| used_set(self.view()).contains(x) <==> union_of(es).contains(x) by {
                lemma_union_of_contains(es, x);
                if used_in(self.view(), x) {
                    let p = choose|p: Seq<char>| #[trigger] self.view().contains_key(p) && self.view()[p].contains(x);
                    let a = choose|a: int| #[trigger] entry_of(es, p, a);
                    self.lemma_view_at(a);
                }
                if union_of(es).contains(x) {
                    let a = choose|a: int| 0 <= a < es.len() && #[trigger] views(es[a].1@).contains(x);
                    self.lemma_view_at(a);
                    assert(views(es[a].1@).to_set().contains(x));
                }
            }
        }
        assert forall|p: Seq<char>| #[trigger] count_at(self.view(), p) <= self.pair_count() by {
            if self.view().contains_key(p) {
                let a = choose|a: int| #[trigger] entry_of(es, p, a);
                self.lemma_count_at(a);
                lemma_pairs_total_remove(es, a);
            }
        }
        self.lemma_dom_len();
        if self.view().dom().len() == 0 {
            assert(es.len() == 0);
        }
    }

    /// The keys recorded for file `i` count as many as its key list.
    proof fn lemma_count_at(&self, i: int)
        requires
            self.wf(),
            0 <= i < self.files@.len(),
        ensures
            count_at(self.view(), self.files@[i].0@) == self.files@[i].1@.len(),
    {
        self.lemma_view_at(i);
        lemma_sorted_no_dup(views(self.files@[i].1@));
        views(self.files@[i].1@).unique_seq_to_set();
    }

    /// Whether some file uses `key`.
    pub fn is_key_used(&self, key: &str) -> (r: bool)
        requires
            self.wf(),
        ensures
            r == exists|p: Seq<char>| #[trigger] self.view().contains_key(p) && self.view()[p].contains(key@),
    {
        let mut i: usize = 0;
        while i < self.files.len()
            invariant
                self.wf(),
                i <= self.files@.len(),
                forall|a: int| 0 <= a < i ==> !views((#[trigger] self.files@[a]).1@).contains(key@),
            decreases self.files@.len() - i,
        {
            let ks = &self.files[i].1;
            let mut j: usize = 0;
            while j < ks.len()
                invariant
                    self.wf(),
                    i < self.files@.len(),
                    *ks == self.files@[i as int].1,
                    j <= ks@.len(),
                    forall|b: int| 0 <= b < j ==> ks@[b]@ != key@,
                decreases ks@.len() - j,
            {
                if str_eq(ks[j].as_str(), key) {
                    proof {
                        assert(views(ks@)[j as int] == key@);
                        self.lemma_view_at(i as int);
                        assert(self.view()[self.files@[i as int].0@].contains(key@));
                    }
                    return true;
                }
                j = j + 1;
            }
            proof {
                assert(!views(ks@).contains(key@)) by {
                    if views(ks@).contains(key@) {
                        let b = choose|b: int| 0 <= b < views(ks@).len() && views(ks@)[b] == key@;
                        assert(ks@[b]@ == key@);
                    }
                }
            }
            i = i + 1;
        }
        proof {
            assert forall|p: Seq<char>| #[trigger] self.view().contains_key(p) implies !self.view()[p].contains(key@) by {
                let a = choose|a: int| #[trigger] entry_of(self.files@, p, a);
                self.lemma_view_at(a);
            }
        }
        false
    }

    /// Every key used anywhere, sorted, each once.
    pub fn used_keys(&self) -> (r: Vec<String>)
        requires
            self.wf(),
        ensures
            strictly_sorted(views(r@)),
            forall|x: Seq<char>| #[trigger] views(r@).contains(x) <==>
                exists|p: Seq<char>| #[trigger] self.view().contains_key(p) && self.view()[p].contains(x),
    {
        let mut out: Vec<String> = Vec::new();
        let mut i: usize = 0;
        while i < self.files.len()
            invariant
                self.wf(),
                i <= self.files@.len(),
                strictly_sorted(views(out@)),
                forall|x: Seq<char>| #[trigger] views(out@).contains(x) <==>
                    exists|a: int| 0 <= a < i && views((#[trigger] self.files@[a]).1@).contains(x),
            decreases self.files@.len() - i,
        {
            let ks = &self.files[i].1;
            let mut j: usize = 0;
            while j < ks.len()
                invariant
                    self.wf(),
                    i < self.files@.len(),
                    *ks == self.files@[i as int].1,
                    j <= ks@.len(),
                    strictly_sorted(views(out@)),
                    forall|x: Seq<char>| #[trigger] views(out@).contains(x) <==>
                        ((exists|a: int| 0 <= a < i && views((#[trigger] self.files@[a]).1@).contains(x))
                        || views(ks@).take(j as int).contains(x)),
                decreases ks@.len() - j,
            {
                insert_sorted_unique(&mut out, ks[j].clone());
                proof {
                    assert(views(ks@).take(j + 1) =~= views(ks@).take(j as int).push(ks@[j as int]@));
                    lemma_contains_push(views(ks@).take(j as int), ks@[j as int]@);
                }
                j = j + 1;
            }
            proof {
                assert(views(ks@).take(ks@.len() as int) =~= views(ks@));
                assert forall|x: Seq<char>| #[trigger] views(out@).contains(x) <==>
                    exists|a: int| 0 <= a < i + 1 && views((#[trigger] self.files@[a]).1@).contains(x) by {
                    if views(ks@).contains(x) {
                        assert(views(self.files@[i as int].1@).contains(x));
                    }
                    if exists|a: int| 0 <= a < i + 1 && views((#[trigger] self.files@[a]).1@).contains(x) {
                        let a = choose|a: int| 0 <= a < i + 1 && views((#[trigger] self.files@[a]).1@).contains(x);
                        if a < i {
                            assert(exists|a2: int| 0 <= a2 < i && views((#[trigger] self.files@[a2]).1@).contains(x));
                        }
                    }
                }
            }
            i = i + 1;
        }
        proof {
            assert forall|x: Seq<char>| #[trigger] views(out@).contains(x) <==>
                exists|p: Seq<char>| #[trigger] self.view().contains_key(p) && self.view()[p].contains(x) by {
                if views(out@).contains(x) {
                    let a = choose|a: int| 0 <= a < self.files@.len() && views((#[trigger] self.files@[a]).1@).contains(x);
                    self.lemma_view_at(a);
                    assert(self.view().contains_key(self.files@[a].0@));
                }
                if exists|p: Seq<char>| #[trigger] self.view().contains_key(p) && self.view()[p].contains(x) {
                    let p = choose|p: Seq<char>| #[trigger] self.view().contains_key(p) && self.view()[p].contains(x);
                    let a = choose|a: int| #[trigger] entry_of(self.files@, p, a);
                    self.lemma_view_at(a);
                    assert(views(self.files@[a].1@).contains(x));
                }
            }
        }
        out
    }

    /// Number of files that use at least one key.
    pub fn file_count(&self) -> (r: usize)
        requires
            self.wf(),
        ensures
            r == self.view().dom().len(),
    {
        proof { self.lemma_dom_len(); }
        self.files.len()
    }

    proof fn lemma_dom_len(&self)
        requires
            self.wf(),
        ensures
            self.view().dom().finite(),
            self.view().dom().len() == self.files@.len(),
    {
        let ps = self.files@.map_values(|e: (String, Vec<String>)| e.0@);
        assert(ps.no_duplicates()) by {
            assert forall|a: int, b: int| 0 <= a < ps.len() && 0 <= b < ps.len() && a != b implies ps[a] != ps[b] by {
                if a < b {
                    assert(self.files@[a].0@ != self.files@[b].0@);
                } else {
                    assert(self.files@[b].0@ != self.files@[a].0@);
                }
            }
        }
        assert(self.view().dom() =~= ps.to_set()) by {
            assert forall|p: Seq<char>| self.view().dom().contains(p) <==> ps.to_set().contains(p) by {
                if self.view().dom().contains(p) {
                    let a = choose|a: int| #[trigger] entry_of(self.files@, p, a);
                    assert(ps[a] == p);
                }
                if ps.to_set().contains(p) {
                    let a = choose|a: int| 0 <= a < ps.len() && ps[a] == p;
                    assert(entry_of(self.files@, p, a));
                }
            }
        }
        ps.unique_seq_to_set();
    }

    /// Number of (file, key) pairs recorded (capped at `usize::MAX`, which
    /// no index that fits in memory reaches).
    pub fn total_usages(&self) -> (r: usize)
        ensures
            r == (if self.pair_count() <= usize::MAX { self.pair_count() } else { usize::MAX as nat }),
    {
        let mut total: usize = 0;
        let mut i: usize = 0;
        while i < self.files.len()
            invariant
                i <= self.files@.len(),
                total == (if pairs_total(self.files@.take(i as int)) <= usize::MAX {
                    pairs_total(self.files@.take(i as int))
                } else {
                    usize::MAX as nat
                }),
            decreases self.files@.len() - i,
        {
            assert(self.files@.take(i + 1).drop_last() =~= self.files@.take(i as int));
            total = total.saturating_add(self.files[i].1.len());
            i = i + 1;
        }
        assert(self.files@.take(self.files@.len() as int) =~= self.files@);
        total
    }
}

/// Every key some file of `m` uses.
pub open spec fn used_set(m: Map<Seq<char>, Set<Seq<char>>>) -> Set<Seq<char>> {
    Set::new(|x: Seq<char>| used_in(m, x))
}

/// The keys of the files of `es`.
pub open spec fn union_of(es: Seq<(String, Vec<String>)>) -> Set<Seq<char>>
    decreases es.len(),
{
    if es.len() == 0 { Set::empty() } else { union_of(es.drop_last()).union(views(es.last().1@).to_set()) }
}

proof fn lemma_union_of(es: Seq<(String, Vec<String>)>)
    ensures
        union_of(es).finite(),
        union_of(es).len() <= pairs_total(es),
    decreases es.len(),
{
    if es.len() > 0 {
        lemma_union_of(es.drop_last());
        let t = views(es.last().1@);
        t.lemma_cardinality_of_set();
        vstd::seq_lib::seq_to_set_is_finite(t);
        vstd::set_lib::lemma_len_union(union_of(es.drop_last()), t.to_set());
    }
}

proof fn lemma_union_of_contains(es: Seq<(String, Vec<String>)>, x: Seq<char>)
    ensures
        union_of(es).contains(x) <==> exists|a: int| 0 <= a < es.len() && #[trigger] views(es[a].1@).contains(x),
    decreases es.len(),
{
    if es.len() > 0 {
        lemma_union_of_contains(es.drop_last(), x);
        if union_of(es.drop_last()).contains(x) {
            let a = choose|a: int| 0 <= a < es.drop_last().len() && #[trigger] views(es.drop_last()[a].1@).contains(x);
            assert(es.drop_last()[a] == es[a]);
        }
        if exists|a: int| 0 <= a < es.len() && #[trigger] views(es[a].1@).contains(x) {
            let a = choose|a: int| 0 <= a < es.len() && #[trigger] views(es[a].1@).contains(x);
            if a < es.len() - 1 {
                assert(es.drop_last()[a] == es[a]);
            } else {
                assert(views(es.last().1@).to_set().contains(x));
            }
        }
    }
}

/// How many keys the file `p` records in `m`.
pub open spec fn count_at(m: Map<Seq<char>, Set<Seq<char>>>, p: Seq<char>) -> nat {
    if m.contains_key(p) { m[p].len() } else { 0 }
}

/// A strictly sorted sequence repeats nothing.
proof fn lemma_sorted_no_dup(s: Seq<Seq<char>>)
    requires
        strictly_sorted(s),
    ensures
        s.no_duplicates(),
{
    assert forall|a: int, b: int| 0 <= a < s.len() && 0 <= b < s.len() && a != b implies s[a] != s[b] by {
        if a < b {
            crate::text::lemma_str_lt_order(s[a], s[b], s[a]);
        } else {
            crate::text::lemma_str_lt_order(s[b], s[a], s[b]);
        }
    }
}

proof fn lemma_pairs_total_remove(es: Seq<(String, Vec<String>)>, i: int)
    requires
        0 <= i < es.len(),
    ensures
        pairs_total(es.remove(i)) + es[i].1@.len() == pairs_total(es),
    decreases es.len(),
{
    if i == es.len() - 1 {
        assert(es.remove(i) =~= es.drop_last());
    } else {
        lemma_pairs_total_remove(es.drop_last(), i);
        assert(es.remove(i).drop_last() =~= es.drop_last().remove(i));
        assert(es.remove(i).last() == es.last());
    }
}

/// Number of (file, key) pairs of `es`.
pub open spec fn pairs_total(es: Seq<(String, Vec<String>)>) -> nat
    decreases es.len(),
{
    if es.len() == 0 { 0 } else { pairs_total(es.drop_last()) + es.last().1@.len() }
}

/// The language name the framework patterns use for a source file, by extension.
pub open spec fn language_for(path: Seq<char>) -> Option<Seq<char>> {
    match extension_of(path) {
        None => None,
        Some(e) => if e == "vue"@ {
            Some("Vue.js"@)
        } else if e == "ts"@ || e == "mts"@ || e == "cts"@ {
            Some("TypeScript"@)
        } else if e == "tsx"@ {
            Some("TSX"@)
        } else if e == "js"@ || e == "mjs"@ || e == "cjs"@ {
            Some("JavaScript"@)
        } else if e == "jsx"@ {
            Some("JSX"@)
        } else if e == "html"@ || e == "htm"@ {
            Some("HTML"@)
        } else {
            None
        },
    }
}

/// The language of a source file, or `None` when it is not scanned.
pub fn language_id_for(path: &str) -> (r: Option<&'static str>)
    ensures
        match r {
            Some(l) => language_for(path@) == Some(l@),
            None => language_for(path@) is None,
        },
{
    let e = match extension(path) {
        Some(e) => e,
        None => return None,
    };
    let e = e.as_str();
    if str_eq(e, "vue") {
        Some("Vue.js")
    } else if str_eq(e, "ts") || str_eq(e, "mts") || str_eq(e, "cts") {
        Some("TypeScript")
    } else if str_eq(e, "tsx") {
        Some("TSX")
    } else if str_eq(e, "js") || str_eq(e, "mjs") || str_eq(e, "cjs") {
        Some("JavaScript")
    } else if str_eq(e, "jsx") {
        Some("JSX")
    } else if str_eq(e, "html") || str_eq(e, "htm") {
        Some("HTML")
    } else {
        None
    }
}

/// Directory names skipped when scanning a project's sources.
pub open spec fn excluded_names() -> Seq<Seq<char>> {
    seq![
        "node_modules"@, "dist"@, "build"@, "out"@, "target"@, "coverage"@, ".git"@, ".nuxt"@,
        ".output"@, ".next"@, ".svelte-kit"@, ".turbo"@, ".vercel"@, ".cache"@, ".idea"@, ".vscode"@,
    ]
}

pub fn excluded_dir_names() -> (r: Vec<&'static str>)
    ensures
        r@.map_values(|s: &'static str| s@) == excluded_names(),
{
    let mut v: Vec<&'static str> = Vec::new();
    v.push("node_modules");
    v.push("dist");
    v.push("build");
    v.push("out");
    v.push("target");
    v.push("coverage");
    v.push(".git");
    v.push(".nuxt");
    v.push(".output");
    v.push(".next");
    v.push(".svelte-kit");
    v.push(".turbo");
    v.push(".vercel");
    v.push(".cache");
    v.push(".idea");
    v.push(".vscode");
    assert(v@.map_values(|s: &'static str| s@) =~= excluded_names());
    v
}

/// Whether the walk skips the directory at `path` (by its name).
pub fn is_excluded_dir(path: &str) -> (r: bool)
    ensures
        r == excluded_names().contains(file_name_of(path@)),
{
    let name = file_name(path);
    let names = excluded_dir_names();
    let ghost ns = excluded_names();
    let mut i: usize = 0;
    while i < names.len()
        invariant
            names@.map_values(|s: &'static str| s@) == ns,
            ns == excluded_names(),
            name@ == file_name_of(path@),
            i <= ns.len(),
            forall|j: int| 0 <= j < i ==> ns[j] != name@,
        decreases ns.len() - i,
    {
        assert(ns[i as int] == names@[i as int]@);
        if str_eq(names[i], name.as_str()) {
            assert(ns[i as int] == name@);
            assert(ns.contains(name@));
            return true;
        }
        i = i + 1;
    }
    false
}

/// Some file of `m` uses `key`.
pub open spec fn used_in(m: Map<Seq<char>, Set<Seq<char>>>, key: Seq<char>) -> bool {
    exists|p: Seq<char>| #[trigger] m.contains_key(p) && m[p].contains(key)
}

/// Law: after the usages of the file at `path` are replaced by `keys` (as
/// [`UsageIndex::update_file`] does, dropping the file when it uses none), a
/// key is used exactly when the file now uses it or another file did.
pub proof fn lemma_update_replaces_file_usages(before: UsageIndex, after: UsageIndex, path: Seq<char>, keys: Set<Seq<char>>, key: Seq<char>)
    requires
        after.view() == if keys.is_empty() { before.view().remove(path) } else { before.view().remove(path).insert(path, keys) },
    ensures
        used_in(after.view(), key) <==> (keys.contains(key) || used_in(before.view().remove(path), key)),
{
    let old = before.view();
    let new = after.view();
    if used_in(new, key) {
        let p = choose|p: Seq<char>| #[trigger] new.contains_key(p) && new[p].contains(key);
        if p != path {
            assert(old.remove(path).contains_key(p) && old.remove(path)[p].contains(key));
        }
    }
    if keys.contains(key) {
        assert(!keys.is_empty()) by {
            if keys.is_empty() { assert(keys =~= Set::empty()); }
        }
        assert(new.contains_key(path) && new[path].contains(key));
    }
    if used_in(old.remove(path), key) {
        let p = choose|p: Seq<char>| #[trigger] old.remove(path).contains_key(p) && old.remove(path)[p].contains(key);
        assert(new.contains_key(p) && new[p].contains(key));
    }
}

/// Law: after the file at `path` is forgotten (as
/// [`UsageIndex::remove_file`] does), a key is used exactly when another
/// file uses it.
pub proof fn lemma_remove_forgets_file_usages(before: UsageIndex, after: UsageIndex, path: Seq<char>, key: Seq<char>)
    requires
        after.view() == before.view().remove(path),
    ensures
        used_in(after.view(), key) <==> exists|p: Seq<char>| p != path && #[trigger] before.view().contains_key(p) && before.view()[p].contains(key),
{
    let old = before.view();
    if used_in(old.remove(path), key) {
        let p = choose|p: Seq<char>| #[trigger] old.remove(path).contains_key(p) && old.remove(path)[p].contains(key);
        assert(p != path && old.contains_key(p) && old[p].contains(key));
    }
    if exists|p: Seq<char>| p != path && #[trigger] old.contains_key(p) && old[p].contains(key) {
        let p = choose|p: Seq<char>| p != path && #[trigger] old.contains_key(p) && old[p].contains(key);
        assert(old.remove(path).contains_key(p) && old.remove(path)[p].contains(key));
    }
}

} // verus!
