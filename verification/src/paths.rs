//! Paths as `/`-separated strings: file name, stem, extension, parent, and
//! comparison of paths that were normalised beforehand.
use vstd::prelude::*;
use crate::text::{chars_of, string_from_chars, str_eq};

verus! {

broadcast use vstd::seq::group_seq_axioms;

/// Index of the last `c` in `s`, or `-1`.
pub open spec fn last_index_of(s: Seq<char>, c: char) -> int
    decreases s.len(),
{
    if s.len() == 0 {
        -1
    } else if s.last() == c {
        s.len() - 1
    } else {
        last_index_of(s.drop_last(), c)
    }
}

pub proof fn lemma_last_index_of(s: Seq<char>, c: char)
    ensures
        -1 <= last_index_of(s, c) < s.len(),
        last_index_of(s, c) >= 0 ==> s[last_index_of(s, c)] == c,
        forall|j: int| last_index_of(s, c) < j < s.len() ==> s[j] != c,
    decreases s.len(),
{
    if s.len() > 0 && s.last() != c {
        lemma_last_index_of(s.drop_last(), c);
        assert forall|j: int| last_index_of(s, c) < j < s.len() implies s[j] != c by {
            if j < s.len() - 1 {
                assert(s[j] == s.drop_last()[j]);
            }
        }
    }
}

/// The last component of `path`.
pub open spec fn file_name_of(path: Seq<char>) -> Seq<char> {
    path.subrange(last_index_of(path, '/') + 1, path.len() as int)
}

/// Everything before the last `/` of `path` (`/` itself when that is the
/// first character; empty when there is none).
pub open spec fn parent_of(path: Seq<char>) -> Seq<char> {
    let i = last_index_of(path, '/');
    if i < 0 {
        Seq::empty()
    } else if i == 0 {
        seq!['/']
    } else {
        path.subrange(0, i)
    }
}

/// The extension of the file name: what follows its last `.`, unless the
/// name has no `.`, starts with its only `.`, or is `..`.
pub open spec fn extension_of(path: Seq<char>) -> Option<Seq<char>> {
    let name = file_name_of(path);
    let d = last_index_of(name, '.');
    if d <= 0 || name == seq!['.', '.'] {
        None
    } else {
        Some(name.subrange(d + 1, name.len() as int))
    }
}

/// The file name without its extension.
pub open spec fn stem_of(path: Seq<char>) -> Seq<char> {
    let name = file_name_of(path);
    let d = last_index_of(name, '.');
    if d <= 0 || name == seq!['.', '.'] {
        name
    } else {
        name.subrange(0, d)
    }
}

fn last_index(cs: &Vec<char>, c: char) -> (r: Option<usize>)
    ensures
        match r {
            Some(i) => i as int == last_index_of(cs@, c),
            None => last_index_of(cs@, c) == -1,
        },
{
    let mut i: usize = cs.len();
    assert(cs@.take(i as int) =~= cs@);
    while i > 0
        invariant
            i <= cs@.len(),
            last_index_of(cs@, c) == last_index_of(cs@.take(i as int), c),
        decreases i,
    {
        assert(cs@.take(i as int).drop_last() =~= cs@.take(i - 1));
        if cs[i - 1] == c {
            return Some(i - 1);
        }
        i = i - 1;
    }
    None
}

proof fn lemma_take_full(cs: Seq<char>)
    ensures
        cs.take(cs.len() as int) == cs,
{
    assert(cs.take(cs.len() as int) =~= cs);
}

/// The last component of `path`.
pub fn file_name(path: &str) -> (r: String)
    ensures
        r@ == file_name_of(path@),
{
    let cs = chars_of(path);
    proof { lemma_take_full(cs@); lemma_last_index_of(cs@, '/'); }
    let from = match last_index(&cs, '/') {
        Some(i) => i + 1,
        None => 0,
    };
    string_from_chars(&cs, from, cs.len())
}

/// Everything before the last `/` of `path`.
pub fn parent(path: &str) -> (r: String)
    ensures
        r@ == parent_of(path@),
{
    let cs = chars_of(path);
    proof { lemma_take_full(cs@); lemma_last_index_of(cs@, '/'); }
    match last_index(&cs, '/') {
        None => String::new(),
        Some(i) => {
            if i == 0 {
                let r = string_from_chars(&cs, 0, 1);
                assert(r@ =~= seq!['/']);
                r
            } else {
                string_from_chars(&cs, 0, i)
            }
        },
    }
}

fn is_dot_dot(name: &Vec<char>) -> (r: bool)
    ensures
        r == (name@ == seq!['.', '.']),
{
    let r = name.len() == 2 && name[0] == '.' && name[1] == '.';
    assert(r ==> name@ =~= seq!['.', '.']);
    r
}

/// The extension of the file name of `path`.
pub fn extension(path: &str) -> (r: Option<String>)
    ensures
        match r {
            Some(e) => extension_of(path@) == Some(e@),
            None => extension_of(path@) is None,
        },
{
    let name = file_name(path);
    let cs = chars_of(name.as_str());
    proof { lemma_take_full(cs@); lemma_last_index_of(cs@, '.'); }
    match last_index(&cs, '.') {
        Some(d) => {
            let n = cs.len();
            assert(d < n);
            if d == 0 || is_dot_dot(&cs) {
                None
            } else {
                Some(string_from_chars(&cs, d + 1, n))
            }
        },
        None => None,
    }
}

/// The file name of `path` without its extension.
pub fn stem(path: &str) -> (r: String)
    ensures
        r@ == stem_of(path@),
{
    let name = file_name(path);
    let cs = chars_of(name.as_str());
    proof { lemma_take_full(cs@); lemma_last_index_of(cs@, '.'); }
    match last_index(&cs, '.') {
        Some(d) => {
            if d == 0 || is_dot_dot(&cs) {
                name
            } else {
                string_from_chars(&cs, 0, d)
            }
        },
        None => name,
    }
}

/// `p` joined onto `root`: an absolute `p` replaces `root`; otherwise a `/`
/// goes between them unless `root` is empty or already ends with one.
pub open spec fn joined_path(root: Seq<char>, p: Seq<char>) -> Seq<char> {
    if p.len() > 0 && p[0] == '/' {
        p
    } else if root.len() == 0 {
        p
    } else if root.last() == '/' {
        root + p
    } else {
        root + "/"@ + p
    }
}

pub fn join_path(root: &str, p: &str) -> (r: String)
    ensures
        r@ == joined_path(root@, p@),
{
    let pc = chars_of(p);
    let rc = chars_of(root);
    if pc.len() > 0 && pc[0] == '/' {
        return p.to_string();
    }
    if rc.len() == 0 {
        return p.to_string();
    }
    let mut r = root.to_string();
    if rc[rc.len() - 1] != '/' {
        r.append("/");
    }
    r.append(p);
    r
}

/// Whether two paths name the same file. Paths are compared as written:
/// the caller resolves symbolic links and relative parts beforehand.
pub fn paths_equal(a: &str, b: &str) -> (r: bool)
    ensures
        r == (a@ == b@),
{
    str_eq(a, b)
}

} // verus!
