//! Plans of edits across the locale files of a project: which files a key
//! is added to (and with which value), which files hold a key, and whether
//! a file is one the edits can write.
use vstd::prelude::*;
use vstd::string::*;
use crate::index::{LocaleIndex, lookup_spec, first_file_of};
use crate::keytree::find_child;
use crate::locale::Locale;
use crate::mutation::{JsonValue, first_field, reached};
use crate::paths::{extension, extension_of};
use crate::text::{split_spec, views, str_eq};
use crate::display::{trim_spec, is_white_space};

verus! {

broadcast use vstd::seq::group_seq_axioms;

/// Extensions of the JSON files the edits write: `json`, `jsonc`, `json5`.
pub open spec fn is_editable_extension(e: Seq<char>) -> bool {
    e == "json"@ || e == "jsonc"@ || e == "json5"@
}

pub open spec fn ext_or_empty(path: Seq<char>) -> Seq<char> {
    match extension_of(path) {
        Some(e) => e,
        None => Seq::empty(),
    }
}

/// `Ok` for a JSON file, else the error naming its extension and path.
pub fn ensure_json(path: &str) -> (r: Result<(), String>)
    ensures
        is_editable_extension(ext_or_empty(path@)) ==> r is Ok,
        !is_editable_extension(ext_or_empty(path@)) ==> (r matches Err(m)
            && m@ == "only JSON locale files are editable in the GUI (got ."@ + ext_or_empty(path@) + " for "@ + path@ + ")"@),
{
    let ext = match extension(path) {
        Some(e) => e,
        None => String::new(),
    };
    let e = ext.as_str();
    if str_eq(e, "json") || str_eq(e, "jsonc") || str_eq(e, "json5") {
        return Ok(());
    }
    let mut m = String::from_str("only JSON locale files are editable in the GUI (got .");
    m.append(e);
    m.append(" for ");
    m.append(path);
    m.append(")");
    Err(m)
}

/// Following `path` through nested objects of `v` reaches something.
pub open spec fn value_at(v: JsonValue, path: Seq<Seq<char>>) -> bool {
    reached(v, path) is Some
}

/// Whether the document `doc` has something at the key `path`.
pub fn value_at_path_exists(doc: &JsonValue, path: &[String]) -> (r: bool)
    ensures
        r == value_at(*doc, views(path@)),
{
    let ghost p = views(path@);
    let mut current = doc;
    let mut i: usize = 0;
    assert(p.skip(0) =~= p);
    while i < path.len()
        invariant
            p == views(path@),
            i <= path@.len(),
            value_at(*doc, p) == value_at(*current, p.skip(i as int)),
        decreases path@.len() - i,
    {
        let ghost rest = p.skip(i as int);
        assert(rest[0] == path@[i as int]@);
        assert(rest.drop_first() =~= p.skip(i + 1));
        match current {
            JsonValue::Object(fs) => {
                match crate::mutation::find_field(fs, path[i].as_str()) {
                    Some(j) => {
                        current = &fs[j].1;
                    },
                    None => {
                        return false;
                    },
                }
            },
            _ => {
                return false;
            },
        }
        i = i + 1;
    }
    assert(p.skip(path@.len() as int).len() == 0);
    true
}

/// A valid new key: not blank and without spaces.
pub open spec fn valid_key(key: Seq<char>) -> bool {
    trim_spec(key).len() > 0 && !key.contains(' ')
}

pub fn is_valid_key(key: &str) -> (r: bool)
    ensures
        r == valid_key(key@),
{
    let cs = crate::text::chars_of(key);
    let (a, b) = crate::display::trim_bounds(&cs, 0, cs.len());
    assert(cs@.subrange(0, cs@.len() as int) =~= key@);
    let mut i: usize = 0;
    while i < cs.len()
        invariant
            cs@ == key@,
            i <= cs@.len(),
            forall|j: int| 0 <= j < i ==> cs@[j] != ' ',
        decreases cs@.len() - i,
    {
        if cs[i] == ' ' {
            assert(key@.contains(' ')) by { assert(key@[i as int] == ' '); }
            return false;
        }
        i = i + 1;
    }
    b > a
}

/// What a step of a project-wide edit does in the locale `l`.
#[derive(Debug)]
pub struct FileEdit {
    pub locale: Locale,
    pub path: String,
    /// The value to write, for an addition.
    pub value: String,
}

pub type FileEditView = (Seq<char>, Seq<char>, Seq<char>);

pub open spec fn edit_views(es: Seq<FileEdit>) -> Seq<FileEditView> {
    es.map_values(|e: FileEdit| (e.locale@, e.path@, e.value@))
}

/// The file of locale `l`: the first one of the index.
pub open spec fn file_of(idx: LocaleIndex, l: Seq<char>) -> Option<Seq<char>> {
    if exists|i: int| first_file_of(idx.files@, l, i) {
        Some(idx.files@[choose|i: int| first_file_of(idx.files@, l, i)].path@)
    } else {
        None
    }
}

/// The steps of adding `key` to locales `ls` in order, with `value` for the
/// source locale and the source locale's value (or nothing) for the others;
/// `Err` at the first locale without a file or whose file is not JSON.
pub open spec fn add_steps(idx: LocaleIndex, key: Seq<char>, value: Seq<char>, ls: Seq<Seq<char>>) -> (Seq<FileEditView>, Option<Seq<char>>)
    decreases ls.len(),
{
    if ls.len() == 0 {
        (Seq::empty(), None)
    } else {
        let prev = add_steps(idx, key, value, ls.drop_last());
        let l = ls.last();
        if prev.1 is Some {
            prev
        } else {
            match file_of(idx, l) {
                None => (prev.0, Some("no file for locale `"@ + l + "`"@)),
                Some(p) => if !is_editable_extension(ext_or_empty(p)) {
                    (prev.0, Some("only JSON locale files are editable in the GUI (got ."@ + ext_or_empty(p) + " for "@ + p + ")"@))
                } else {
                    let v = if l == idx.source_locale@ {
                        value
                    } else {
                        match find_child(lookup_spec(idx.trees.entries@, split_spec(key, '.')), idx.source_locale@) {
                            Some(sv) => sv.value@,
                            None => Seq::empty(),
                        }
                    };
                    (prev.0.push((l, p, v)), None)
                },
            }
        }
    }
}

pub open spec fn locales_of(idx: LocaleIndex) -> Seq<Seq<char>> {
    idx.trees.entries@.map_values(|e: (Locale, crate::keytree::KeyTree)| e.0@)
}

pub(crate) fn file_path_of(idx: &LocaleIndex, l: &Locale) -> (r: Option<String>)
    ensures
        match r {
            Some(p) => file_of(*idx, l@) == Some(p@),
            None => file_of(*idx, l@) is None,
        },
{
    let r = idx.locale_file_path(l);
    proof {
        match r {
            Some(ref p) => {
                let i = choose|i: int| first_file_of(idx.files@, l@, i) && p@ == idx.files@[i].path@;
                assert forall|k: int| first_file_of(idx.files@, l@, k) implies k == i by {
                    if k < i { assert(idx.files@[k].locale@ != l@); }
                    if i < k { assert(idx.files@[i].locale@ != l@); }
                }
            },
            None => {},
        }
    }
    r
}

/// The steps of adding `key` to every locale, in locale order: see
/// [`add_steps`]; a blank key or one with a space is refused first. Whether a file already has the key is for the caller to
/// check on its content, with [`value_at_path_exists`].
pub fn add_key_steps(idx: &LocaleIndex, key: &str, value_in_source: &str) -> (r: (Vec<FileEdit>, Option<String>))
    requires
        idx.trees.wf(),
    ensures
        !valid_key(key@) ==> r.0@.len() == 0 && crate::editor::opt_view(r.1) == Some("invalid key path"@),
        valid_key(key@) ==> (edit_views(r.0@), crate::editor::opt_view(r.1)) == add_steps(*idx, key@, value_in_source@, locales_of(*idx)),
{
    if !is_valid_key(key) {
        return (Vec::new(), Some(String::from_str("invalid key path")));
    }
    let ghost ls = locales_of(*idx);
    let values = idx.lookup(key);
    let source_value = match values.get(&idx.source_locale) {
        Some(v) => v.value.clone(),
        None => String::new(),
    };
    let mut out: Vec<FileEdit> = Vec::new();
    let mut i: usize = 0;
    while i < idx.trees.entries.len()
        invariant
            idx.trees.wf(),
            valid_key(key@),
            ls == locales_of(*idx),
            i <= ls.len(),
            source_value@ == match find_child(lookup_spec(idx.trees.entries@, split_spec(key@, '.')), idx.source_locale@) {
                Some(sv) => sv.value@,
                None => Seq::<char>::empty(),
            },
            (edit_views(out@), None::<Seq<char>>) == add_steps(*idx, key@, value_in_source@, ls.take(i as int)),
        decreases ls.len() - i,
    {
        let l = &idx.trees.entries[i].0;
        assert(ls.take(i + 1).drop_last() =~= ls.take(i as int));
        assert(ls.take(i + 1).last() == l@);
        let path = match file_path_of(idx, l) {
            Some(p) => p,
            None => {
                let mut m = String::from_str("no file for locale `");
                m.append(l.as_str());
                m.append("`");
                proof { lemma_add_steps_stop(*idx, key@, value_in_source@, ls, i as int + 1); }
                return (out, Some(m));
            },
        };
        match ensure_json(path.as_str()) {
            Ok(()) => {},
            Err(m) => {
                proof { lemma_add_steps_stop(*idx, key@, value_in_source@, ls, i as int + 1); }
                return (out, Some(m));
            },
        }
        let value = if l.same_as(&idx.source_locale) { value_in_source.to_string() } else { source_value.clone() };
        let ghost o = edit_views(out@);
        out.push(FileEdit { locale: l.duplicate(), path, value });
        assert(edit_views(out@) =~= o.push((l@, path@, value@)));
        i = i + 1;
    }
    assert(ls.take(ls.len() as int) =~= ls);
    (out, None)
}

/// Once a step fails, the later locales change nothing.
proof fn lemma_add_steps_stop(idx: LocaleIndex, key: Seq<char>, value: Seq<char>, ls: Seq<Seq<char>>, n: int)
    requires
        0 < n <= ls.len(),
        add_steps(idx, key, value, ls.take(n)).1 is Some,
    ensures
        add_steps(idx, key, value, ls) == add_steps(idx, key, value, ls.take(n)),
    decreases ls.len() - n,
{
    if n < ls.len() {
        assert(ls.take(n + 1).drop_last() =~= ls.take(n));
        lemma_add_steps_stop(idx, key, value, ls, n + 1);
    } else {
        assert(ls.take(n) =~= ls);
    }
}

/// The locales holding `key`, in order, each with its file; `Err` at the
/// first such locale without a file or whose file is not JSON.
pub open spec fn holder_steps(idx: LocaleIndex, key: Seq<char>, es: Seq<(Locale, crate::keytree::KeyTree)>) -> (Seq<FileEditView>, Option<Seq<char>>)
    decreases es.len(),
{
    if es.len() == 0 {
        (Seq::empty(), None)
    } else {
        let prev = holder_steps(idx, key, es.drop_last());
        let l = es.last().0@;
        if prev.1 is Some || crate::keytree::leaf_at(es.last().1, split_spec(key, '.')) is None {
            prev
        } else {
            match file_of(idx, l) {
                None => (prev.0, Some("no file for locale `"@ + l + "`"@)),
                Some(p) => if !is_editable_extension(ext_or_empty(p)) {
                    (prev.0, Some("only JSON locale files are editable in the GUI (got ."@ + ext_or_empty(p) + " for "@ + p + ")"@))
                } else {
                    (prev.0.push((l, p, Seq::empty())), None)
                },
            }
        }
    }
}

/// The files to edit to rename or remove `key`: see [`holder_steps`].
pub fn key_holders(idx: &LocaleIndex, key: &str) -> (r: (Vec<FileEdit>, Option<String>))
    requires
        idx.trees.wf(),
    ensures
        (edit_views(r.0@), crate::editor::opt_view(r.1)) == holder_steps(*idx, key@, idx.trees.entries@),
{
    let ghost es = idx.trees.entries@;
    let ghost p = split_spec(key@, '.');
    let values = idx.lookup(key);
    let mut out: Vec<FileEdit> = Vec::new();
    let mut i: usize = 0;
    while i < idx.trees.entries.len()
        invariant
            idx.trees.wf(),
            es == idx.trees.entries@,
            p == split_spec(key@, '.'),
            lookup_pairs_are(values, es, p),
            i <= es.len(),
            (edit_views(out@), None::<Seq<char>>) == holder_steps(*idx, key@, es.take(i as int)),
        decreases es.len() - i,
    {
        let l = &idx.trees.entries[i].0;
        assert(es.take(i + 1).drop_last() =~= es.take(i as int));
        assert(es.take(i + 1).last() == es[i as int]);
        proof {
            crate::index::lemma_lookup_spec_find(es, p, l@);
            crate::keytree::lemma_find_child_at(es, i as int);
        }
        if values.contains_key(l) {
            let path = match file_path_of(idx, l) {
                Some(q) => q,
                None => {
                    let mut m = String::from_str("no file for locale `");
                    m.append(l.as_str());
                    m.append("`");
                    proof { lemma_holder_steps_stop(*idx, key@, es, i as int + 1); }
                    return (out, Some(m));
                },
            };
            match ensure_json(path.as_str()) {
                Ok(()) => {},
                Err(m) => {
                    proof { lemma_holder_steps_stop(*idx, key@, es, i as int + 1); }
                    return (out, Some(m));
                },
            }
            let ghost o = edit_views(out@);
            out.push(FileEdit { locale: l.duplicate(), path, value: String::new() });
            assert(edit_views(out@) =~= o.push((l@, path@, Seq::<char>::empty())));
        }
        i = i + 1;
    }
    assert(es.take(es.len() as int) =~= es);
    (out, None)
}

pub open spec fn lookup_pairs_are(values: crate::index::Lookup, es: Seq<(Locale, crate::keytree::KeyTree)>, p: Seq<Seq<char>>) -> bool {
    &&& crate::index::lookup_pairs(values.entries@) == lookup_spec(es, p)
    &&& crate::index::locales_increasing(values.entries@)
}

proof fn lemma_holder_steps_stop(idx: LocaleIndex, key: Seq<char>, es: Seq<(Locale, crate::keytree::KeyTree)>, n: int)
    requires
        0 < n <= es.len(),
        holder_steps(idx, key, es.take(n)).1 is Some,
    ensures
        holder_steps(idx, key, es) == holder_steps(idx, key, es.take(n)),
    decreases es.len() - n,
{
    if n < es.len() {
        assert(es.take(n + 1).drop_last() =~= es.take(n));
        lemma_holder_steps_stop(idx, key, es, n + 1);
    } else {
        assert(es.take(n) =~= es);
    }
}

/// Why a rename from `old_key` to `new_key` cannot be done, before any file
/// is looked at: the same key, or an invalid new key.
pub fn rename_refusal(old_key: &str, new_key: &str) -> (r: Option<String>)
    ensures
        old_key@ == new_key@ ==> (r matches Some(m) && m@ == "new key is the same as the old key"@),
        old_key@ != new_key@ && !valid_key(new_key@) ==> (r matches Some(m) && m@ == "key must be a non-empty dotted path without spaces"@),
        old_key@ != new_key@ && valid_key(new_key@) ==> r is None,
{
    if str_eq(old_key, new_key) {
        return Some(String::from_str("new key is the same as the old key"));
    }
    if !is_valid_key(new_key) {
        return Some(String::from_str("key must be a non-empty dotted path without spaces"));
    }
    None
}

} // verus!
