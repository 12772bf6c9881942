//! Locale descriptors (BCP-47 codes, source vs target, directory layouts).
use vstd::prelude::*;
use crate::text::{chars_of, str_eq};
use crate::config::ProjectConfig;

verus! {

/// Lower-cases ASCII letters and turns `_` into `-`.
pub open spec fn normalize_locale_char(c: char) -> char {
    if 'A' <= c <= 'Z' {
        ((c as u32) + 32) as char
    } else if c == '_' {
        '-'
    } else {
        c
    }
}

/// The normalised form of a locale code.
pub open spec fn normalize_locale(code: Seq<char>) -> Seq<char> {
    code.map_values(|c: char| normalize_locale_char(c))
}

/// BCP-47 locale code (e.g. `"en"`, `"fr-fr"`), normalised to ASCII lowercase
/// with `-` as separator.
#[derive(Clone, Debug, Default, Eq, Hash, Ord, PartialEq, PartialOrd)]
pub struct Locale(String);

impl View for Locale {
    type V = Seq<char>;

    closed spec fn view(&self) -> Seq<char> {
        self.0@
    }
}

impl Locale {
    pub fn new(code: &str) -> (r: Locale)
        ensures
            r@ == normalize_locale(code@),
    {
        let cs = chars_of(code);
        let mut s = String::new();
        let mut i: usize = 0;
        while i < cs.len()
            invariant
                i <= cs@.len(),
                s@ == normalize_locale(cs@.take(i as int)),
            decreases cs@.len() - i,
        {
            let c = cs[i];
            let d = if 'A' <= c && c <= 'Z' {
                ((c as u32) + 32) as u8 as char
            } else if c == '_' {
                '-'
            } else {
                c
            };
            assert(d == normalize_locale_char(c)) by {
                if 'A' <= c && c <= 'Z' {
                    assert(((c as u32) + 32) as u8 as char == ((c as u32) + 32) as char);
                }
            }
            s.push(d);
            assert(normalize_locale(cs@.take(i + 1)) =~= normalize_locale(cs@.take(i as int)).push(d));
            i = i + 1;
        }
        assert(cs@.take(cs@.len() as int) =~= cs@);
        Locale(s)
    }

    pub fn as_str(&self) -> (r: &str)
        ensures
            r@ == self@,
    {
        self.0.as_str()
    }

    pub fn is_empty(&self) -> (r: bool)
        ensures
            r == (self@.len() == 0),
    {
        self.0.as_str().unicode_len() == 0
    }

    /// A second value with the same code.
    pub fn duplicate(&self) -> (r: Locale)
        ensures
            r == *self,
            r@ == self@,
    {
        Locale(self.0.clone())
    }

    /// Same code as `other`.
    pub fn same_as(&self, other: &Locale) -> (r: bool)
        ensures
            r == (self@ == other@),
    {
        str_eq(self.0.as_str(), other.0.as_str())
    }
}

/// How locale files are organised on disk under a single locale path.
#[derive(Clone, Copy, Debug, Eq, PartialEq, Structural)]
pub enum LocaleLayout {
    /// One file per locale: `en.json`, `fr.json`, `app_en.arb`.
    Flat,
    /// One subdirectory per locale, each containing namespaced files.
    Nested,
}

/// A locale file discovered on disk.
#[derive(Clone, Debug)]
pub struct LocaleFile {
    pub locale: Locale,
    /// Namespace derived from the filename stem (only for nested layouts).
    pub namespace: Option<String>,
    pub path: String,
    /// The file wraps every key under a top-level property named after its
    /// namespace (`slots.json` holding `{ "slots": { ... } }`).
    pub inline_namespace_root: bool,
}

impl LocaleFile {
    /// Whether keys of this file are indexed under its namespace: only in a
    /// nested layout, when the configuration asks for file namespaces, and
    /// when the file does not already wrap its keys under that namespace.
    pub open spec fn spec_should_prepend_filename_namespace(&self, config: &ProjectConfig, layout: LocaleLayout) -> bool {
        &&& layout == LocaleLayout::Nested
        &&& config.spec_use_file_namespace()
        &&& !self.inline_namespace_root
    }

    #[verifier::when_used_as_spec(spec_should_prepend_filename_namespace)]
    pub fn should_prepend_filename_namespace(&self, config: &ProjectConfig, layout: LocaleLayout) -> (r: bool)
        ensures
            r == self.spec_should_prepend_filename_namespace(config, layout),
    {
        layout == LocaleLayout::Nested && config.use_file_namespace() && !self.inline_namespace_root
    }

    /// A copy of this descriptor.
    pub fn duplicate(&self) -> (r: LocaleFile)
        ensures
            r == *self,
            r.locale@ == self.locale@,
            r.namespace is Some == self.namespace is Some,
            r.namespace is Some ==> r.namespace->0@ == self.namespace->0@,
            r.path@ == self.path@,
            r.inline_namespace_root == self.inline_namespace_root,
    {
        LocaleFile {
            locale: self.locale.duplicate(),
            namespace: match &self.namespace {
                Some(n) => Some(n.clone()),
                None => None,
            },
            path: self.path.clone(),
            inline_namespace_root: self.inline_namespace_root,
        }
    }
}

} // verus!
