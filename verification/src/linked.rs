//! Vue I18n linked messages (`@:other.key`, `@.lower:other.key`).
use vstd::prelude::*;
use vstd::string::*;
use crate::text::{chars_of, str_eq, split_spec, views, str_lt};
use crate::display::{trim_spec, is_white_space};
use crate::keytree::{KeyTree, LocalizedValue, find_child, leaf_at, keys_sorted};
use crate::index::{LocaleIndex, lookup_spec, lookup_pairs, lemma_lookup_spec_find, strictly_sorted, keys_of_trees};
use crate::locale::Locale;

verus! {

broadcast use vstd::seq::group_seq_axioms;

/// A parsed linked-message reference in a locale value.
#[derive(Debug)]
pub struct LinkedMessage<'a> {
    pub target_key: &'a str,
    pub modifier: Option<&'a str>,
}

/// Index of the first `c` in `s`, or `-1`.
pub open spec fn first_index_of(s: Seq<char>, c: char) -> int
    decreases s.len(),
{
    if s.len() == 0 {
        -1
    } else if s[0] == c {
        0
    } else if first_index_of(s.drop_first(), c) < 0 {
        -1
    } else {
        1 + first_index_of(s.drop_first(), c)
    }
}

/// Target key and modifier of a linked message: the trimmed value is `@:`
/// and a key, or `@.`, a modifier, `:` and a key (split at the first `:`),
/// each part trimmed and not empty.
pub open spec fn parse_link_spec(raw: Seq<char>) -> Option<(Seq<char>, Option<Seq<char>>)> {
    let t = trim_spec(raw);
    if t.len() == 0 || t[0] != '@' {
        None
    } else {
        let rest = t.drop_first();
        if rest.len() > 0 && rest[0] == ':' {
            let key = trim_spec(rest.drop_first());
            if key.len() > 0 { Some((key, None)) } else { None }
        } else if rest.len() > 0 && rest[0] == '.' {
            let r2 = rest.drop_first();
            let c = first_index_of(r2, ':');
            if c < 0 {
                None
            } else {
                let m = trim_spec(r2.take(c));
                let k = trim_spec(r2.skip(c + 1));
                if k.len() == 0 || m.len() == 0 { None } else { Some((k, Some(m))) }
            }
        } else {
            None
        }
    }
}

proof fn lemma_first_index_of(s: Seq<char>, c: char)
    ensures
        -1 <= first_index_of(s, c) < s.len(),
        first_index_of(s, c) >= 0 ==> s[first_index_of(s, c)] == c,
        forall|j: int| 0 <= j < s.len() && (first_index_of(s, c) < 0 || j < first_index_of(s, c)) ==> s[j] != c,
    decreases s.len(),
{
    if s.len() > 0 && s[0] != c {
        lemma_first_index_of(s.drop_first(), c);
        assert forall|j: int| 0 <= j < s.len() && (first_index_of(s, c) < 0 || j < first_index_of(s, c)) implies s[j] != c by {
            if j > 0 {
                assert(s[j] == s.drop_first()[j - 1]);
            }
        }
    }
}

/// Bounds of `cs[from..to]` trimmed, as indices into `cs`.
fn trimmed(cs: &Vec<char>, from: usize, to: usize) -> (r: (usize, usize))
    requires
        from <= to <= cs@.len(),
    ensures
        from <= r.0 <= r.1 <= to,
        cs@.subrange(r.0 as int, r.1 as int) == trim_spec(cs@.subrange(from as int, to as int)),
{
    crate::display::trim_bounds(cs, from, to)
}

/// Parses `@:key.path` or `@.modifier:key.path`.
#[verifier::rlimit(50)]
pub fn parse_linked_message<'a>(raw: &'a str) -> (r: Option<LinkedMessage<'a>>)
    ensures
        match parse_link_spec(raw@) {
            None => r is None,
            Some(p) => r matches Some(l) && l.target_key@ == p.0 && match p.1 {
                Some(m) => l.modifier matches Some(lm) && lm@ == m,
                None => l.modifier is None,
            },
        },
{
    let cs = chars_of(raw);
    let (a, b) = trimmed(&cs, 0, cs.len());
    assert(cs@.subrange(0, cs@.len() as int) =~= raw@);
    let ghost t = trim_spec(raw@);
    assert(t =~= cs@.subrange(a as int, b as int));
    if a == b || cs[a] != '@' {
        return None;
    }
    let ghost rest = t.drop_first();
    assert(rest =~= cs@.subrange(a + 1, b as int));
    if a + 1 < b && cs[a + 1] == ':' {
        let (ka, kb) = trimmed(&cs, a + 2, b);
        assert(rest.drop_first() =~= cs@.subrange(a + 2, b as int));
        if ka == kb {
            return None;
        }
        return Some(LinkedMessage { target_key: raw.substring_char(ka, kb), modifier: None });
    }
    if a + 1 < b && cs[a + 1] == '.' {
        let ghost r2 = rest.drop_first();
        assert(r2 =~= cs@.subrange(a + 2, b as int));
        proof { lemma_first_index_of(r2, ':'); }
        let mut c: usize = a + 2;
        while c < b && cs[c] != ':'
            invariant
                a + 2 <= c <= b <= cs@.len(),
                r2 == cs@.subrange(a + 2, b as int),
                forall|j: int| a + 2 <= j < c ==> cs@[j] != ':',
            decreases b - c,
        {
            c = c + 1;
        }
        if c == b {
            assert(first_index_of(r2, ':') < 0) by {
                if first_index_of(r2, ':') >= 0 {
                    assert(r2[first_index_of(r2, ':')] == cs@[a + 2 + first_index_of(r2, ':')]);
                }
            }
            return None;
        }
        assert(first_index_of(r2, ':') == c - (a + 2)) by {
            assert(r2[c - (a + 2)] == ':');
            if first_index_of(r2, ':') < 0 || first_index_of(r2, ':') > c - (a + 2) {
            } else if first_index_of(r2, ':') < c - (a + 2) {
                assert(r2[first_index_of(r2, ':')] == cs@[a + 2 + first_index_of(r2, ':')]);
            }
        }
        let (ma, mb) = trimmed(&cs, a + 2, c);
        let (ka, kb) = trimmed(&cs, c + 1, b);
        assert(r2.take(c - (a + 2)) =~= cs@.subrange(a + 2, c as int));
        assert(r2.skip(c - (a + 2) + 1) =~= cs@.subrange(c + 1, b as int));
        if ka == kb || ma == mb {
            return None;
        }
        return Some(LinkedMessage {
            target_key: raw.substring_char(ka, kb),
            modifier: Some(raw.substring_char(ma, mb)),
        });
    }
    None
}

/// `str::to_lowercase` of `s`.
pub uninterp spec fn lowercase(s: Seq<char>) -> Seq<char>;

/// `str::to_uppercase` of `s`.
pub uninterp spec fn uppercase(s: Seq<char>) -> Seq<char>;

/// `char::to_uppercase` of `c`, collected into a string.
pub uninterp spec fn char_uppercase(c: char) -> Seq<char>;

/// Calls `str::to_lowercase`; the result is only named, by [`lowercase`].
#[verifier::external_body]
pub(crate) fn to_lowercase(s: &str) -> (r: String)
    ensures
        r@ == lowercase(s@),
{
    s.to_lowercase()
}

/// Calls `str::to_uppercase`; the result is only named, by [`uppercase`].
#[verifier::external_body]
fn to_uppercase(s: &str) -> (r: String)
    ensures
        r@ == uppercase(s@),
{
    s.to_uppercase()
}

/// Calls `char::to_uppercase` and collects it; the result is only named, by [`char_uppercase`].
#[verifier::external_body]
fn char_to_uppercase(c: char) -> (r: String)
    ensures
        r@ == char_uppercase(c),
{
    c.to_uppercase().collect::<String>()
}

/// `text` after the link modifier `modifier`: `lower` / `lowercase`,
/// `upper` / `uppercase`, `capitalize` (first character upper-cased);
/// any other modifier, or none, leaves it unchanged.
pub open spec fn modifier_spec(text: Seq<char>, modifier: Option<Seq<char>>) -> Seq<char> {
    match modifier {
        None => text,
        Some(m) => if m == seq!['l', 'o', 'w', 'e', 'r'] || m == seq!['l', 'o', 'w', 'e', 'r', 'c', 'a', 's', 'e'] {
            lowercase(text)
        } else if m == seq!['u', 'p', 'p', 'e', 'r'] || m == seq!['u', 'p', 'p', 'e', 'r', 'c', 'a', 's', 'e'] {
            uppercase(text)
        } else if m == seq!['c', 'a', 'p', 'i', 't', 'a', 'l', 'i', 'z', 'e'] {
            if text.len() == 0 { Seq::empty() } else { char_uppercase(text[0]) + text.drop_first() }
        } else {
            text
        },
    }
}

/// Law: the `capitalize` modifier upper-cases the first character of a
/// non-empty text and leaves every later character exactly as it was; on
/// empty text it gives empty text. No modifier leaves the text unchanged.
pub proof fn lemma_capitalize_changes_only_the_first(t: Seq<char>)
    ensures
        modifier_spec(t, None) == t,
        t.len() == 0 ==> modifier_spec(t, Some(seq!['c', 'a', 'p', 'i', 't', 'a', 'l', 'i', 'z', 'e'])).len() == 0,
        t.len() > 0 ==> ({
            let r = modifier_spec(t, Some(seq!['c', 'a', 'p', 'i', 't', 'a', 'l', 'i', 'z', 'e']));
            let n = char_uppercase(t[0]).len();
            &&& r.len() == n + t.len() - 1
            &&& r.take(n as int) == char_uppercase(t[0])
            &&& forall|i: int| 1 <= i < t.len() ==> #[trigger] r[n + i - 1] == t[i]
        }),
{
    let cap = seq!['c', 'a', 'p', 'i', 't', 'a', 'l', 'i', 'z', 'e'];
    assert(cap != seq!['l', 'o', 'w', 'e', 'r']) by { assert(cap[0] != 'l'); }
    assert(cap != seq!['l', 'o', 'w', 'e', 'r', 'c', 'a', 's', 'e']) by { assert(cap[0] != 'l'); }
    assert(cap != seq!['u', 'p', 'p', 'e', 'r']) by { assert(cap[0] != 'u'); }
    assert(cap != seq!['u', 'p', 'p', 'e', 'r', 'c', 'a', 's', 'e']) by { assert(cap[0] != 'u'); }
    if t.len() > 0 {
        let r = modifier_spec(t, Some(cap));
        let n = char_uppercase(t[0]).len();
        assert(r == char_uppercase(t[0]) + t.drop_first());
        assert(r.take(n as int) =~= char_uppercase(t[0]));
        assert forall|i: int| 1 <= i < t.len() implies #[trigger] r[n + i - 1] == t[i] by {
            assert(t.drop_first()[i - 1] == t[i]);
        }
    }
}

pub open spec fn opt_str_view(m: Option<&str>) -> Option<Seq<char>> {
    match m {
        Some(x) => Some(x@),
        None => None,
    }
}

/// Applies a vue-i18n link modifier to resolved text.
pub fn apply_modifier(text: &str, modifier: Option<&str>) -> (r: String)
    ensures
        r@ == modifier_spec(text@, opt_str_view(modifier)),
{
    let name = match modifier {
        Some(n) => n,
        None => return String::from_str(text),
    };
    proof {
        reveal_strlit("lower");
        reveal_strlit("lowercase");
        reveal_strlit("upper");
        reveal_strlit("uppercase");
        reveal_strlit("capitalize");
        assert("lower"@ =~= seq!['l', 'o', 'w', 'e', 'r']);
        assert("lowercase"@ =~= seq!['l', 'o', 'w', 'e', 'r', 'c', 'a', 's', 'e']);
        assert("upper"@ =~= seq!['u', 'p', 'p', 'e', 'r']);
        assert("uppercase"@ =~= seq!['u', 'p', 'p', 'e', 'r', 'c', 'a', 's', 'e']);
        assert("capitalize"@ =~= seq!['c', 'a', 'p', 'i', 't', 'a', 'l', 'i', 'z', 'e']);
    }
    if str_eq(name, "lower") || str_eq(name, "lowercase") {
        to_lowercase(text)
    } else if str_eq(name, "upper") || str_eq(name, "uppercase") {
        to_uppercase(text)
    } else if str_eq(name, "capitalize") {
        let cs = chars_of(text);
        if cs.len() == 0 {
            String::new()
        } else {
            let mut out = char_to_uppercase(cs[0]);
            let rest = crate::text::string_from_chars(&cs, 1, cs.len());
            out.append(rest.as_str());
            assert(cs@.subrange(1, cs@.len() as int) =~= cs@.drop_first());
            out
        }
    } else {
        String::from_str(text)
    }
}

/// Result of resolving a locale value, following link chains.
#[derive(Debug)]
pub enum ResolvedValue<'a> {
    Literal { text: &'a str },
    Linked {
        /// Text after following the link (and applying a modifier).
        display: String,
        /// Immediate link target (first hop).
        target_key: String,
        /// Full chain `a → b → c` when nested.
        chain: Vec<String>,
        /// Leaf definition that supplied `display`.
        raw: &'a str,
    },
    Broken { target_key: String, reason: &'static str },
}

/// What resolving a value gives, as plain values.
pub enum Resolution {
    Literal(Seq<char>),
    Linked { display: Seq<char>, target: Seq<char>, chain: Seq<Seq<char>>, raw: Seq<char> },
    Broken { target: Seq<char>, reason: Seq<char> },
}

pub open spec fn resolution_of<'a>(r: ResolvedValue<'a>) -> Resolution {
    match r {
        ResolvedValue::Literal { text } => Resolution::Literal(text@),
        ResolvedValue::Linked { display, target_key, chain, raw } =>
            Resolution::Linked { display: display@, target: target_key@, chain: views(chain@), raw: raw@ },
        ResolvedValue::Broken { target_key, reason } => Resolution::Broken { target: target_key@, reason: reason@ },
    }
}

/// Links followed at most before a chain counts as too deep.
pub const MAX_LINK_DEPTH: usize = 12;

/// The value of `key` in locale `l` of the trees `es`.
pub open spec fn leaf_value(es: Seq<(Locale, KeyTree)>, l: Seq<char>, key: Seq<char>) -> Option<LocalizedValue> {
    match find_child(es, l) {
        Some(t) => leaf_at(t, split_spec(key, '.')),
        None => None,
    }
}

pub open spec fn too_deep() -> Seq<char> {
    seq!['l', 'i', 'n', 'k', ' ', 'c', 'h', 'a', 'i', 'n', ' ', 't', 'o', 'o', ' ', 'd', 'e', 'e', 'p']
}

pub open spec fn circular() -> Seq<char> {
    seq!['c', 'i', 'r', 'c', 'u', 'l', 'a', 'r', ' ', 'l', 'i', 'n', 'k']
}

pub open spec fn not_found() -> Seq<char> {
    seq!['t', 'a', 'r', 'g', 'e', 't', ' ', 'k', 'e', 'y', ' ', 'n', 'o', 't', ' ', 'f', 'o', 'u', 'n', 'd']
}

/// Resolution of `current` after following the links of `chain`, the last
/// modifier met being `pending`: a chain longer than [`MAX_LINK_DEPTH`] is
/// broken; a value that is no link ends the chain (a literal when no link
/// was followed); a link back into the chain is circular; a link to a key
/// the locale does not define is broken; else the link is followed.
pub open spec fn resolve_from(es: Seq<(Locale, KeyTree)>, l: Seq<char>, current: Seq<char>, chain: Seq<Seq<char>>, pending: Option<Seq<char>>) -> Resolution
    decreases 13 - chain.len(),
{
    if chain.len() > 12 {
        Resolution::Broken { target: if chain.len() > 0 { chain.last() } else { Seq::empty() }, reason: too_deep() }
    } else {
        match parse_link_spec(current) {
            None => if chain.len() == 0 {
                Resolution::Literal(current)
            } else {
                Resolution::Linked { display: modifier_spec(current, pending), target: chain[0], chain: chain, raw: current }
            },
            Some(link) => if chain.contains(link.0) {
                Resolution::Broken { target: link.0, reason: circular() }
            } else {
                let pending2 = if link.1 is Some { link.1 } else { pending };
                match leaf_value(es, l, link.0) {
                    None => Resolution::Broken { target: link.0, reason: not_found() },
                    Some(v) => resolve_from(es, l, v.value@, chain.push(link.0), pending2),
                }
            },
        }
    }
}

/// Resolves a stored locale value for display, following nested links.
pub fn resolve_value<'a>(index: &'a LocaleIndex, locale: &Locale, raw: &'a str) -> (r: ResolvedValue<'a>)
    requires
        index.trees.wf(),
    ensures
        resolution_of(r) == resolve_from(index.trees.entries@, locale@, raw@, Seq::empty(), None),
{
    let ghost es = index.trees.entries@;
    let mut chain: Vec<String> = Vec::new();
    let mut current: &'a str = raw;
    let mut pending: Option<&'a str> = None;
    assert(views(chain@) =~= Seq::<Seq<char>>::empty());
    loop
        invariant
            index.trees.wf(),
            es == index.trees.entries@,
            chain@.len() <= 13,
            resolve_from(es, locale@, current@, views(chain@), opt_str_view(pending))
                == resolve_from(es, locale@, raw@, Seq::empty(), None),
        decreases 13 - chain@.len(),
    {
        proof {
            reveal_strlit("link chain too deep");
            reveal_strlit("circular link");
            reveal_strlit("target key not found");
            assert("link chain too deep"@ =~= too_deep());
            assert("circular link"@ =~= circular());
            assert("target key not found"@ =~= not_found());
        }
        if chain.len() > MAX_LINK_DEPTH {
            let last = chain[chain.len() - 1].clone();
            assert(views(chain@).last() == last@);
            return ResolvedValue::Broken { target_key: last, reason: "link chain too deep" };
        }
        let link = match parse_linked_message(current) {
            Some(l) => l,
            None => {
                if chain.len() == 0 {
                    return ResolvedValue::Literal { text: current };
                }
                let display = apply_modifier(current, pending);
                let target_key = chain[0].clone();
                return ResolvedValue::Linked { display, target_key, chain, raw: current };
            },
        };
        let target_key = String::from_str(link.target_key);
        let mut k: usize = 0;
        let mut seen: bool = false;
        while k < chain.len() && !seen
            invariant
                k <= chain@.len(),
                seen ==> k < chain@.len() && chain@[k as int]@ == target_key@,
                forall|j: int| 0 <= j < k ==> chain@[j]@ != target_key@,
            decreases chain@.len() - k, if seen { 0int } else { 1int },
        {
            if str_eq(chain[k].as_str(), target_key.as_str()) {
                seen = true;
            } else {
                k = k + 1;
            }
        }
        if seen {
            proof {
                assert(views(chain@)[k as int] == target_key@);
                assert(views(chain@).contains(target_key@));
            }
            return ResolvedValue::Broken { target_key, reason: "circular link" };
        }
        proof {
            assert(!views(chain@).contains(target_key@)) by {
                if views(chain@).contains(target_key@) {
                    let j = choose|j: int| 0 <= j < views(chain@).len() && views(chain@)[j] == target_key@;
                    assert(chain@[j]@ == target_key@);
                }
            }
        }
        let ghost old_chain = views(chain@);
        chain.push(target_key.clone());
        assert(views(chain@) =~= old_chain.push(target_key@));
        if link.modifier.is_some() {
            pending = link.modifier;
        }
        let found = index.lookup(target_key.as_str());
        let leaf = match found.get(locale) {
            Some(v) => v,
            None => {
                proof {
                    lemma_lookup_spec_find(es, split_spec(target_key@, '.'), locale@);
                }
                return ResolvedValue::Broken { target_key, reason: "target key not found" };
            },
        };
        proof {
            lemma_lookup_spec_find(es, split_spec(target_key@, '.'), locale@);
        }
        current = leaf.value.as_str();
    }
}

/// The value `v` is a link to `target`.
pub open spec fn link_hits(v: Seq<char>, target: Seq<char>) -> bool {
    match parse_link_spec(v) {
        Some(p) => p.0 == target,
        None => false,
    }
}

/// Some locale's value of `key` is a link to `target`.
pub open spec fn links_to(es: Seq<(Locale, KeyTree)>, key: Seq<char>, target: Seq<char>) -> bool {
    exists|i: int| 0 <= i < lookup_spec(es, split_spec(key, '.')).len()
        && #[trigger] link_hits(lookup_spec(es, split_spec(key, '.'))[i].1.value@, target)
}

/// The preview text of a resolution: the literal, the linked display, or a
/// marker with the reason and the broken target.
pub open spec fn display_spec(r: Resolution) -> Seq<char> {
    match r {
        Resolution::Literal(t) => t,
        Resolution::Linked { display, .. } => display,
        Resolution::Broken { target, reason } => seq!['⛔', ' '] + reason + seq![':', ' ', '`'] + target + seq!['`'],
    }
}

impl LocaleIndex {
    /// Every key, sorted, whose value links to `target_key` in some locale.
    pub fn keys_linking_to(&self, target_key: &str) -> (r: Vec<String>)
        requires
            self.trees.wf(),
        ensures
            strictly_sorted(views(r@)),
            forall|x: Seq<char>| #[trigger] views(r@).contains(x) <==>
                (keys_of_trees(self.trees.entries@).contains(x) && links_to(self.trees.entries@, x, target_key@)),
    {
        let ghost es = self.trees.entries@;
        let keys = self.all_keys();
        let ghost ks = views(keys@);
        let mut out: Vec<String> = Vec::new();
        let mut i: usize = 0;
        while i < keys.len()
            invariant
                self.trees.wf(),
                es == self.trees.entries@,
                ks == views(keys@),
                strictly_sorted(ks),
                forall|x: Seq<char>| #[trigger] ks.contains(x) <==> keys_of_trees(es).contains(x),
                i <= ks.len(),
                strictly_sorted(views(out@)),
                forall|a: int, j: int| 0 <= a < out@.len() && i <= j < ks.len() ==> str_lt(#[trigger] views(out@)[a], #[trigger] ks[j]),
                forall|x: Seq<char>| #[trigger] views(out@).contains(x) <==>
                    (ks.take(i as int).contains(x) && links_to(es, x, target_key@)),
            decreases ks.len() - i,
        {
            let key = &keys[i];
            let found = self.lookup(key.as_str());
            let ghost ls = lookup_spec(es, split_spec(key@, '.'));
            let mut k: usize = 0;
            let mut hit: bool = false;
            while k < found.entries.len() && !hit
                invariant
                    lookup_pairs(found.entries@) == ls,
                    k <= found.entries@.len(),
                    hit ==> k < ls.len() && link_hits(ls[k as int].1.value@, target_key@),
                    forall|j: int| 0 <= j < k ==> !(#[trigger] link_hits(ls[j].1.value@, target_key@)),
                decreases found.entries@.len() - k, if hit { 0int } else { 1int },
            {
                let v = found.entries[k].1;
                assert(ls[k as int].1 == *v);
                match parse_linked_message(v.value.as_str()) {
                    Some(link) => {
                        if str_eq(link.target_key, target_key) {
                            hit = true;
                        } else {
                            k = k + 1;
                        }
                    },
                    None => {
                        k = k + 1;
                    },
                }
            }
            let ghost o = views(out@);
            proof {
                assert(ks.take(i + 1) =~= ks.take(i as int).push(ks[i as int]));
                crate::text::lemma_contains_push(ks.take(i as int), ks[i as int]);
                assert(ks[i as int] == key@);
                if hit {
                    assert(links_to(es, key@, target_key@));
                } else {
                    assert(!links_to(es, key@, target_key@)) by {
                        if links_to(es, key@, target_key@) {
                            let j = choose|j: int| 0 <= j < ls.len() && #[trigger] link_hits(ls[j].1.value@, target_key@);
                        }
                    }
                }
            }
            if hit {
                out.push(key.clone());
                proof {
                    assert(views(out@) =~= o.push(key@));
                    crate::text::lemma_contains_push(o, key@);
                    assert forall|a: int, b: int| 0 <= a < b < views(out@).len() implies str_lt(#[trigger] views(out@)[a], #[trigger] views(out@)[b]) by {
                        if b == o.len() {
                            assert(str_lt(o[a], ks[i as int]));
                        } else {
                            assert(str_lt(o[a], o[b]));
                        }
                    }
                    assert forall|a: int, j: int| 0 <= a < views(out@).len() && i + 1 <= j < ks.len() implies str_lt(#[trigger] views(out@)[a], #[trigger] ks[j]) by {
                        if a == o.len() {
                            assert(str_lt(ks[i as int], ks[j]));
                        } else {
                            assert(str_lt(o[a], ks[j]));
                        }
                    }
                    assert forall|x: Seq<char>| #[trigger] views(out@).contains(x) <==>
                        (ks.take(i + 1).contains(x) && links_to(es, x, target_key@)) by {
                        if x == key@ {
                        } else {
                            assert(ks.take(i + 1).contains(x) == ks.take(i as int).contains(x));
                        }
                    }
                }
            } else {
                proof {
                    assert forall|x: Seq<char>| #[trigger] views(out@).contains(x) <==>
                        (ks.take(i + 1).contains(x) && links_to(es, x, target_key@)) by {
                        if x != key@ {
                            assert(ks.take(i + 1).contains(x) == ks.take(i as int).contains(x));
                        }
                    }
                    assert forall|a: int, j: int| 0 <= a < views(out@).len() && i + 1 <= j < ks.len() implies str_lt(#[trigger] views(out@)[a], #[trigger] ks[j]) by {
                        assert(str_lt(o[a], ks[j]));
                    }
                }
            }
            i = i + 1;
        }
        assert(ks.take(ks.len() as int) =~= ks);
        out
    }

    /// Resolved preview string for hover and inlay hints.
    pub fn display_for_locale(&self, locale: &Locale, raw: &str) -> (r: String)
        requires
            self.trees.wf(),
        ensures
            r@ == display_spec(resolve_from(self.trees.entries@, locale@, raw@, Seq::empty(), None)),
    {
        match resolve_value(self, locale, raw) {
            ResolvedValue::Literal { text } => String::from_str(text),
            ResolvedValue::Linked { display, .. } => display,
            ResolvedValue::Broken { target_key, reason } => {
                proof {
                    reveal_strlit("⛔ ");
                    reveal_strlit(": `");
                    reveal_strlit("`");
                    assert("⛔ "@ =~= seq!['⛔', ' ']);
                    assert(": `"@ =~= seq![':', ' ', '`']);
                    assert("`"@ =~= seq!['`']);
                }
                let mut out = String::from_str("⛔ ");
                out.append(reason);
                out.append(": `");
                out.append(target_key.as_str());
                out.append("`");
                out
            },
        }
    }
}

/// A chain without repeats stays without repeats, and within the depth
/// bound, as resolution follows further links.
proof fn lemma_resolution_chain(es: Seq<(Locale, KeyTree)>, l: Seq<char>, current: Seq<char>, chain: Seq<Seq<char>>, pending: Option<Seq<char>>)
    requires
        chain.no_duplicates(),
        chain.len() <= 13,
    ensures
        match resolve_from(es, l, current, chain, pending) {
            Resolution::Linked { chain: c, target: t, .. } => c.no_duplicates() && c.len() <= 12 && chain.len() <= c.len()
                && c.len() > 0 && t == c[0] && forall|i: int| 0 <= i < chain.len() ==> c[i] == chain[i],
            Resolution::Literal(_) => chain.len() == 0,
            _ => true,
        },
    decreases 13 - chain.len(),
{
    if chain.len() <= 12 {
        match parse_link_spec(current) {
            Some(link) => {
                if !chain.contains(link.0) {
                    let pending2 = if link.1 is Some { link.1 } else { pending };
                    match leaf_value(es, l, link.0) {
                        Some(v) => {
                            let c2 = chain.push(link.0);
                            assert forall|a: int, b: int| 0 <= a < b < c2.len() implies c2[a] != c2[b] by {
                                if b == c2.len() - 1 {
                                    assert(c2[a] == chain[a]);
                                    assert(chain.contains(chain[a]));
                                } else {
                                    assert(c2[a] == chain[a] && c2[b] == chain[b]);
                                }
                            }
                            lemma_resolution_chain(es, l, v.value@, c2, pending2);
                        },
                        None => {},
                    }
                }
            },
            None => {},
        }
    }
}

/// Law: resolving a stored value gives the value itself exactly when it is
/// no link; otherwise it follows a chain of at most `MAX_LINK_DEPTH` links
/// that never visits a key twice and starts at the reported target (a
/// cycle is reported as a broken link).
pub proof fn lemma_link_chain_never_repeats(es: Seq<(Locale, KeyTree)>, l: Seq<char>, raw: Seq<char>)
    ensures
        match resolve_from(es, l, raw, Seq::empty(), None) {
            Resolution::Literal(t) => t == raw && parse_link_spec(raw) is None,
            Resolution::Linked { chain, target, .. } => parse_link_spec(raw) is Some && chain.no_duplicates()
                && 1 <= chain.len() <= MAX_LINK_DEPTH && target == chain[0] && chain[0] == parse_link_spec(raw).unwrap().0,
            Resolution::Broken { .. } => parse_link_spec(raw) is Some,
        },
        parse_link_spec(raw) is None <==> resolve_from(es, l, raw, Seq::empty(), None) is Literal,
{
    let e = Seq::<Seq<char>>::empty();
    lemma_resolution_chain(es, l, raw, e, None);
    match parse_link_spec(raw) {
        Some(link) => {
            assert(!e.contains(link.0));
            match leaf_value(es, l, link.0) {
                Some(v) => {
                    let pending2 = if link.1 is Some { link.1 } else { None };
                    let c1 = e.push(link.0);
                    assert(c1.no_duplicates());
                    assert(resolve_from(es, l, raw, e, None) == resolve_from(es, l, v.value@, c1, pending2));
                    lemma_resolution_chain(es, l, v.value@, c1, pending2);

                },
                None => {},
            }
        },
        None => {},
    }
}

} // verus!
