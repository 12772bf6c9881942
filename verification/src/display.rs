//! Human-friendly formatting of translation values: vue-i18n plural forms
//! separated by `|`, ICU MessageFormat detection, `{name}` interpolation.
use vstd::prelude::*;
use vstd::string::*;
use crate::text::{chars_of, split_spec, lemma_split_nonempty};

verus! {

broadcast use vstd::seq::group_seq_axioms;

/// Unicode `White_Space`, the characters `char::is_whitespace` accepts.
pub open spec fn is_white_space(c: char) -> bool {
    ('\u{9}' <= c <= '\u{d}') || c == ' ' || c == '\u{85}' || c == '\u{a0}' || c == '\u{1680}'
        || ('\u{2000}' <= c <= '\u{200a}') || c == '\u{2028}' || c == '\u{2029}' || c == '\u{202f}'
        || c == '\u{205f}' || c == '\u{3000}'
}

pub(crate) fn white_space_char(c: char) -> (r: bool)
    ensures
        r == is_white_space(c),
{
    white_space(c)
}

fn white_space(c: char) -> (r: bool)
    ensures
        r == is_white_space(c),
{
    ('\u{9}' <= c && c <= '\u{d}') || c == ' ' || c == '\u{85}' || c == '\u{a0}' || c == '\u{1680}'
        || ('\u{2000}' <= c && c <= '\u{200a}') || c == '\u{2028}' || c == '\u{2029}' || c == '\u{202f}'
        || c == '\u{205f}' || c == '\u{3000}'
}

/// Number of leading white-space characters of `s`.
pub open spec fn leading_ws(s: Seq<char>) -> nat
    decreases s.len(),
{
    if s.len() > 0 && is_white_space(s[0]) { 1 + leading_ws(s.drop_first()) } else { 0 }
}

/// Number of trailing white-space characters of `s`.
pub open spec fn trailing_ws(s: Seq<char>) -> nat
    decreases s.len(),
{
    if s.len() > 0 && is_white_space(s.last()) { 1 + trailing_ws(s.drop_last()) } else { 0 }
}

/// `s` without leading and trailing white space (as `str::trim`).
pub open spec fn trim_spec(s: Seq<char>) -> Seq<char> {
    let a = leading_ws(s) as int;
    if a == s.len() {
        Seq::empty()
    } else {
        s.subrange(a, s.len() - trailing_ws(s) as int)
    }
}

proof fn lemma_leading_ws(s: Seq<char>, i: int)
    requires
        0 <= i <= s.len(),
        forall|j: int| 0 <= j < i ==> is_white_space(#[trigger] s[j]),
    ensures
        leading_ws(s) == i + leading_ws(s.subrange(i, s.len() as int)),
    decreases i,
{
    if i > 0 {
        assert forall|j: int| 0 <= j < i - 1 implies is_white_space(#[trigger] s.drop_first()[j]) by {
            assert(s.drop_first()[j] == s[j + 1]);
        }
        lemma_leading_ws(s.drop_first(), i - 1);
        assert(s.drop_first().subrange(i - 1, s.drop_first().len() as int) =~= s.subrange(i, s.len() as int));
    } else {
        assert(s.subrange(0, s.len() as int) =~= s);
    }
}

proof fn lemma_trailing_ws(s: Seq<char>, k: int)
    requires
        0 <= k <= s.len(),
        forall|j: int| k <= j < s.len() ==> is_white_space(#[trigger] s[j]),
    ensures
        trailing_ws(s) == (s.len() - k) + trailing_ws(s.subrange(0, k)),
    decreases s.len() - k,
{
    if k < s.len() {
        assert forall|j: int| k <= j < s.drop_last().len() implies is_white_space(#[trigger] s.drop_last()[j]) by {
            assert(s.drop_last()[j] == s[j]);
        }
        lemma_trailing_ws(s.drop_last(), k);
        assert(s.drop_last().subrange(0, k) =~= s.subrange(0, k));
    } else {
        assert(s.subrange(0, k) =~= s);
    }
}

/// Bounds `[a, b)` of `cs[from..to]` trimmed.
pub(crate) fn trim_bounds(cs: &Vec<char>, from: usize, to: usize) -> (r: (usize, usize))
    requires
        from <= to <= cs@.len(),
    ensures
        from <= r.0 <= r.1 <= to,
        cs@.subrange(r.0 as int, r.1 as int) == trim_spec(cs@.subrange(from as int, to as int)),
{
    let ghost s = cs@.subrange(from as int, to as int);
    let mut a: usize = from;
    while a < to && white_space(cs[a])
        invariant
            from <= a <= to <= cs@.len(),
            s == cs@.subrange(from as int, to as int),
            forall|j: int| from <= j < a ==> is_white_space(#[trigger] cs@[j]),
        decreases to - a,
    {
        a = a + 1;
    }
    proof {
        assert forall|j: int| 0 <= j < a - from implies is_white_space(#[trigger] s[j]) by {
            assert(s[j] == cs@[from + j]);
        }
        lemma_leading_ws(s, a - from);
        if a < to {
            assert(s.subrange(a - from, s.len() as int)[0] == cs@[a as int]);
        } else {
            assert(s.subrange(a - from, s.len() as int).len() == 0);
        }
    }
    if a == to {
        assert(cs@.subrange(a as int, a as int) =~= Seq::<char>::empty());
        return (a, a);
    }
    let mut b: usize = to;
    while b > a && white_space(cs[b - 1])
        invariant
            from <= a < to <= cs@.len(),
            a <= b <= to,
            !is_white_space(cs@[a as int]),
            forall|j: int| b <= j < to ==> is_white_space(#[trigger] cs@[j]),
        decreases b,
    {
        b = b - 1;
    }
    proof {
        assert(b > a) by {
            if b == a {
                assert(is_white_space(cs@[a as int]) == false);
            }
        }
        assert forall|j: int| b - from <= j < s.len() implies is_white_space(#[trigger] s[j]) by {
            assert(s[j] == cs@[from + j]);
        }
        lemma_trailing_ws(s, b - from);
        assert(s.subrange(0, b - from).last() == cs@[b - 1]);
        assert(cs@.subrange(a as int, b as int) =~= s.subrange(a - from, s.len() - (to - b)));
    }
    (a, b)
}

/// `pat` occurs in `s`.
pub open spec fn contains_seq(s: Seq<char>, pat: Seq<char>) -> bool {
    exists|i: int| 0 <= i <= s.len() - pat.len() && #[trigger] s.subrange(i, i + pat.len()) == pat
}

pub(crate) fn contains_str(cs: &Vec<char>, pat: &str) -> (r: bool)
    ensures
        r == contains_seq(cs@, pat@),
{
    let ps = chars_of(pat);
    if ps.len() > cs.len() {
        return false;
    }
    if ps.len() == 0 {
        assert(cs@.subrange(0, 0 + pat@.len() as int) =~= pat@);
        return true;
    }
    let n = cs.len();
    let mut i: usize = 0;
    let last = cs.len() - ps.len();
    while i <= last
        invariant
            ps@ == pat@,
            ps@.len() <= cs@.len(),
            ps@.len() > 0,
            n == cs@.len(),
            last == cs@.len() - ps@.len(),
            i <= last + 1,
            forall|k: int| 0 <= k < i ==> #[trigger] cs@.subrange(k, k + ps@.len()) != ps@,
        decreases cs@.len() - i,
    {
        let mut j: usize = 0;
        while j < ps.len() && cs[i + j] == ps[j]
            invariant
                i <= last,
                n == cs@.len(),
                last == cs@.len() - ps@.len(),
                ps@.len() <= cs@.len(),
                j <= ps@.len(),
                forall|k: int| 0 <= k < j ==> cs@[i + k] == ps@[k],
            decreases ps@.len() - j,
        {
            j = j + 1;
        }
        if j == ps.len() {
            assert(cs@.subrange(i as int, i + ps@.len()) =~= ps@);
            return true;
        }
        assert(cs@.subrange(i as int, i + ps@.len())[j as int] != ps@[j as int]);
        i = i + 1;
    }
    proof {
        assert forall|k: int| 0 <= k <= cs@.len() - ps@.len() implies #[trigger] cs@.subrange(k, k + ps@.len()) != ps@ by {
            assert(k < i);
        }
    }
    false
}

/// ICU MessageFormat markers.
pub open spec fn looks_like_icu(s: Seq<char>) -> bool {
    contains_seq(s, seq![',', ' ', 'p', 'l', 'u', 'r', 'a', 'l', ','])
        || contains_seq(s, seq![',', ' ', 's', 'e', 'l', 'e', 'c', 't', ','])
        || contains_seq(s, seq![',', ' ', 's', 'e', 'l', 'e', 'c', 't', 'o', 'r', 'd', 'i', 'n', 'a', 'l', ','])
}

/// The forms of a value: the value itself when it looks like ICU, else its
/// `|`-separated pieces, trimmed.
pub open spec fn forms_spec(raw: Seq<char>) -> Seq<Seq<char>> {
    if looks_like_icu(raw) {
        seq![raw]
    } else {
        split_spec(raw, '|').map_values(|p: Seq<char>| trim_spec(p))
    }
}

/// Law: a value with more than one form does not look like ICU
/// MessageFormat and holds a `|`.
pub proof fn lemma_plural_needs_bar(raw: Seq<char>)
    ensures
        forms_spec(raw).len() > 1 ==> !looks_like_icu(raw) && raw.contains('|'),
{
    if !looks_like_icu(raw) && !raw.contains('|') {
        crate::text::lemma_split_without_sep(raw, '|');
    }
}

/// Label of plural form `index` among `n` forms: vue-i18n calls two forms
/// one / other and three forms zero / one / other.
pub open spec fn form_label_spec(n: int, index: int) -> Seq<char> {
    if n == 2 && index == 0 {
        seq!['o', 'n', 'e']
    } else if n == 2 && index == 1 {
        seq!['o', 't', 'h', 'e', 'r']
    } else if n == 3 && index == 0 {
        seq!['z', 'e', 'r', 'o']
    } else if n == 3 && index == 1 {
        seq!['o', 'n', 'e']
    } else if n == 3 && index == 2 {
        seq!['o', 't', 'h', 'e', 'r']
    } else {
        seq!['f', 'o', 'r', 'm']
    }
}

/// A parsed translation value.
#[derive(Debug)]
pub struct ParsedValue<'a> {
    /// Individual plural forms; a non-pluralised string has exactly one.
    pub forms: Vec<&'a str>,
    /// The raw source string.
    pub raw: &'a str,
    /// Whether the string contains `{placeholder}` interpolations.
    pub has_interpolation: bool,
    /// Whether the string looks like ICU MessageFormat (`{count, plural, ...}`).
    pub has_icu: bool,
}

pub open spec fn str_views<'a>(v: Seq<&'a str>) -> Seq<Seq<char>> {
    v.map_values(|s: &'a str| s@)
}

impl<'a> ParsedValue<'a> {
    pub fn parse(raw: &'a str) -> (r: ParsedValue<'a>)
        ensures
            r.raw == raw,
            r.has_icu == looks_like_icu(raw@),
            r.has_interpolation == (raw@.contains('{') && raw@.contains('}')),
            str_views(r.forms@) == forms_spec(raw@),
    {
        let cs = chars_of(raw);
        proof {
            reveal_strlit(", plural,");
            reveal_strlit(", select,");
            reveal_strlit(", selectordinal,");
            assert(", plural,"@ =~= seq![',', ' ', 'p', 'l', 'u', 'r', 'a', 'l', ',']);
            assert(", select,"@ =~= seq![',', ' ', 's', 'e', 'l', 'e', 'c', 't', ',']);
            assert(", selectordinal,"@ =~= seq![',', ' ', 's', 'e', 'l', 'e', 'c', 't', 'o', 'r', 'd', 'i', 'n', 'a', 'l', ',']);
        }
        let has_icu = contains_str(&cs, ", plural,") || contains_str(&cs, ", select,")
            || contains_str(&cs, ", selectordinal,");
        let mut forms: Vec<&'a str> = Vec::new();
        if has_icu {
            forms.push(raw);
            assert(str_views(forms@) =~= seq![raw@]);
        } else {
            // pieces between `|`, trimmed
            let ghost mut segs: Seq<Seq<char>> = Seq::empty();
            let mut start: usize = 0;
            let mut i: usize = 0;
            assert(cs@.take(0) =~= Seq::<char>::empty());
            assert(segs.push(cs@.subrange(0, 0)) =~= seq![Seq::<char>::empty()]);
            assert(str_views(forms@) =~= segs.map_values(|p: Seq<char>| trim_spec(p)));
            while i < cs.len()
                invariant
                    cs@ == raw@,
                    start <= i <= cs@.len(),
                    segs.push(cs@.subrange(start as int, i as int)) == split_spec(cs@.take(i as int), '|'),
                    str_views(forms@) == segs.map_values(|p: Seq<char>| trim_spec(p)),
                decreases cs@.len() - i,
            {
                let ghost prev = str_views(forms@);
                assert(cs@.take(i + 1).drop_last() =~= cs@.take(i as int));
                assert(cs@.take(i + 1).last() == cs@[i as int]);
                if cs[i] == '|' {
                    let (a, b) = trim_bounds(&cs, start, i);
                    forms.push(raw.substring_char(a, b));
                    proof {
                        let piece = cs@.subrange(start as int, i as int);
                        assert(str_views(forms@) =~= prev.push(trim_spec(piece)));
                        assert(segs.push(piece).map_values(|p: Seq<char>| trim_spec(p))
                            =~= segs.map_values(|p: Seq<char>| trim_spec(p)).push(trim_spec(piece)));
                        segs = segs.push(piece);
                    }
                    start = i + 1;
                    assert(cs@.subrange(start as int, (i + 1) as int) =~= Seq::<char>::empty());
                } else {
                    proof {
                        let piece = cs@.subrange(start as int, i as int);
                        assert(cs@.subrange(start as int, (i + 1) as int) =~= piece.push(cs@[i as int]));
                        assert(segs.push(piece).update(segs.len() as int, piece.push(cs@[i as int]))
                            =~= segs.push(piece.push(cs@[i as int])));
                    }
                }
                i = i + 1;
            }
            let (a, b) = trim_bounds(&cs, start, cs.len());
            let ghost fv = str_views(forms@);
            forms.push(raw.substring_char(a, b));
            proof {
                let piece = cs@.subrange(start as int, cs@.len() as int);
                assert(cs@.take(cs@.len() as int) =~= cs@);
                assert(str_views(forms@) =~= fv.push(trim_spec(piece)));
                assert(segs.push(piece).map_values(|p: Seq<char>| trim_spec(p))
                    =~= segs.map_values(|p: Seq<char>| trim_spec(p)).push(trim_spec(piece)));
            }
        }
        let has_interpolation = raw_contains_char(&cs, '{') && raw_contains_char(&cs, '}');
        ParsedValue { forms, raw, has_interpolation, has_icu }
    }

    /// More than one form.
    pub fn is_plural(&self) -> (r: bool)
        ensures
            r == (self.forms@.len() > 1),
    {
        self.forms.len() > 1
    }

    /// The form used for compact previews: the only one; the second of three
    /// or more (`"no | one | other"`); the first of two; else the raw value.
    pub fn primary_form(&self) -> (r: &str)
        ensures
            r@ == (if self.forms@.len() == 1 {
                self.forms@[0]@
            } else if self.forms@.len() >= 3 {
                self.forms@[1]@
            } else if self.forms@.len() == 2 {
                self.forms@[0]@
            } else {
                self.raw@
            }),
    {
        let n = self.forms.len();
        if n == 1 {
            self.forms[0]
        } else if n >= 3 {
            self.forms[1]
        } else if n == 2 {
            self.forms[0]
        } else {
            self.raw
        }
    }

    /// Label of plural form `index`, after the vue-i18n convention.
    pub fn form_label(&self, index: usize) -> (r: &'static str)
        ensures
            r@ == form_label_spec(self.forms@.len() as int, index as int),
    {
        proof {
            reveal_strlit("one");
            reveal_strlit("other");
            reveal_strlit("zero");
            reveal_strlit("form");
            assert("one"@ =~= seq!['o', 'n', 'e']);
            assert("other"@ =~= seq!['o', 't', 'h', 'e', 'r']);
            assert("zero"@ =~= seq!['z', 'e', 'r', 'o']);
            assert("form"@ =~= seq!['f', 'o', 'r', 'm']);
        }
        let n = self.forms.len();
        if n == 2 && index == 0 {
            "one"
        } else if n == 2 && index == 1 {
            "other"
        } else if n == 3 && index == 0 {
            "zero"
        } else if n == 3 && index == 1 {
            "one"
        } else if n == 3 && index == 2 {
            "other"
        } else {
            "form"
        }
    }
}

fn raw_contains_char(cs: &Vec<char>, c: char) -> (r: bool)
    ensures
        r == cs@.contains(c),
{
    let mut i: usize = 0;
    while i < cs.len()
        invariant
            i <= cs@.len(),
            forall|j: int| 0 <= j < i ==> cs@[j] != c,
        decreases cs@.len() - i,
    {
        if cs[i] == c {
            return true;
        }
        i = i + 1;
    }
    false
}

/// `s` cut to at most `max` characters, with `…` appended when it was longer.
pub open spec fn truncate_spec(s: Seq<char>, max: int) -> Seq<char> {
    if s.len() <= max {
        s
    } else {
        s.take(max).push('…')
    }
}

/// Truncates `s` to at most `max` characters (Unicode-aware), appending `…`.
pub fn truncate_chars(s: &str, max: usize) -> (r: String)
    ensures
        r@ == truncate_spec(s@, max as int),
{
    let cs = chars_of(s);
    if cs.len() <= max {
        return s.to_string();
    }
    let mut out = crate::text::string_from_chars(&cs, 0, max);
    out.push('…');
    assert(cs@.subrange(0, max as int) =~= cs@.take(max as int));
    out
}

pub open spec fn md_special(c: char) -> bool {
    c == '\\' || c == '`' || c == '*' || c == '_'
}

/// `s` with a backslash before each of `\`, `` ` ``, `*` and `_`.
pub open spec fn escape_md_spec(s: Seq<char>) -> Seq<char>
    decreases s.len(),
{
    if s.len() == 0 {
        Seq::empty()
    } else {
        escape_md_spec(s.drop_last()) + if md_special(s.last()) { seq!['\\', s.last()] } else { seq![s.last()] }
    }
}

/// Escapes the characters markdown gives a meaning to.
pub fn escape_md(s: &str) -> (r: String)
    ensures
        r@ == escape_md_spec(s@),
{
    let cs = chars_of(s);
    let mut out = String::new();
    let mut i: usize = 0;
    while i < cs.len()
        invariant
            i <= cs@.len(),
            out@ == escape_md_spec(cs@.take(i as int)),
        decreases cs@.len() - i,
    {
        let c = cs[i];
        assert(cs@.take(i + 1).drop_last() =~= cs@.take(i as int));
        assert(cs@.take(i + 1).last() == c);
        if c == '\\' || c == '`' || c == '*' || c == '_' {
            out.push('\\');
            out.push(c);
        } else {
            out.push(c);
        }
        assert(out@ =~= escape_md_spec(cs@.take(i + 1)));
        i = i + 1;
    }
    assert(cs@.take(cs@.len() as int) =~= cs@);
    out
}

} // verus!
