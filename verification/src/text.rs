//! Text helpers shared by the library: character access, byte-wise string
//! ordering (the order of `String`'s `Ord`), dotted-key splitting and joining.
use vstd::prelude::*;
use vstd::utf8::*;
use vstd::string::*;

verus! {

broadcast use vstd::seq::group_seq_axioms, vstd::seq_lib::group_seq_properties;

/// `String::push` appends one character.
pub assume_specification[ String::push ](s: &mut String, ch: char)
    ensures
        final(s)@ == old(s)@.push(ch),
;

/// The characters of `s`, in order.
pub fn chars_of(s: &str) -> (v: Vec<char>)
    ensures
        v@ == s@,
{
    let mut v: Vec<char> = Vec::new();
    for c in it: s.chars()
        invariant
            v@ == it.seq().take(it.index() as int),
            it.seq() == s@,
    {
        v.push(c);
    }
    v
}

/// A string made of the characters `cs[from..to]`.
pub fn string_from_chars(cs: &Vec<char>, from: usize, to: usize) -> (s: String)
    requires
        from <= to <= cs@.len(),
    ensures
        s@ == cs@.subrange(from as int, to as int),
{
    let mut s = String::new();
    let mut i = from;
    while i < to
        invariant
            from <= i <= to <= cs@.len(),
            s@ == cs@.subrange(from as int, i as int),
        decreases to - i,
    {
        s.push(cs[i]);
        i = i + 1;
    }
    s
}

/// Strict lexicographic order on byte sequences.
pub open spec fn bytes_lt(a: Seq<u8>, b: Seq<u8>) -> bool
    decreases a.len(),
{
    if a.len() == 0 {
        b.len() > 0
    } else if b.len() == 0 {
        false
    } else if a[0] != b[0] {
        a[0] < b[0]
    } else {
        bytes_lt(a.drop_first(), b.drop_first())
    }
}

/// Strict order of strings as `String`'s `Ord` compares them: byte-wise on
/// their UTF-8 encodings.
pub open spec fn str_lt(a: Seq<char>, b: Seq<char>) -> bool {
    bytes_lt(encode_utf8(a), encode_utf8(b))
}

pub proof fn lemma_bytes_lt_irreflexive(a: Seq<u8>)
    ensures
        !bytes_lt(a, a),
    decreases a.len(),
{
    if a.len() > 0 {
        lemma_bytes_lt_irreflexive(a.drop_first());
    }
}

pub proof fn lemma_bytes_lt_transitive(a: Seq<u8>, b: Seq<u8>, c: Seq<u8>)
    requires
        bytes_lt(a, b),
        bytes_lt(b, c),
    ensures
        bytes_lt(a, c),
    decreases a.len(),
{
    if a.len() > 0 && b.len() > 0 && c.len() > 0 && a[0] == b[0] && b[0] == c[0] {
        lemma_bytes_lt_transitive(a.drop_first(), b.drop_first(), c.drop_first());
    }
}

pub proof fn lemma_bytes_lt_total(a: Seq<u8>, b: Seq<u8>)
    ensures
        a == b || bytes_lt(a, b) || bytes_lt(b, a),
    decreases a.len(),
{
    if a.len() > 0 && b.len() > 0 && a[0] == b[0] {
        lemma_bytes_lt_total(a.drop_first(), b.drop_first());
        if a.drop_first() == b.drop_first() {
            assert(a =~= seq![a[0]] + a.drop_first());
            assert(b =~= seq![b[0]] + b.drop_first());
        }
    } else if a.len() == 0 && b.len() == 0 {
        assert(a =~= b);
    }
}

pub proof fn lemma_bytes_lt_asymmetric(a: Seq<u8>, b: Seq<u8>)
    requires
        bytes_lt(a, b),
    ensures
        !bytes_lt(b, a),
{
    if bytes_lt(b, a) {
        lemma_bytes_lt_transitive(a, b, a);
        lemma_bytes_lt_irreflexive(a);
    }
}

/// Facts about `str_lt`: a strict total order on strings.
pub proof fn lemma_str_lt_order(a: Seq<char>, b: Seq<char>, c: Seq<char>)
    ensures
        !str_lt(a, a),
        str_lt(a, b) && str_lt(b, c) ==> str_lt(a, c),
        str_lt(a, b) ==> !str_lt(b, a),
        a == b || str_lt(a, b) || str_lt(b, a),
{
    broadcast use encode_utf8_decode_utf8;
    lemma_bytes_lt_irreflexive(encode_utf8(a));
    if str_lt(a, b) && str_lt(b, c) {
        lemma_bytes_lt_transitive(encode_utf8(a), encode_utf8(b), encode_utf8(c));
    }
    if str_lt(a, b) {
        lemma_bytes_lt_asymmetric(encode_utf8(a), encode_utf8(b));
    }
    lemma_bytes_lt_total(encode_utf8(a), encode_utf8(b));
    if encode_utf8(a) == encode_utf8(b) {
        assert(decode_utf8(encode_utf8(a)) == decode_utf8(encode_utf8(b)));
    }
}

proof fn lemma_bytes_lt_skip(a: Seq<u8>, b: Seq<u8>, i: int)
    requires
        0 <= i <= a.len(),
        i <= b.len(),
        a.subrange(0, i) == b.subrange(0, i),
    ensures
        bytes_lt(a, b) == bytes_lt(a.subrange(i, a.len() as int), b.subrange(i, b.len() as int)),
    decreases i,
{
    if i > 0 {
        assert(a[0] == a.subrange(0, i)[0]);
        assert(b[0] == b.subrange(0, i)[0]);
        assert(a.drop_first().subrange(0, i - 1) =~= a.subrange(0, i).drop_first());
        assert(b.drop_first().subrange(0, i - 1) =~= b.subrange(0, i).drop_first());
        lemma_bytes_lt_skip(a.drop_first(), b.drop_first(), i - 1);
        assert(a.drop_first().subrange(i - 1, a.drop_first().len() as int) =~= a.subrange(i, a.len() as int));
        assert(b.drop_first().subrange(i - 1, b.drop_first().len() as int) =~= b.subrange(i, b.len() as int));
    } else {
        assert(a.subrange(0, a.len() as int) =~= a);
        assert(b.subrange(0, b.len() as int) =~= b);
    }
}

/// Three-way comparison of byte slices: negative, zero or positive.
pub fn order_bytes(a: &[u8], b: &[u8]) -> (r: i8)
    ensures
        r == 0 <==> a@ == b@,
        r < 0 <==> bytes_lt(a@, b@),
        r > 0 <==> bytes_lt(b@, a@),
{
    let mut i: usize = 0;
    while i < a.len() && i < b.len()
        invariant
            i <= a@.len(),
            i <= b@.len(),
            a@.subrange(0, i as int) == b@.subrange(0, i as int),
        decreases a@.len() - i,
    {
        if a[i] != b[i] {
            proof {
                lemma_bytes_lt_skip(a@, b@, i as int);
                lemma_bytes_lt_skip(b@, a@, i as int);
                if a@ == b@ {
                    assert(a@[i as int] == b@[i as int]);
                }
            }
            if a[i] < b[i] {
                return -1;
            } else {
                return 1;
            }
        }
        assert(a@.subrange(0, i + 1) =~= a@.subrange(0, i as int).push(a@[i as int]));
        assert(b@.subrange(0, i + 1) =~= b@.subrange(0, i as int).push(b@[i as int]));
        i = i + 1;
    }
    proof {
        lemma_bytes_lt_skip(a@, b@, i as int);
        lemma_bytes_lt_skip(b@, a@, i as int);
        if a@.len() == b@.len() {
            assert(a@ =~= a@.subrange(0, i as int));
            assert(b@ =~= b@.subrange(0, i as int));
        } else if a@ == b@ {
            assert(false);
        }
    }
    if a.len() == b.len() {
        0
    } else if a.len() < b.len() {
        -1
    } else {
        1
    }
}

/// Three-way comparison of strings in `String`'s `Ord` order.
pub fn order_str(a: &str, b: &str) -> (r: i8)
    ensures
        r == 0 <==> a@ == b@,
        r < 0 <==> str_lt(a@, b@),
        r > 0 <==> str_lt(b@, a@),
{
    proof {
        broadcast use encode_utf8_decode_utf8;
        if encode_utf8(a@) == encode_utf8(b@) {
            assert(decode_utf8(encode_utf8(a@)) == decode_utf8(encode_utf8(b@)));
        }
    }
    order_bytes(a.as_bytes(), b.as_bytes())
}

/// String equality.
pub fn str_eq(a: &str, b: &str) -> (r: bool)
    ensures
        r == (a@ == b@),
{
    order_str(a, b) == 0
}

/// The pieces of `s` between occurrences of `sep` (as `str::split` with a
/// character pattern): one more piece than there are separators.
pub open spec fn split_spec(s: Seq<char>, sep: char) -> Seq<Seq<char>>
    decreases s.len(),
{
    if s.len() == 0 {
        seq![Seq::<char>::empty()]
    } else {
        let rest = split_spec(s.drop_last(), sep);
        if s.last() == sep {
            rest.push(Seq::<char>::empty())
        } else {
            rest.update(rest.len() - 1, rest.last().push(s.last()))
        }
    }
}

/// The pieces of `segs` separated by `sep` (as `[String]::join`).
pub open spec fn join_spec(segs: Seq<Seq<char>>, sep: char) -> Seq<char>
    decreases segs.len(),
{
    if segs.len() == 0 {
        Seq::<char>::empty()
    } else if segs.len() == 1 {
        segs[0]
    } else {
        join_spec(segs.drop_last(), sep).push(sep) + segs.last()
    }
}

/// The views of a sequence of strings.
pub open spec fn views(v: Seq<String>) -> Seq<Seq<char>> {
    v.map_values(|x: String| x@)
}

pub proof fn lemma_split_nonempty(s: Seq<char>, sep: char)
    ensures
        split_spec(s, sep).len() >= 1,
    decreases s.len(),
{
    if s.len() > 0 {
        lemma_split_nonempty(s.drop_last(), sep);
    }
}

/// Without `sep`, splitting gives a single piece.
pub proof fn lemma_split_without_sep(s: Seq<char>, sep: char)
    requires
        !s.contains(sep),
    ensures
        split_spec(s, sep).len() == 1,
    decreases s.len(),
{
    if s.len() > 0 {
        assert(s.last() == s[s.len() - 1]);
        assert forall|i: int| 0 <= i < s.drop_last().len() implies s.drop_last()[i] != sep by {
            assert(s.drop_last()[i] == s[i]);
        }
        lemma_split_without_sep(s.drop_last(), sep);
    }
}

/// Splits `s` at every `sep`.
pub fn split_char(s: &str, sep: char) -> (r: Vec<String>)
    ensures
        views(r@) == split_spec(s@, sep),
{
    let cs = chars_of(s);
    let mut out: Vec<String> = Vec::new();
    let mut start: usize = 0;
    let mut i: usize = 0;
    while i < cs.len()
        invariant
            cs@ == s@,
            start <= i <= cs@.len(),
            views(out@).push(cs@.subrange(start as int, i as int)) == split_spec(cs@.take(i as int), sep),
        decreases cs@.len() - i,
    {
        let ghost prev = views(out@);
        assert(cs@.take(i + 1).drop_last() =~= cs@.take(i as int));
        if cs[i] == sep {
            let seg = string_from_chars(&cs, start, i);
            out.push(seg);
            assert(views(out@) =~= prev.push(cs@.subrange(start as int, i as int)));
            start = i + 1;
            assert(cs@.subrange(start as int, (i + 1) as int) =~= Seq::<char>::empty());
        } else {
            assert(cs@.subrange(start as int, (i + 1) as int) =~= cs@.subrange(start as int, i as int).push(cs@[i as int]));
            assert(prev.push(cs@.subrange(start as int, (i + 1) as int)) =~=
                prev.push(cs@.subrange(start as int, i as int)).update(prev.len() as int, cs@.subrange(start as int, i as int).push(cs@[i as int])));
        }
        i = i + 1;
    }
    let last = string_from_chars(&cs, start, cs.len());
    out.push(last);
    assert(cs@.take(cs@.len() as int) =~= cs@);
    assert(views(out@) =~= views(out@.drop_last()).push(last@));
    out
}

/// Joins `segs` with `sep` between consecutive pieces.
pub fn join_char(segs: &[String], sep: char) -> (r: String)
    ensures
        r@ == join_spec(views(segs@), sep),
{
    let mut out = String::new();
    let mut i: usize = 0;
    while i < segs.len()
        invariant
            i <= segs@.len(),
            out@ == join_spec(views(segs@.take(i as int)), sep),
        decreases segs@.len() - i,
    {
        assert(views(segs@.take(i + 1)).drop_last() =~= views(segs@.take(i as int)));
        if i > 0 {
            out.push(sep);
        }
        out.append(segs[i].as_str());
        i = i + 1;
    }
    assert(segs@.take(segs@.len() as int) =~= segs@);
    out
}

proof fn lemma_join_extend_last(segs: Seq<Seq<char>>, sep: char, c: char)
    requires
        segs.len() >= 1,
    ensures
        join_spec(segs.update(segs.len() - 1, segs.last().push(c)), sep) == join_spec(segs, sep).push(c),
{
    let u = segs.update(segs.len() - 1, segs.last().push(c));
    if segs.len() > 1 {
        assert(u.drop_last() =~= segs.drop_last());
    }
}

/// Law: joining the pieces of a split gives back the string.
pub proof fn lemma_join_split(s: Seq<char>, sep: char)
    ensures
        join_spec(split_spec(s, sep), sep) == s,
    decreases s.len(),
{
    if s.len() > 0 {
        lemma_join_split(s.drop_last(), sep);
        lemma_split_nonempty(s.drop_last(), sep);
        let rest = split_spec(s.drop_last(), sep);
        if s.last() == sep {
            assert(rest.push(Seq::<char>::empty()).drop_last() =~= rest);
        } else {
            lemma_join_extend_last(rest, sep, s.last());
        }
        assert(s =~= s.drop_last().push(s.last()));
    }
}

proof fn lemma_split_append_plain(a: Seq<char>, x: Seq<char>, sep: char)
    requires
        !x.contains(sep),
    ensures
        split_spec(a + x, sep) == ({
            let r = split_spec(a, sep);
            r.update(r.len() - 1, r.last() + x)
        }),
    decreases x.len(),
{
    lemma_split_nonempty(a, sep);
    if x.len() == 0 {
        assert(a + x =~= a);
        let r = split_spec(a, sep);
        assert(r.update(r.len() - 1, r.last() + x) =~= r);
    } else {
        lemma_split_append_plain(a, x.drop_last(), sep);
        assert((a + x).drop_last() =~= a + x.drop_last());
        assert(x.last() != sep) by {
            assert(x[x.len() - 1] == x.last());
        }
        let r = split_spec(a, sep);
        assert(r.last() + x =~= (r.last() + x.drop_last()).push(x.last()));
        assert(r.update(r.len() - 1, r.last() + x.drop_last()).update(r.len() - 1, r.last() + x)
            =~= r.update(r.len() - 1, r.last() + x));
    }
}

/// Law: splitting a join gives back the pieces, when no piece holds the
/// separator and there is at least one piece.
pub proof fn lemma_split_join(segs: Seq<Seq<char>>, sep: char)
    requires
        segs.len() >= 1,
        forall|i: int| 0 <= i < segs.len() ==> !(#[trigger] segs[i]).contains(sep),
    ensures
        split_spec(join_spec(segs, sep), sep) == segs,
    decreases segs.len(),
{
    if segs.len() == 1 {
        lemma_split_append_plain(Seq::<char>::empty(), segs[0], sep);
        assert(Seq::<char>::empty() + segs[0] =~= segs[0]);
        assert(split_spec(Seq::<char>::empty(), sep).update(0, Seq::<char>::empty() + segs[0]) =~= segs);
    } else {
        let init = segs.drop_last();
        assert forall|i: int| 0 <= i < init.len() implies !(#[trigger] init[i]).contains(sep) by {
            assert(init[i] == segs[i]);
        }
        lemma_split_join(init, sep);
        let a = join_spec(init, sep).push(sep);
        assert(a.drop_last() =~= join_spec(init, sep));
        assert(!segs[segs.len() - 1].contains(sep));
        lemma_split_append_plain(a, segs.last(), sep);
        let r = split_spec(a, sep);
        assert(r =~= init.push(Seq::<char>::empty()));
        assert(Seq::<char>::empty() + segs.last() =~= segs.last());
        assert(r.update(r.len() - 1, r.last() + segs.last()) =~= segs);
    }
}

/// Membership in a sequence after a push.
pub proof fn lemma_contains_push<A>(s: Seq<A>, a: A)
    ensures
        forall|x: A| #[trigger] s.push(a).contains(x) <==> (s.contains(x) || x == a),
{
    assert forall|x: A| #[trigger] s.push(a).contains(x) <==> (s.contains(x) || x == a) by {
        if s.push(a).contains(x) {
            let k = choose|k: int| 0 <= k < s.push(a).len() && s.push(a)[k] == x;
            if k < s.len() { assert(s[k] == x); }
        }
        if s.contains(x) {
            let k = choose|k: int| 0 <= k < s.len() && s[k] == x;
            assert(s.push(a)[k] == x);
        }
        if x == a {
            assert(s.push(a)[s.len() as int] == x);
        }
    }
}

/// Membership in a concatenation.
pub proof fn lemma_contains_concat<A>(s: Seq<A>, t: Seq<A>)
    ensures
        forall|x: A| #[trigger] (s + t).contains(x) <==> (s.contains(x) || t.contains(x)),
{
    assert forall|x: A| #[trigger] (s + t).contains(x) <==> (s.contains(x) || t.contains(x)) by {
        if (s + t).contains(x) {
            let k = choose|k: int| 0 <= k < (s + t).len() && (s + t)[k] == x;
            if k < s.len() { assert(s[k] == x); } else { assert(t[k - s.len()] == x); }
        }
        if s.contains(x) {
            let k = choose|k: int| 0 <= k < s.len() && s[k] == x;
            assert((s + t)[k] == x);
        }
        if t.contains(x) {
            let k = choose|k: int| 0 <= k < t.len() && t[k] == x;
            assert((s + t)[k + s.len()] == x);
        }
    }
}

} // verus!
