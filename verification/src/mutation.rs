//! In-place edits of locale files: the indent unit a JSON document uses,
//! where a new key goes among its siblings, and the insertion of a key into
//! a JSON document, held as a [`JsonValue`] in between; `serde_json` reads
//! and writes the text.
use vstd::prelude::*;
use vstd::string::*;
use crate::text::{chars_of, split_spec, split_char, views, str_lt, order_str, lemma_split_nonempty, join_spec, join_char};
use crate::display::is_white_space;

verus! {

broadcast use vstd::seq::group_seq_axioms;

/// Length of the run of spaces and tabs that starts `s`.
pub open spec fn indent_len(s: Seq<char>) -> nat
    decreases s.len(),
{
    if s.len() > 0 && (s[0] == ' ' || s[0] == '\t') { 1 + indent_len(s.drop_first()) } else { 0 }
}

/// Index of the first character of `s` that is not white space, or its length.
pub open spec fn first_non_ws(s: Seq<char>) -> nat
    decreases s.len(),
{
    if s.len() > 0 && is_white_space(s[0]) { 1 + first_non_ws(s.drop_first()) } else { 0 }
}

/// A line that gives the indent: it holds something besides white space,
/// that something does not start with `}` or `]`, and it starts with spaces or tabs.
pub open spec fn indent_line(line: Seq<char>) -> bool {
    let f = first_non_ws(line);
    &&& f < line.len()
    &&& line[f as int] != '}' && line[f as int] != ']'
    &&& indent_len(line) > 0
}

/// The leading spaces and tabs of the first line of `lines` that gives the
/// indent, or two spaces.
pub open spec fn indent_of_lines(lines: Seq<Seq<char>>) -> Seq<char>
    decreases lines.len(),
{
    if lines.len() == 0 {
        seq![' ', ' ']
    } else if indent_line(lines[0]) {
        lines[0].take(indent_len(lines[0]) as int)
    } else {
        indent_of_lines(lines.drop_first())
    }
}

/// The indent unit of a JSON document.
pub open spec fn indent_spec(content: Seq<char>) -> Seq<char> {
    indent_of_lines(split_spec(content, '\n'))
}

proof fn lemma_indent_len(s: Seq<char>, i: int)
    requires
        0 <= i <= s.len(),
        forall|j: int| 0 <= j < i ==> (#[trigger] s[j] == ' ' || s[j] == '\t'),
    ensures
        indent_len(s) == i + indent_len(s.subrange(i, s.len() as int)),
    decreases i,
{
    if i > 0 {
        assert forall|j: int| 0 <= j < i - 1 implies (#[trigger] s.drop_first()[j] == ' ' || s.drop_first()[j] == '\t') by {
            assert(s.drop_first()[j] == s[j + 1]);
        }
        lemma_indent_len(s.drop_first(), i - 1);
        assert(s.drop_first().subrange(i - 1, s.drop_first().len() as int) =~= s.subrange(i, s.len() as int));
    } else {
        assert(s.subrange(0, s.len() as int) =~= s);
    }
}

proof fn lemma_first_non_ws(s: Seq<char>, i: int)
    requires
        0 <= i <= s.len(),
        forall|j: int| 0 <= j < i ==> is_white_space(#[trigger] s[j]),
    ensures
        first_non_ws(s) == i + first_non_ws(s.subrange(i, s.len() as int)),
    decreases i,
{
    if i > 0 {
        assert forall|j: int| 0 <= j < i - 1 implies is_white_space(#[trigger] s.drop_first()[j]) by {
            assert(s.drop_first()[j] == s[j + 1]);
        }
        lemma_first_non_ws(s.drop_first(), i - 1);
        assert(s.drop_first().subrange(i - 1, s.drop_first().len() as int) =~= s.subrange(i, s.len() as int));
    } else {
        assert(s.subrange(0, s.len() as int) =~= s);
    }
}

/// The leading spaces and tabs of `line` when it gives the indent.
fn line_indent(line: &str) -> (r: Option<String>)
    ensures
        match r {
            Some(s) => indent_line(line@) && s@ == line@.take(indent_len(line@) as int),
            None => !indent_line(line@),
        },
{
    let cs = chars_of(line);
    let mut f: usize = 0;
    while f < cs.len() && crate::display::white_space_char(cs[f])
        invariant
            f <= cs@.len(),
            forall|j: int| 0 <= j < f ==> is_white_space(#[trigger] cs@[j]),
        decreases cs@.len() - f,
    {
        f = f + 1;
    }
    proof {
        lemma_first_non_ws(cs@, f as int);
        if f < cs@.len() {
            assert(cs@.subrange(f as int, cs@.len() as int)[0] == cs@[f as int]);
        }
    }
    if f == cs.len() || cs[f] == '}' || cs[f] == ']' {
        return None;
    }
    let mut k: usize = 0;
    while k < cs.len() && (cs[k] == ' ' || cs[k] == '\t')
        invariant
            k <= cs@.len(),
            forall|j: int| 0 <= j < k ==> (#[trigger] cs@[j] == ' ' || cs@[j] == '\t'),
        decreases cs@.len() - k,
    {
        k = k + 1;
    }
    proof {
        lemma_indent_len(cs@, k as int);
        if k < cs@.len() {
            assert(cs@.subrange(k as int, cs@.len() as int)[0] == cs@[k as int]);
        }
    }
    if k == 0 {
        return None;
    }
    let s = crate::text::string_from_chars(&cs, 0, k);
    assert(s@ =~= cs@.take(k as int));
    Some(s)
}

/// `s` ends with a line break.
pub open spec fn ends_with_newline(s: Seq<char>) -> bool {
    s.len() > 0 && s.last() == '\n'
}

/// `out`, with a line break added when `original` ended with one and
/// `out` does not.
pub open spec fn with_trailing_newline(original: Seq<char>, out: Seq<char>) -> Seq<char> {
    if ends_with_newline(original) && !ends_with_newline(out) { out.push('\n') } else { out }
}

/// The text written back for a document whose text was `original`: `out`,
/// with a line break added when `original` ended with one and `out` does not.
pub fn keep_trailing_newline(original: &str, out: String) -> (r: String)
    ensures
        r@ == with_trailing_newline(original@, out@),
        ends_with_newline(original@) && !ends_with_newline(out@) ==> r@ == out@.push('\n'),
        !(ends_with_newline(original@) && !ends_with_newline(out@)) ==> r@ == out@,
{
    let oc = chars_of(original);
    let uc = chars_of(out.as_str());
    let had = oc.len() > 0 && oc[oc.len() - 1] == '\n';
    let ends = uc.len() > 0 && uc[uc.len() - 1] == '\n';
    let mut r = out;
    if had && !ends {
        r.push('\n');
    }
    r
}

/// Best-effort detection of the indent unit of a JSON document: the
/// leading spaces or tabs of the first line with content that is not a
/// closing brace or bracket; two spaces when there is none.
pub fn detect_indent(content: &str) -> (r: String)
    ensures
        r@ == indent_spec(content@),
{
    let lines = split_char(content, '\n');
    let ghost ls = views(lines@);
    let mut i: usize = 0;
    assert(ls.skip(0) =~= ls);
    while i < lines.len()
        invariant
            ls == views(lines@),
            ls == split_spec(content@, '\n'),
            i <= ls.len(),
            indent_of_lines(ls) == indent_of_lines(ls.skip(i as int)),
        decreases ls.len() - i,
    {
        assert(ls.skip(i as int)[0] == ls[i as int]);
        assert(ls.skip(i as int).drop_first() =~= ls.skip(i + 1));
        match line_indent(lines[i].as_str()) {
            Some(s) => return s,
            None => {},
        }
        i = i + 1;
    }
    assert(ls.skip(i as int).len() == 0);
    proof {
        reveal_strlit("  ");
        assert("  "@ =~= seq![' ', ' ']);
    }
    String::from_str("  ")
}

/// Keys in ascending order (equal neighbours allowed).
pub open spec fn ascending(keys: Seq<Seq<char>>) -> bool {
    forall|i: int| 0 <= i < keys.len() - 1 ==> !str_lt(#[trigger] keys[i + 1], keys[i])
}

/// Where a new key goes among its siblings `keys`: when they are in
/// ascending order, before the first key that is not smaller; else at the end.
pub fn sorted_insert_position(keys: &Vec<String>, key: &str) -> (r: usize)
    ensures
        r <= keys@.len(),
        ascending(views(keys@)) ==> (forall|j: int| 0 <= j < r ==> str_lt(#[trigger] keys@[j]@, key@))
            && (r == keys@.len() || !str_lt(keys@[r as int]@, key@)),
        !ascending(views(keys@)) ==> r == keys@.len(),
{
    let n = keys.len();
    let last: usize = if n == 0 { 0 } else { n - 1 };
    let mut i: usize = 0;
    while i < last
        invariant
            n == keys@.len(),
            last == if n == 0 { 0 } else { n - 1 },
            i <= n,
            forall|j: int| 0 <= j < i && j < n - 1 ==> !str_lt(#[trigger] views(keys@)[j + 1], views(keys@)[j]),
        decreases n - i,
    {
        if order_str(keys[i + 1].as_str(), keys[i].as_str()) < 0 {
            assert(!ascending(views(keys@))) by {
                assert(str_lt(views(keys@)[i + 1], views(keys@)[i as int]));
            }
            return n;
        }
        i = i + 1;
    }
    assert(ascending(views(keys@)));
    let mut p: usize = 0;
    while p < n && order_str(keys[p].as_str(), key) < 0
        invariant
            n == keys@.len(),
            p <= n,
            forall|j: int| 0 <= j < p ==> str_lt(#[trigger] keys@[j]@, key@),
        decreases n - p,
    {
        p = p + 1;
    }
    p
}

/// Law: a key placed where [`sorted_insert_position`] says keeps ascending
/// siblings ascending.
pub proof fn lemma_sorted_insert_keeps_order(keys: Seq<Seq<char>>, key: Seq<char>, r: int)
    requires
        ascending(keys),
        0 <= r <= keys.len(),
        forall|j: int| 0 <= j < r ==> str_lt(#[trigger] keys[j], key),
        r == keys.len() || !str_lt(keys[r], key),
    ensures
        ascending(keys.insert(r, key)),
{
    let n = keys.insert(r, key);
    assert forall|i: int| 0 <= i < n.len() - 1 implies !str_lt(#[trigger] n[i + 1], n[i]) by {
        if i + 1 < r {
            assert(n[i + 1] == keys[i + 1] && n[i] == keys[i]);
        } else if i + 1 == r {
            assert(n[i] == keys[i] && n[i + 1] == key);
            assert(str_lt(keys[i], key));
            crate::text::lemma_str_lt_order(keys[i], key, keys[i]);
        } else if i == r {
            assert(n[i] == key && n[i + 1] == keys[r]);
        } else {
            let k = i - 1;
            assert(n[i] == keys[k] && n[i + 1] == keys[k + 1]);
            assert(!str_lt(keys[k + 1], keys[k]));
        }
    }
}

// ---------- Inserting a key into a JSON document ----------

/// A JSON document; numbers keep their text, objects their field order.
#[derive(Debug)]
pub enum JsonValue {
    Null,
    Bool(bool),
    Number(String),
    Str(String),
    Array(Vec<JsonValue>),
    Object(Vec<(String, JsonValue)>),
}

/// Errors raised while mutating a locale document.
#[derive(Debug)]
pub enum MutationError {
    /// The text is not JSON (the parser's message).
    Parse(String),
    /// A segment on the way to the leaf is not an object: the dotted path up to it.
    PathCollision(String),
    /// The leaf key already exists: the dotted path.
    KeyAlreadyExists(String),
    /// No key segment was given.
    EmptyPath,
    /// The edited document could not be written back (the writer's message).
    Serialize(String),
}

pub open spec fn field_keys(fs: Seq<(String, JsonValue)>) -> Seq<Seq<char>> {
    fs.map_values(|f: (String, JsonValue)| f.0@)
}

/// Index of the first field named `k`.
pub open spec fn first_field(fs: Seq<(String, JsonValue)>, k: Seq<char>) -> Option<int>
    decreases fs.len(),
{
    if fs.len() == 0 {
        None
    } else {
        match first_field(fs.drop_last(), k) {
            Some(j) => Some(j),
            None => if fs.last().0@ == k { Some(fs.len() - 1) } else { None },
        }
    }
}

/// Number of leading keys smaller than `k`.
pub open spec fn count_below(keys: Seq<Seq<char>>, k: Seq<char>) -> int
    decreases keys.len(),
{
    if keys.len() > 0 && str_lt(keys[0], k) { 1 + count_below(keys.drop_first(), k) } else { 0 }
}

/// Where a new key goes: among ascending siblings, after those smaller than
/// it; else at the end.
pub open spec fn insert_pos(keys: Seq<Seq<char>>, k: Seq<char>) -> int {
    if ascending(keys) { count_below(keys, k) } else { keys.len() as int }
}

proof fn lemma_count_below(keys: Seq<Seq<char>>, k: Seq<char>, r: int)
    requires
        0 <= r <= keys.len(),
        forall|j: int| 0 <= j < r ==> str_lt(#[trigger] keys[j], k),
        r == keys.len() || !str_lt(keys[r], k),
    ensures
        count_below(keys, k) == r,
    decreases r,
{
    if r > 0 {
        let t = keys.drop_first();
        assert forall|j: int| 0 <= j < r - 1 implies str_lt(#[trigger] t[j], k) by {
            assert(t[j] == keys[j + 1]);
        }
        if r - 1 < t.len() {
            assert(t[r - 1] == keys[r]);
        }
        lemma_count_below(t, k, r - 1);
        assert(str_lt(keys[0], k));
    }
}

/// `r` is the outcome of placing `fs`'s new field: `Ok` of the object with the field inserted at `pos`.
pub open spec fn placed_field(fs: Seq<(String, JsonValue)>, pos: int, k: Seq<char>, child: JsonValue, r: Result<JsonValue, MutationError>) -> bool {
    r matches Ok(JsonValue::Object(fs2)) && fs2@ == fs.insert(pos, fs2@[pos]) && fs2@[pos].0@ == k && fs2@[pos].1 == child
}

/// `r` is the outcome of descending into a child whose own outcome is `rc`:
/// its error, or the object with the child's field `j` holding the new child.
pub open spec fn descended(fs: Seq<(String, JsonValue)>, j: int, rc: Result<JsonValue, MutationError>, r: Result<JsonValue, MutationError>) -> bool {
    match rc {
        Err(e) => r == Err::<JsonValue, MutationError>(e),
        Ok(c2) => r matches Ok(JsonValue::Object(fs2)) && fs2@ == fs.update(j, (fs[j].0, c2)),
    }
}

/// `c` is the string `value`.
pub open spec fn is_string_of(c: JsonValue, value: Seq<char>) -> bool {
    c matches JsonValue::Str(s) && s@ == value
}

/// A new, empty object.
pub open spec fn empty_object(v: JsonValue) -> bool {
    v matches JsonValue::Object(fs) && fs@.len() == 0
}

/// One level of storing the string `value` at `path`: at depth `d` the
/// value `v` was found and `r` is the outcome there; `next` is the child
/// reached and its own outcome when the store goes on below. Each segment
/// must name an object field (a missing one is created as an empty object,
/// placed as [`insert_pos`] says); the leaf must not exist yet and is
/// placed the same way; a segment reached on anything but an object is a
/// collision.
pub open spec fn insert_level(v: JsonValue, path: Seq<Seq<char>>, d: int, value: Seq<char>, r: Result<JsonValue, MutationError>,
    next: Option<(JsonValue, Result<JsonValue, MutationError>)>) -> bool
{
    let k = path[d];
    let last = d == path.len() - 1;
    match v {
        JsonValue::Object(fs) => match first_field(fs@, k) {
            Some(j) => if last {
                next is None && (r matches Err(MutationError::KeyAlreadyExists(m)) && m@ == join_spec(path, '.'))
            } else {
                next matches Some(n) && n.0 == fs@[j].1 && descended(fs@, j, n.1, r)
            },
            None => {
                let pos = insert_pos(field_keys(fs@), k);
                if last {
                    next is None && exists|c: JsonValue| placed_field(fs@, pos, k, c, r) && #[trigger] is_string_of(c, value)
                } else {
                    next matches Some(n) && empty_object(n.0) && match n.1 {
                        Err(e) => r == Err::<JsonValue, MutationError>(e),
                        Ok(c2) => placed_field(fs@, pos, k, c2, r),
                    }
                }
            },
        },
        _ => next is None && (r matches Err(MutationError::PathCollision(m)) && m@ == join_spec(path.take(d + 1), '.')),
    }
}

/// The child and outcome one level below level `d` of a chain, if any.
pub open spec fn chain_next(vs: Seq<JsonValue>, rs: Seq<Result<JsonValue, MutationError>>, d: int) -> Option<(JsonValue, Result<JsonValue, MutationError>)> {
    if d + 1 < vs.len() { Some((vs[d + 1], rs[d + 1])) } else { None }
}

/// `vs` and `rs` are the values found and the outcomes along the store of
/// `value` at `path`, level by level from segment `i` on.
pub open spec fn insert_chain(vs: Seq<JsonValue>, rs: Seq<Result<JsonValue, MutationError>>, path: Seq<Seq<char>>, i: int, value: Seq<char>) -> bool {
    &&& vs.len() == rs.len()
    &&& vs.len() >= 1
    &&& 0 <= i
    &&& i + vs.len() <= path.len()
    &&& forall|d: int| 0 <= d < vs.len() ==> #[trigger] insert_level(vs[d], path, i + d, value, rs[d], chain_next(vs, rs, d))
}

/// `r` is the outcome of storing the string `value` at `path` from segment
/// `i` on, inside `v`.
pub open spec fn json_inserted(v: JsonValue, path: Seq<Seq<char>>, i: int, value: Seq<char>, r: Result<JsonValue, MutationError>) -> bool {
    exists|vs: Seq<JsonValue>, rs: Seq<Result<JsonValue, MutationError>>|
        vs[0] == v && rs[0] == r && #[trigger] insert_chain(vs, rs, path, i, value)
}

/// A chain one level deeper, with a new first level.
proof fn lemma_chain_cons(v: JsonValue, r: Result<JsonValue, MutationError>, vs: Seq<JsonValue>, rs: Seq<Result<JsonValue, MutationError>>,
    path: Seq<Seq<char>>, i: int, value: Seq<char>)
    requires
        0 <= i,
        insert_chain(vs, rs, path, i + 1, value),
        insert_level(v, path, i, value, r, Some((vs[0], rs[0]))),
    ensures
        insert_chain(seq![v] + vs, seq![r] + rs, path, i, value),
{
    let vs2 = seq![v] + vs;
    let rs2 = seq![r] + rs;
    assert forall|d: int| 0 <= d < vs2.len() implies #[trigger] insert_level(vs2[d], path, i + d, value, rs2[d], chain_next(vs2, rs2, d)) by {
        if d == 0 {
            assert(chain_next(vs2, rs2, 0) == Some((vs[0], rs[0])));
        } else {
            assert(vs2[d] == vs[d - 1] && rs2[d] == rs[d - 1]);
            assert(chain_next(vs2, rs2, d) == chain_next(vs, rs, d - 1));
            assert(insert_level(vs[d - 1], path, i + 1 + (d - 1), value, rs[d - 1], chain_next(vs, rs, d - 1)));
        }
    }
}

/// A chain of one level.
proof fn lemma_chain_one(v: JsonValue, r: Result<JsonValue, MutationError>, path: Seq<Seq<char>>, i: int, value: Seq<char>)
    requires
        0 <= i < path.len(),
        insert_level(v, path, i, value, r, None),
    ensures
        json_inserted(v, path, i, value, r),
{
    let vs = seq![v];
    let rs = seq![r];
    assert(chain_next(vs, rs, 0) is None);
    assert(insert_level(vs[0], path, i + 0, value, rs[0], chain_next(vs, rs, 0)));
    assert(insert_chain(vs, rs, path, i, value));
}

/// The outcome one level up from a child whose outcome is known.
proof fn lemma_chain_up(v: JsonValue, r: Result<JsonValue, MutationError>, c: JsonValue, rc: Result<JsonValue, MutationError>,
    path: Seq<Seq<char>>, i: int, value: Seq<char>)
    requires
        0 <= i,
        json_inserted(c, path, i + 1, value, rc),
        insert_level(v, path, i, value, r, Some((c, rc))),
    ensures
        json_inserted(v, path, i, value, r),
{
    let (vs, rs) = choose|vs: Seq<JsonValue>, rs: Seq<Result<JsonValue, MutationError>>|
        vs[0] == c && rs[0] == rc && #[trigger] insert_chain(vs, rs, path, i + 1, value);
    lemma_chain_cons(v, r, vs, rs, path, i, value);
    let vs2 = seq![v] + vs;
    let rs2 = seq![r] + rs;
    assert(vs2[0] == v && rs2[0] == r);
}

/// The first field named `k`.
pub(crate) fn find_field(fs: &Vec<(String, JsonValue)>, k: &str) -> (r: Option<usize>)
    ensures
        match r {
            Some(j) => first_field(fs@, k@) == Some(j as int) && j < fs@.len(),
            None => first_field(fs@, k@) is None,
        },
{
    let mut i: usize = 0;
    while i < fs.len()
        invariant
            i <= fs@.len(),
            first_field(fs@.take(i as int), k@) is None,
        decreases fs@.len() - i,
    {
        assert(fs@.take(i + 1).drop_last() =~= fs@.take(i as int));
        if crate::text::str_eq(fs[i].0.as_str(), k) {
            proof { lemma_first_field_prefix(fs@, i as int + 1, k@); }
            return Some(i);
        }
        i = i + 1;
    }
    assert(fs@.take(fs@.len() as int) =~= fs@);
    None
}

/// A field found in a prefix is found in the whole.
proof fn lemma_first_field_prefix(fs: Seq<(String, JsonValue)>, n: int, k: Seq<char>)
    requires
        0 <= n <= fs.len(),
        first_field(fs.take(n), k) is Some,
    ensures
        first_field(fs, k) == first_field(fs.take(n), k),
    decreases fs.len() - n,
{
    if n < fs.len() {
        assert(fs.take(n + 1).drop_last() =~= fs.take(n));
        lemma_first_field_prefix(fs, n + 1, k);
    } else {
        assert(fs.take(n) =~= fs);
    }
}

/// Where the new field `k` goes among the fields `fs`.
fn field_insert_position(fs: &Vec<(String, JsonValue)>, k: &str) -> (r: usize)
    ensures
        r as int == insert_pos(field_keys(fs@), k@),
        r <= fs@.len(),
{
    let mut keys: Vec<String> = Vec::new();
    let mut i: usize = 0;
    while i < fs.len()
        invariant
            i <= fs@.len(),
            views(keys@) == field_keys(fs@).take(i as int),
        decreases fs@.len() - i,
    {
        let ghost kv = views(keys@);
        keys.push(fs[i].0.clone());
        assert(views(keys@) =~= kv.push(fs@[i as int].0@));
        assert(field_keys(fs@).take(i + 1) =~= field_keys(fs@).take(i as int).push(fs@[i as int].0@));
        i = i + 1;
    }
    assert(field_keys(fs@).take(fs@.len() as int) =~= field_keys(fs@));
    let r = sorted_insert_position(&keys, k);
    proof {
        if ascending(views(keys@)) {
            lemma_count_below(views(keys@), k@, r as int);
        }
    }
    r
}

/// The segments `path[..n]`, joined with `.`.
fn join_prefix(path: &[String], n: usize) -> (r: String)
    requires
        n <= path@.len(),
    ensures
        r@ == join_spec(views(path@).take(n as int), '.'),
{
    let mut v: Vec<String> = Vec::new();
    let mut i: usize = 0;
    while i < n
        invariant
            i <= n <= path@.len(),
            views(v@) == views(path@).take(i as int),
        decreases n - i,
    {
        let ghost pv = views(v@);
        v.push(path[i].clone());
        assert(views(v@) =~= pv.push(path@[i as int]@));
        assert(views(path@).take(i + 1) =~= views(path@).take(i as int).push(path@[i as int]@));
        i = i + 1;
    }
    join_char(v.as_slice(), '.')
}

fn insert_at(v: JsonValue, path: &[String], i: usize, value: &str) -> (r: Result<JsonValue, MutationError>)
    requires
        i < path@.len(),
    ensures
        json_inserted(v, views(path@), i as int, value@, r),
    decreases path@.len() - i,
{
    let ghost p = views(path@);
    let ghost v0 = v;
    let last = i == path.len() - 1;
    match v {
        JsonValue::Object(mut fs) => {
            let ghost fs0 = fs@;
            assert(v0 matches JsonValue::Object(f) && f@ == fs0);
            let k = path[i].as_str();
            match find_field(&fs, k) {
                Some(j) => {
                    if last {
                        let m = join_char(path, '.');
                        let r = Err(MutationError::KeyAlreadyExists(m));
                        proof { lemma_chain_one(v0, r, p, i as int, value@); }
                        return r;
                    }
                    let (name, child) = fs.remove(j);
                    let ghost c = child;
                    let rc = insert_at(child, path, i + 1, value);
                    let ghost rc0 = rc;
                    let r = match rc {
                        Ok(c2) => {
                            fs.insert(j, (name, c2));
                            assert(fs@ =~= fs0.update(j as int, (fs0[j as int].0, c2)));
                            Ok(JsonValue::Object(fs))
                        },
                        Err(e) => Err(e),
                    };
                    proof {
                        assert(insert_level(v0, p, i as int, value@, r, Some((c, rc0))));
                        lemma_chain_up(v0, r, c, rc0, p, i as int, value@);
                    }
                    r
                },
                None => {
                    let pos = field_insert_position(&fs, k);
                    if last {
                        let c = JsonValue::Str(value.to_string());
                        assert(is_string_of(c, value@));
                        fs.insert(pos, (path[i].clone(), c));
                        let ghost fs2 = fs@;
                        assert(fs2 =~= fs0.insert(pos as int, fs2[pos as int]));
                        let r = Ok(JsonValue::Object(fs));
                        proof {
                            assert(placed_field(fs0, pos as int, p[i as int], c, r));
                            assert(insert_level(v0, p, i as int, value@, r, None));
                            lemma_chain_one(v0, r, p, i as int, value@);
                        }
                        r
                    } else {
                        let c0 = JsonValue::Object(Vec::new());
                        let ghost g0 = c0;
                        assert(empty_object(c0));
                        let rc = insert_at(c0, path, i + 1, value);
                        let ghost rc0 = rc;
                        let r = match rc {
                            Ok(c2) => {
                                fs.insert(pos, (path[i].clone(), c2));
                                let ghost fs2 = fs@;
                                assert(fs2 =~= fs0.insert(pos as int, fs2[pos as int]));
                                Ok(JsonValue::Object(fs))
                            },
                            Err(e) => Err(e),
                        };
                        proof {
                            assert(insert_level(v0, p, i as int, value@, r, Some((g0, rc0))));
                            lemma_chain_up(v0, r, g0, rc0, p, i as int, value@);
                        }
                        r
                    }
                },
            }
        },
        _ => {
            let m = join_prefix(path, i + 1);
            let r = Err(MutationError::PathCollision(m));
            proof { lemma_chain_one(v0, r, p, i as int, value@); }
            r
        },
    }
}

/// Stores the string `value` at the dotted key `path` inside the document
/// `root`: missing objects on the way are created; a new key goes where it
/// keeps ascending siblings ascending, else at the end; an existing leaf or
/// a non-object on the way is an error.
pub fn insert_into_value(root: JsonValue, path: &[String], value: &str) -> (r: Result<JsonValue, MutationError>)
    ensures
        path@.len() == 0 ==> r matches Err(MutationError::EmptyPath),
        path@.len() > 0 ==> json_inserted(root, views(path@), 0, value@, r),
        r matches Ok(w) ==> (reached(w, views(path@)) matches Some(JsonValue::Str(s)) && s@ == value@),
        path@.len() > 0 && reached(root, views(path@)) is Some
            ==> (r matches Err(MutationError::KeyAlreadyExists(m)) && m@ == join_spec(views(path@), '.')),
{
    if path.len() == 0 {
        return Err(MutationError::EmptyPath);
    }
    let ghost p = views(path@);
    let ghost root0 = root;
    let r = insert_at(root, path, 0, value);
    proof {
        assert(p.skip(0) =~= p);
        if r is Ok {
            lemma_inserted_value_is_found(root0, p, 0, value@, r->Ok_0);
        }
        if reached(root0, p) is Some {
            lemma_existing_key_refused(root0, p, 0, value@, r);
        }
    }
    r
}

/// The message of a mutation error.
pub open spec fn mutation_error_text(e: MutationError) -> Seq<char> {
    match e {
        MutationError::Parse(m) => "JSON parse error: "@ + m@,
        MutationError::PathCollision(p) => "path collision at `"@ + p@ + "` (non-object in the way)"@,
        MutationError::KeyAlreadyExists(p) => "key `"@ + p@ + "` already exists"@,
        MutationError::EmptyPath => "empty key path"@,
        MutationError::Serialize(m) => "JSON serialize error: "@ + m@,
    }
}

impl MutationError {
    /// See [`mutation_error_text`].
    pub fn message(&self) -> (r: String)
        ensures
            r@ == mutation_error_text(*self),
    {
        match self {
            MutationError::Parse(m) => {
                let mut s = String::from_str("JSON parse error: ");
                s.append(m.as_str());
                s
            },
            MutationError::PathCollision(p) => {
                let mut s = String::from_str("path collision at `");
                s.append(p.as_str());
                s.append("` (non-object in the way)");
                s
            },
            MutationError::KeyAlreadyExists(p) => {
                let mut s = String::from_str("key `");
                s.append(p.as_str());
                s.append("` already exists");
                s
            },
            MutationError::EmptyPath => String::from_str("empty key path"),
            MutationError::Serialize(m) => {
                let mut s = String::from_str("JSON serialize error: ");
                s.append(m.as_str());
                s
            },
        }
    }
}

// ---------- Reading back what an insertion wrote ----------

/// What following `path` through nested objects of `v` reaches, if anything.
pub open spec fn reached(v: JsonValue, path: Seq<Seq<char>>) -> Option<JsonValue>
    decreases path.len(),
{
    if path.len() == 0 {
        Some(v)
    } else {
        match v {
            JsonValue::Object(fs) => match first_field(fs@, path[0]) {
                Some(j) => reached(fs@[j].1, path.drop_first()),
                None => None,
            },
            _ => None,
        }
    }
}

/// `first_field` is the first index holding the key.
proof fn lemma_first_field(fs: Seq<(String, JsonValue)>, k: Seq<char>)
    ensures
        match first_field(fs, k) {
            Some(j) => 0 <= j < fs.len() && fs[j].0@ == k && forall|i: int| 0 <= i < j ==> (#[trigger] fs[i]).0@ != k,
            None => forall|i: int| 0 <= i < fs.len() ==> (#[trigger] fs[i]).0@ != k,
        },
    decreases fs.len(),
{
    if fs.len() > 0 {
        lemma_first_field(fs.drop_last(), k);
        assert forall|i: int| 0 <= i < fs.len() - 1 implies (#[trigger] fs[i]) == fs.drop_last()[i] by {}
    }
}

/// The first index holding the key is `j` when no earlier one does.
proof fn lemma_first_field_at(fs: Seq<(String, JsonValue)>, k: Seq<char>, j: int)
    requires
        0 <= j < fs.len(),
        fs[j].0@ == k,
        forall|i: int| 0 <= i < j ==> (#[trigger] fs[i]).0@ != k,
    ensures
        first_field(fs, k) == Some(j),
{
    lemma_first_field(fs, k);
    match first_field(fs, k) {
        Some(j2) => {
            if j2 < j { assert(fs[j2].0@ != k); }
            if j < j2 { assert(fs[j].0@ != k); }
        },
        None => { assert(fs[j].0@ != k); },
    }
}

/// Law: once the string `value` has been stored at `path` (from segment `i`
/// on), following the path in the new document reaches that string.
pub proof fn lemma_inserted_value_is_found(v: JsonValue, path: Seq<Seq<char>>, i: int, value: Seq<char>, w: JsonValue)
    requires
        0 <= i < path.len(),
        json_inserted(v, path, i, value, Ok(w)),
    ensures
        reached(w, path.skip(i)) matches Some(JsonValue::Str(s)) && s@ == value,
    decreases path.len() - i,
{
    let (vs, rs) = choose|vs: Seq<JsonValue>, rs: Seq<Result<JsonValue, MutationError>>|
        vs[0] == v && rs[0] == Ok::<JsonValue, MutationError>(w) && #[trigger] insert_chain(vs, rs, path, i, value);
    assert(insert_level(vs[0], path, i + 0, value, rs[0], chain_next(vs, rs, 0)));
    let k = path[i];
    let rest = path.skip(i);
    assert(rest[0] == k);
    assert(rest.drop_first() =~= path.skip(i + 1));
    let last = i == path.len() - 1;
    match v {
        JsonValue::Object(fs) => {
            match first_field(fs@, k) {
                Some(j) => {
                    if !last {
                        let n = chain_next(vs, rs, 0).unwrap();
                        let c = n.0;
                        let rc = n.1;
                        lemma_chain_tail(vs, rs, path, i, value);
                        match rc {
                            Ok(c2) => {
                                lemma_inserted_value_is_found(c, path, i + 1, value, c2);
                                let fs2 = match w { JsonValue::Object(f) => f@, _ => fs@ };
                                assert(fs2 == fs@.update(j, (fs@[j].0, c2)));
                                lemma_first_field(fs@, k);
                                assert forall|a: int| 0 <= a < j implies (#[trigger] fs2[a]).0@ != k by {
                                    assert(fs2[a] == fs@[a]);
                                }
                                lemma_first_field_at(fs2, k, j);
                                assert(reached(w, rest) == reached(fs2[j].1, rest.drop_first()));
                            },
                            Err(e) => {},
                        }
                    }
                },
                None => {
                    let pos = insert_pos(field_keys(fs@), k);
                    lemma_first_field(fs@, k);
                    lemma_insert_pos_range(field_keys(fs@), k);
                    if last {
                        let c = choose|c: JsonValue| placed_field(fs@, pos, k, c, Ok(w)) && #[trigger] is_string_of(c, value);
                        let fs2 = match w { JsonValue::Object(f) => f@, _ => fs@ };
                        assert forall|a: int| 0 <= a < pos implies (#[trigger] fs2[a]).0@ != k by {
                            assert(fs2[a] == fs@[a]);
                        }
                        lemma_first_field_at(fs2, k, pos);
                        assert(rest.drop_first().len() == 0);
                        assert(reached(w, rest) == reached(fs2[pos].1, rest.drop_first()));
                    } else {
                        let n = chain_next(vs, rs, 0).unwrap();
                        lemma_chain_tail(vs, rs, path, i, value);
                        match n.1 {
                            Ok(c2) => {
                                lemma_inserted_value_is_found(n.0, path, i + 1, value, c2);
                                let fs2 = match w { JsonValue::Object(f) => f@, _ => fs@ };
                                assert forall|a: int| 0 <= a < pos implies (#[trigger] fs2[a]).0@ != k by {
                                    assert(fs2[a] == fs@[a]);
                                }
                                lemma_first_field_at(fs2, k, pos);
                                assert(reached(w, rest) == reached(fs2[pos].1, rest.drop_first()));
                            },
                            Err(e) => {},
                        }
                    }
                },
            }
        },
        _ => {},
    }
}

proof fn lemma_count_below_range(keys: Seq<Seq<char>>, k: Seq<char>)
    ensures
        0 <= count_below(keys, k) <= keys.len(),
    decreases keys.len(),
{
    if keys.len() > 0 {
        lemma_count_below_range(keys.drop_first(), k);
    }
}

/// Where a new key goes lies among the existing positions or just after them.
proof fn lemma_insert_pos_range(keys: Seq<Seq<char>>, k: Seq<char>)
    ensures
        0 <= insert_pos(keys, k) <= keys.len(),
{
    lemma_count_below_range(keys, k);
}

/// The levels below the first of a chain form a chain of their own.
proof fn lemma_chain_tail(vs: Seq<JsonValue>, rs: Seq<Result<JsonValue, MutationError>>, path: Seq<Seq<char>>, i: int, value: Seq<char>)
    requires
        insert_chain(vs, rs, path, i, value),
        vs.len() > 1,
    ensures
        json_inserted(vs[1], path, i + 1, value, rs[1]),
{
    let vs2 = vs.drop_first();
    let rs2 = rs.drop_first();
    assert forall|d: int| 0 <= d < vs2.len() implies #[trigger] insert_level(vs2[d], path, i + 1 + d, value, rs2[d], chain_next(vs2, rs2, d)) by {
        assert(insert_level(vs[d + 1], path, i + (d + 1), value, rs[d + 1], chain_next(vs, rs, d + 1)));
        assert(chain_next(vs2, rs2, d) == chain_next(vs, rs, d + 1));
    }
    assert(insert_chain(vs2, rs2, path, i + 1, value));
    assert(vs2[0] == vs[1] && rs2[0] == rs[1]);
}

/// Law: storing a value where the document already has something is
/// refused with [`MutationError::KeyAlreadyExists`] and the dotted path.
pub proof fn lemma_existing_key_refused(v: JsonValue, path: Seq<Seq<char>>, i: int, value: Seq<char>, r: Result<JsonValue, MutationError>)
    requires
        0 <= i < path.len(),
        reached(v, path.skip(i)) is Some,
        json_inserted(v, path, i, value, r),
    ensures
        r matches Err(MutationError::KeyAlreadyExists(m)) && m@ == join_spec(path, '.'),
    decreases path.len() - i,
{
    let (vs, rs) = choose|vs: Seq<JsonValue>, rs: Seq<Result<JsonValue, MutationError>>|
        vs[0] == v && rs[0] == r && #[trigger] insert_chain(vs, rs, path, i, value);
    assert(insert_level(vs[0], path, i + 0, value, rs[0], chain_next(vs, rs, 0)));
    let rest = path.skip(i);
    assert(rest[0] == path[i]);
    assert(rest.drop_first() =~= path.skip(i + 1));
    match v {
        JsonValue::Object(fs) => {
            match first_field(fs@, path[i]) {
                Some(j) => {
                    if i < path.len() - 1 {
                        let n = chain_next(vs, rs, 0).unwrap();
                        lemma_chain_tail(vs, rs, path, i, value);
                        lemma_existing_key_refused(n.0, path, i + 1, value, n.1);
                    }
                },
                None => {},
            }
        },
        _ => {},
    }
}

/// A field reached under another name keeps its value when a field is
/// replaced under the same name or a new field is added.
proof fn lemma_other_field_kept(fs: Seq<(String, JsonValue)>, fs2: Seq<(String, JsonValue)>, k: Seq<char>, pos: int, q0: Seq<char>)
    requires
        q0 != k,
        first_field(fs, q0) is Some,
        0 <= pos <= fs.len(),
        (fs2.len() == fs.len() && fs2[pos].0@ == k && pos < fs.len() && fs[pos].0@ == k
            && forall|a: int| 0 <= a < fs.len() && a != pos ==> #[trigger] fs2[a] == fs[a])
        || (fs2 == fs.insert(pos, fs2[pos]) && fs2[pos].0@ == k),
    ensures
        first_field(fs2, q0) matches Some(j2) && fs2[j2].1 == fs[first_field(fs, q0).unwrap()].1,
{
    lemma_first_field(fs, q0);
    let j = first_field(fs, q0).unwrap();
    if fs2.len() == fs.len() && pos < fs.len() && fs[pos].0@ == k && fs2[pos].0@ == k
        && forall|a: int| 0 <= a < fs.len() && a != pos ==> #[trigger] fs2[a] == fs[a] {
        assert(j != pos);
        assert(fs2[j] == fs[j]);
        assert forall|a: int| 0 <= a < j implies (#[trigger] fs2[a]).0@ != q0 by {
            if a != pos { assert(fs2[a] == fs[a]); }
        }
        lemma_first_field_at(fs2, q0, j);
    } else {
        if j < pos {
            assert(fs2[j] == fs[j]);
            assert forall|a: int| 0 <= a < j implies (#[trigger] fs2[a]).0@ != q0 by {
                assert(fs2[a] == fs[a]);
            }
            lemma_first_field_at(fs2, q0, j);
        } else {
            assert(fs2[j + 1] == fs[j]);
            assert forall|a: int| 0 <= a < j + 1 implies (#[trigger] fs2[a]).0@ != q0 by {
                if a < pos { assert(fs2[a] == fs[a]); } else if a > pos { assert(fs2[a] == fs[a - 1]); }
            }
            lemma_first_field_at(fs2, q0, j + 1);
        }
    }
}

/// Law: a successful store changes no value that was already there: every
/// path that reached something other than an object still reaches it.
pub proof fn lemma_insert_keeps_other_leaves(v: JsonValue, path: Seq<Seq<char>>, i: int, value: Seq<char>, w: JsonValue, q: Seq<Seq<char>>)
    requires
        0 <= i < path.len(),
        json_inserted(v, path, i, value, Ok(w)),
        reached(v, q) is Some,
        !(reached(v, q).unwrap() is Object),
    ensures
        reached(w, q) == reached(v, q),
    decreases q.len(),
{
    let (vs, rs) = choose|vs: Seq<JsonValue>, rs: Seq<Result<JsonValue, MutationError>>|
        vs[0] == v && rs[0] == Ok::<JsonValue, MutationError>(w) && #[trigger] insert_chain(vs, rs, path, i, value);
    assert(insert_level(vs[0], path, i + 0, value, rs[0], chain_next(vs, rs, 0)));
    let k = path[i];
    let last = i == path.len() - 1;
    match v {
        JsonValue::Object(fs) => {
            if q.len() == 0 {
                assert(reached(v, q) == Some(v));
            } else {
                let q0 = q[0];
                let jq = first_field(fs@, q0).unwrap();
                lemma_first_field(fs@, q0);
                let fs2 = match w { JsonValue::Object(f) => f@, _ => fs@ };
                match first_field(fs@, k) {
                    Some(j) => {
                        if !last {
                            let n = chain_next(vs, rs, 0).unwrap();
                            lemma_chain_tail(vs, rs, path, i, value);
                            let c2 = n.1->Ok_0;
                            assert(fs2 == fs@.update(j, (fs@[j].0, c2)));
                            if q0 == k {
                                assert(jq == j);
                                lemma_insert_keeps_other_leaves(n.0, path, i + 1, value, c2, q.drop_first());
                                assert forall|a: int| 0 <= a < j implies (#[trigger] fs2[a]).0@ != k by {
                                    assert(fs2[a] == fs@[a]);
                                }
                                lemma_first_field_at(fs2, k, j);
                            } else {
                                lemma_first_field(fs@, k);
                                lemma_other_field_kept(fs@, fs2, k, j, q0);
                            }
                        }
                    },
                    None => {
                        let pos = insert_pos(field_keys(fs@), k);
                        lemma_insert_pos_range(field_keys(fs@), k);
                        lemma_first_field(fs@, k);
                        assert(q0 != k);
                        if last {
                            let c = choose|c: JsonValue| placed_field(fs@, pos, k, c, Ok(w)) && #[trigger] is_string_of(c, value);
                        } else {
                            let n = chain_next(vs, rs, 0).unwrap();
                            assert(n.1 is Ok);
                        }
                        lemma_other_field_kept(fs@, fs2, k, pos, q0);
                    },
                }
            }
        },
        _ => {},
    }
}

// ---------- JSON text in and out ----------

/// What `serde_json::from_str` reads from `text` as a `serde_json::Value`
/// (object fields in document order), held as a [`JsonValue`]; or its
/// error message.
pub uninterp spec fn json_parse(text: Seq<char>) -> Result<JsonValue, Seq<char>>;

/// What `serde_json` writes for `v` with a `PrettyFormatter` indenting by
/// `indent`; or its error message.
pub uninterp spec fn json_pretty(v: JsonValue, indent: Seq<char>) -> Result<Seq<char>, Seq<char>>;

#[verifier::external_type_specification]
#[verifier::external_body]
pub struct ExJsonDocument(serde_json::Value);

/// A `serde_json::Value` as a [`JsonValue`], variant by variant; numbers
/// keep their text.
#[verifier::external_body]
fn model_of(v: serde_json::Value) -> JsonValue {
    match v {
        serde_json::Value::Null => JsonValue::Null,
        serde_json::Value::Bool(b) => JsonValue::Bool(b),
        serde_json::Value::Number(n) => JsonValue::Number(n.to_string()),
        serde_json::Value::String(t) => JsonValue::Str(t),
        serde_json::Value::Array(xs) => JsonValue::Array(xs.into_iter().map(model_of).collect()),
        serde_json::Value::Object(m) => JsonValue::Object(m.into_iter().map(|(k, x)| (k, model_of(x))).collect()),
    }
}

/// A [`JsonValue`] as a `serde_json::Value`, variant by variant; a number's
/// text is read back by `serde_json::Number`'s `FromStr` (text that it
/// refuses, which `serde_json` itself never produced, becomes `null`).
#[verifier::external_body]
fn value_of(v: &JsonValue) -> serde_json::Value {
    match v {
        JsonValue::Null => serde_json::Value::Null,
        JsonValue::Bool(b) => serde_json::Value::Bool(*b),
        JsonValue::Number(n) => n.parse::<serde_json::Number>().map_or(serde_json::Value::Null, serde_json::Value::Number),
        JsonValue::Str(t) => serde_json::Value::String(t.clone()),
        JsonValue::Array(xs) => serde_json::Value::Array(xs.iter().map(value_of).collect()),
        JsonValue::Object(fs) => serde_json::Value::Object(fs.iter().map(|(k, x)| (k.clone(), value_of(x))).collect()),
    }
}

/// Calls `serde_json::from_str::<serde_json::Value>`: the document read from
/// `text`, or the error's message. The result is only named, by [`json_parse`].
#[verifier::external_body]
fn parse_json(text: &str) -> (r: Result<JsonValue, String>)
    ensures
        json_parse(text@) == match r {
            Ok(v) => Ok::<JsonValue, Seq<char>>(v),
            Err(m) => Err::<JsonValue, Seq<char>>(m@),
        },
{
    serde_json::from_str::<serde_json::Value>(text).map(model_of).map_err(|e| e.to_string())
}

/// Serialises `v` with `serde_json::Serializer` and a `PrettyFormatter`
/// indenting by `indent`: the text, or the error's message. The result is
/// only named, by [`json_pretty`].
#[verifier::external_body]
fn pretty_json(v: &JsonValue, indent: &str) -> (r: Result<String, String>)
    ensures
        json_pretty(*v, indent@) == match r {
            Ok(t) => Ok::<Seq<char>, Seq<char>>(t@),
            Err(m) => Err::<Seq<char>, Seq<char>>(m@),
        },
{
    let mut buf = Vec::new();
    let mut ser = serde_json::Serializer::with_formatter(&mut buf, serde_json::ser::PrettyFormatter::with_indent(indent.as_bytes()));
    serde::Serialize::serialize(&value_of(v), &mut ser).map_err(|e| e.to_string())?;
    String::from_utf8(buf).map_err(|e| e.to_string())
}

/// Inserts the string `value` at the dotted key `path` of the JSON text
/// `content`: the text is read by `serde_json`, the key stored as
/// [`insert_into_value`] does, and the document written back with the
/// indent the text used and its trailing line break kept.
pub fn insert_key_json(content: &str, path: &[String], value: &str) -> (r: Result<String, MutationError>)
    ensures
        path@.len() == 0 ==> r matches Err(MutationError::EmptyPath),
        path@.len() > 0 ==> match json_parse(content@) {
            Err(m) => r matches Err(MutationError::Parse(e)) && e@ == m,
            Ok(root) => exists|ins: Result<JsonValue, MutationError>| #[trigger] json_inserted(root, views(path@), 0, value@, ins)
                && match ins {
                    Err(e) => r == Err::<String, MutationError>(e),
                    Ok(w) => match json_pretty(w, indent_spec(content@)) {
                        Err(m) => r matches Err(MutationError::Serialize(e)) && e@ == m,
                        Ok(t) => r matches Ok(o) && o@ == with_trailing_newline(content@, t),
                    },
                },
        },
        r matches Ok(_) ==> json_parse(content@) matches Ok(root)
            && reached(root, views(path@)) is None,
{
    if path.len() == 0 {
        return Err(MutationError::EmptyPath);
    }
    let root = match parse_json(content) {
        Ok(v) => v,
        Err(m) => return Err(MutationError::Parse(m)),
    };
    let ghost root0 = root;
    let indent = detect_indent(content);
    let ins = insert_into_value(root, path, value);
    let ghost ins0 = ins;
    let edited = match ins {
        Ok(w) => w,
        Err(e) => return Err(e),
    };
    let text = match pretty_json(&edited, indent.as_str()) {
        Ok(t) => t,
        Err(m) => return Err(MutationError::Serialize(m)),
    };
    let out = keep_trailing_newline(content, text);
    assert(json_inserted(root0, views(path@), 0, value@, ins0));
    Ok(out)
}

} // verus!
