//! JSON / JSONC / JSON5 / ARB locale files, read through the `jsonc-parser`
//! crate: the crate checks the syntax and yields the tokens, and the walk
//! below turns the tokens into entries with their source ranges.
use vstd::prelude::*;
use vstd::string::*;
use crate::position::{LineIndex, placed, range_in, is_placed};
use crate::parser::{LocaleEntry, LocaleParser, ParseError};
use crate::text::views;

verus! {

broadcast use vstd::seq::group_seq_axioms;

/// One token of a JSON text: a string literal (`is_string`, with `text` its
/// unescaped value) or any other token (`text` as written), with its byte range.
pub struct JsonToken {
    pub is_string: bool,
    pub text: String,
    pub start: usize,
    pub end: usize,
}

/// A token as plain values: string-ness, text, start and end offsets.
pub open spec fn token_view(t: JsonToken) -> (bool, Seq<char>, usize, usize) {
    (t.is_string, t.text@, t.start, t.end)
}

pub open spec fn token_views(ts: Seq<JsonToken>) -> Seq<(bool, Seq<char>, usize, usize)> {
    ts.map_values(|t: JsonToken| token_view(t))
}

/// The tokens of `text` (comments left out) as the `jsonc-parser` crate reads
/// it with its default options, or the start offset and message of its error.
pub uninterp spec fn jsonc_tokens(text: Seq<char>) -> Result<Seq<(bool, Seq<char>, usize, usize)>, (usize, Seq<char>)>;

/// The tokens as plain values, or the error as plain values.
pub open spec fn scan_view(r: Result<Vec<JsonToken>, (usize, String)>) -> Result<Seq<(bool, Seq<char>, usize, usize)>, (usize, Seq<char>)> {
    match r {
        Ok(ts) => Ok(token_views(ts@)),
        Err(e) => Err((e.0, e.1@)),
    }
}

/// Calls `jsonc_parser::parse_to_ast` (comments off, tokens collected,
/// default parse options) and hands back its tokens, each with
/// `Token::as_str` as text and its range, or the start of the error's range
/// and the error kind's message. The contract only ties the result to the
/// name [`jsonc_tokens`]; what the crate accepts is not restated.
#[verifier::external_body]
fn scan_jsonc(text: &str) -> (r: Result<Vec<JsonToken>, (usize, String)>)
    ensures
        jsonc_tokens(text@) == scan_view(r),
{
    let opts = jsonc_parser::CollectOptions { comments: jsonc_parser::CommentCollectionStrategy::Off, tokens: true };
    match jsonc_parser::parse_to_ast(text, &opts, &jsonc_parser::ParseOptions::default()) {
        Ok(res) => Ok(res.tokens.unwrap_or_default().into_iter().map(|t| JsonToken {
            is_string: matches!(t.token, jsonc_parser::tokens::Token::String(_)),
            text: t.token.as_str().to_string(),
            start: t.range.start,
            end: t.range.end,
        }).collect()),
        Err(e) => Err((e.range().start, e.kind().to_string())),
    }
}

/// State of the walk over the tokens: the open containers (object?,
/// ignored?, entered through a key?), the keys leading to the innermost
/// tracked object, the pending property name with its range, and whether a
/// `:` followed it.
pub struct JsonWalk {
    pub frames: Seq<(bool, bool, bool)>,
    pub path: Seq<Seq<char>>,
    pub key: Option<(Seq<char>, usize, usize)>,
    pub after_colon: bool,
}

/// An entry found by the walk: key path, value, value range, key range (as offsets).
pub type EntryOffsets = (Seq<Seq<char>>, Seq<char>, usize, usize, usize, usize);

pub open spec fn is_punct(t: (bool, Seq<char>, usize, usize), c: char) -> bool {
    !t.0 && t.1 == seq![c]
}

/// ARB metadata names start with `@`.
pub open spec fn is_metadata(name: Seq<char>) -> bool {
    name.len() > 0 && name[0] == '@'
}

/// Name of the pending property (empty when there is none).
pub open spec fn key_name(w: JsonWalk) -> Seq<char> {
    match w.key {
        Some(k) => k.0,
        None => Seq::empty(),
    }
}

pub open spec fn walk_start() -> JsonWalk {
    JsonWalk { frames: Seq::empty(), path: Seq::empty(), key: None, after_colon: false }
}

/// One step of the walk. Objects are followed through their properties;
/// arrays, metadata properties and everything inside them are ignored; a
/// string value of a property yields an entry; other values are skipped.
pub open spec fn json_step(w: JsonWalk, t: (bool, Seq<char>, usize, usize)) -> (JsonWalk, Option<EntryOffsets>) {
    let n = w.frames.len();
    let ignored = n > 0 && w.frames[n - 1].1;
    let in_object = n > 0 && w.frames[n - 1].0 && !ignored;
    if is_punct(t, '{') {
        let follow = in_object && w.after_colon && w.key is Some && !is_metadata(key_name(w));
        let frame = if n == 0 { (true, false, false) } else if follow { (true, false, true) } else { (true, true, false) };
        let path = if follow { w.path.push(key_name(w)) } else { w.path };
        (JsonWalk { frames: w.frames.push(frame), path: path, key: None, after_colon: false }, None)
    } else if is_punct(t, '[') {
        (JsonWalk { frames: w.frames.push((false, true, false)), path: w.path, key: None, after_colon: false }, None)
    } else if is_punct(t, '}') || is_punct(t, ']') {
        if n == 0 {
            (JsonWalk { frames: w.frames, path: w.path, key: None, after_colon: false }, None)
        } else {
            let path = if w.frames[n - 1].2 { w.path.drop_last() } else { w.path };
            (JsonWalk { frames: w.frames.drop_last(), path: path, key: None, after_colon: false }, None)
        }
    } else if is_punct(t, ':') {
        (JsonWalk { frames: w.frames, path: w.path, key: w.key, after_colon: true }, None)
    } else if is_punct(t, ',') {
        (JsonWalk { frames: w.frames, path: w.path, key: None, after_colon: false }, None)
    } else if !in_object {
        (w, None)
    } else if !w.after_colon {
        (JsonWalk { frames: w.frames, path: w.path, key: Some((t.1, t.2, t.3)), after_colon: false }, None)
    } else {
        let e = if t.0 && w.key is Some && !is_metadata(key_name(w)) {
            let k = w.key->0;
            Some((w.path.push(k.0), t.1, t.2, t.3, k.1, k.2))
        } else {
            None
        };
        (JsonWalk { frames: w.frames, path: w.path, key: None, after_colon: false }, e)
    }
}

/// The walk over all of `ts`: its final state and the entries found, in order.
pub open spec fn json_walk(ts: Seq<(bool, Seq<char>, usize, usize)>) -> (JsonWalk, Seq<EntryOffsets>)
    decreases ts.len(),
{
    if ts.len() == 0 {
        (walk_start(), Seq::empty())
    } else {
        let prev = json_walk(ts.drop_last());
        let step = json_step(prev.0, ts.last());
        (step.0, match step.1 {
            Some(e) => prev.1.push(e),
            None => prev.1,
        })
    }
}

/// Number of open containers entered through a key.
pub open spec fn keyed_count(frames: Seq<(bool, bool, bool)>) -> nat
    decreases frames.len(),
{
    if frames.len() == 0 {
        0
    } else {
        keyed_count(frames.drop_last()) + if frames.last().2 { 1nat } else { 0nat }
    }
}

/// The walk keeps one path segment per container entered through a key.
proof fn lemma_walk_path_len(ts: Seq<(bool, Seq<char>, usize, usize)>)
    ensures
        json_walk(ts).0.path.len() == keyed_count(json_walk(ts).0.frames),
    decreases ts.len(),
{
    if ts.len() > 0 {
        lemma_walk_path_len(ts.drop_last());
        let w = json_walk(ts.drop_last()).0;
        let n = w.frames.len();
        if n > 0 {
            assert(w.frames.drop_last().push(w.frames.last()) =~= w.frames);
        }
        assert forall|f: (bool, bool, bool)| #[trigger] w.frames.push(f).drop_last() == w.frames by {
            assert(w.frames.push(f).drop_last() =~= w.frames);
        }
    }
}

/// `e` is the entry found at offsets `o` of the text `bytes`.
pub open spec fn entry_matches(bytes: Seq<u8>, e: LocaleEntry, o: EntryOffsets) -> bool {
    &&& views(e.key_path@) == o.0
    &&& e.value@ == o.1
    &&& range_in(bytes, o.2, o.3, e.range)
    &&& range_in(bytes, o.4, o.5, e.key_range)
}

pub open spec fn entries_match(bytes: Seq<u8>, es: Seq<LocaleEntry>, os: Seq<EntryOffsets>) -> bool {
    &&& es.len() == os.len()
    &&& forall|i: int| 0 <= i < es.len() ==> entry_matches(bytes, #[trigger] es[i], os[i])
}

/// Every token lies on character boundaries of `bytes`.
pub open spec fn tokens_placed(bytes: Seq<u8>, ts: Seq<(bool, Seq<char>, usize, usize)>) -> bool {
    forall|i: int| 0 <= i < ts.len() ==> placed(bytes, (#[trigger] ts[i]).2) && placed(bytes, ts[i].3)
}

/// The pending property of the walk, as held while walking.
pub open spec fn key_matches(key: Option<(String, usize, usize)>, wk: Option<(Seq<char>, usize, usize)>) -> bool {
    match (key, wk) {
        (Some(a), Some(b)) => a.0@ == b.0 && a.1 == b.1 && a.2 == b.2,
        (None, None) => true,
        _ => false,
    }
}

pub open spec fn key_placed(bytes: Seq<u8>, key: Option<(String, usize, usize)>) -> bool {
    match key {
        Some(k) => placed(bytes, k.1) && placed(bytes, k.2),
        None => true,
    }
}

fn is_punct_token(t: &JsonToken, c: char) -> (r: bool)
    ensures
        r == is_punct(token_view(*t), c),
{
    if t.is_string {
        return false;
    }
    let s = t.text.as_str();
    let r = s.unicode_len() == 1 && s.get_char(0) == c;
    assert(r == (s@ == seq![c])) by {
        if s@.len() == 1 && s@[0] == c {
            assert(s@ =~= seq![c]);
        }
    }
    r
}

fn name_is_metadata(s: &str) -> (r: bool)
    ensures
        r == is_metadata(s@),
{
    s.unicode_len() > 0 && s.get_char(0) == '@'
}

fn clone_path(p: &Vec<String>) -> (r: Vec<String>)
    ensures
        views(r@) == views(p@),
{
    let mut r: Vec<String> = Vec::new();
    let mut i: usize = 0;
    while i < p.len()
        invariant
            i <= p@.len(),
            views(r@) == views(p@.take(i as int)),
        decreases p@.len() - i,
    {
        r.push(p[i].clone());
        assert(views(p@.take(i + 1)) =~= views(p@.take(i as int)).push(p@[i as int]@));
        i = i + 1;
    }
    assert(p@.take(p@.len() as int) =~= p@);
    r
}

/// The entries of a text from its tokens: the walk of [`json_walk`], with
/// offsets turned into line / UTF-16 column positions of `source`.
pub fn entries_from_tokens(source: &str, tokens: &Vec<JsonToken>) -> (r: Vec<LocaleEntry>)
    requires
        2 * source.spec_bytes().len() <= u32::MAX,
        tokens_placed(source.spec_bytes(), token_views(tokens@)),
    ensures
        entries_match(source.spec_bytes(), r@, json_walk(token_views(tokens@)).1),
{
    let lines = LineIndex::new(source);
    let ghost ts = token_views(tokens@);
    let ghost bytes = source.spec_bytes();
    let mut frames: Vec<(bool, bool, bool)> = Vec::new();
    let mut path: Vec<String> = Vec::new();
    let mut key: Option<(String, usize, usize)> = None;
    let mut after_colon: bool = false;
    let mut out: Vec<LocaleEntry> = Vec::new();
    let mut i: usize = 0;
    while i < tokens.len()
        invariant
            lines.wf(),
            lines.bytes() == bytes,
            bytes == source.spec_bytes(),
            2 * bytes.len() <= u32::MAX,
            ts == token_views(tokens@),
            tokens_placed(bytes, ts),
            i <= tokens@.len(),
            ({
                let w = json_walk(ts.take(i as int));
                &&& frames@ == w.0.frames
                &&& views(path@) == w.0.path
                &&& key_matches(key, w.0.key)
                &&& after_colon == w.0.after_colon
                &&& entries_match(bytes, out@, w.1)
            }),
            forall|j: int| 0 <= j < i ==> placed(bytes, (#[trigger] ts[j]).2) && placed(bytes, ts[j].3),
            key_placed(bytes, key),
        decreases tokens@.len() - i,
    {
        let t = &tokens[i];
        proof { lemma_walk_path_len(ts.take(i as int)); }
        let ghost w = json_walk(ts.take(i as int)).0;
        let ghost prev_out = json_walk(ts.take(i as int)).1;
        assert(ts.take(i + 1).drop_last() =~= ts.take(i as int));
        assert(ts.take(i + 1).last() == ts[i as int]);
        assert(ts[i as int] == token_view(*t));
        assert(placed(bytes, ts[i as int].2) && placed(bytes, ts[i as int].3));
        let n = frames.len();
        let ignored = n > 0 && frames[n - 1].1;
        let in_object = n > 0 && frames[n - 1].0 && !ignored;
        if is_punct_token(t, '{') {
            let follow = match &key {
                Some(k) => in_object && after_colon && !name_is_metadata(k.0.as_str()),
                None => false,
            };
            let frame = if n == 0 { (true, false, false) } else if follow { (true, false, true) } else { (true, true, false) };
            if follow {
                match &key {
                    Some(k) => {
                        let ghost p0 = views(path@);
                        path.push(k.0.clone());
                        assert(views(path@) =~= p0.push(k.0@));
                    },
                    None => {},
                }
            }
            frames.push(frame);
            key = None;
            after_colon = false;
        } else if is_punct_token(t, '[') {
            frames.push((false, true, false));
            key = None;
            after_colon = false;
        } else if is_punct_token(t, '}') || is_punct_token(t, ']') {
            if n > 0 {
                let f = frames.pop().unwrap();
                if f.2 {
                    let ghost p0 = views(path@);
                    path.pop();
                    assert(views(path@) =~= p0.drop_last());
                }
                assert(frames@ =~= w.frames.drop_last());
            }
            key = None;
            after_colon = false;
        } else if is_punct_token(t, ':') {
            after_colon = true;
        } else if is_punct_token(t, ',') {
            key = None;
            after_colon = false;
        } else if !in_object {
        } else if !after_colon {
            key = Some((t.text.clone(), t.start, t.end));
        } else {
            let emit = match &key {
                Some(k) => t.is_string && !name_is_metadata(k.0.as_str()),
                None => false,
            };
            if emit {
                match &key {
                    Some(k) => {
                        let mut kp = clone_path(&path);
                        kp.push(k.0.clone());
                        proof {
                            lines.lemma_position_defined(t.start);
                            lines.lemma_position_defined(t.end);
                            lines.lemma_position_defined(k.1);
                            lines.lemma_position_defined(k.2);
                        }
                        let range = lines.range(t.start, t.end);
                        let key_range = lines.range(k.1, k.2);
                        let ghost o0 = out@;
                        let entry = LocaleEntry { key_path: kp, value: t.text.clone(), range, key_range };
                        assert(views(entry.key_path@) =~= w.path.push(k.0@));
                        out.push(entry);
                        proof {
                            let os = json_walk(ts.take(i + 1)).1;
                            assert(os == prev_out.push((w.path.push(k.0@), t.text@, t.start, t.end, k.1, k.2)));
                            assert forall|j: int| 0 <= j < out@.len() implies entry_matches(bytes, #[trigger] out@[j], os[j]) by {
                                if j < o0.len() {
                                    assert(out@[j] == o0[j]);
                                }
                            }
                        }
                    },
                    None => {},
                }
            }
            key = None;
            after_colon = false;
        }
        i = i + 1;
    }
    assert(ts.take(tokens@.len() as int) =~= ts);
    out
}

/// Parser of JSON, JSONC, JSON5 and ARB locale files.
pub struct JsonParser;

/// What parsing `source` as JSON yields: the syntax error of `jsonc-parser`;
/// else, when every token lies on character boundaries, the entries of the
/// walk; else a syntax error at the first misplaced token.
pub open spec fn json_parse_result(bytes: Seq<u8>, text: Seq<char>, r: Result<Vec<LocaleEntry>, ParseError>) -> bool {
    match jsonc_tokens(text) {
        Err(e) => r matches Err(ParseError::Syntax { offset, message }) && offset == e.0 && message@ == e.1,
        Ok(ts) => if tokens_placed(bytes, ts) {
            r matches Ok(es) && entries_match(bytes, es@, json_walk(ts).1)
        } else {
            r matches Err(ParseError::Syntax { .. })
        },
    }
}

impl LocaleParser for JsonParser {
    fn parse(&self, source: &str) -> (r: Result<Vec<LocaleEntry>, ParseError>)
        ensures
            json_parse_result(source.spec_bytes(), source@, r),
    {
        let tokens = match scan_jsonc(source) {
            Ok(ts) => ts,
            Err(e) => return Err(ParseError::Syntax { offset: e.0, message: e.1 }),
        };
        let ghost ts = token_views(tokens@);
        assert(jsonc_tokens(source@) == Ok::<Seq<(bool, Seq<char>, usize, usize)>, (usize, Seq<char>)>(ts));
        let mut i: usize = 0;
        while i < tokens.len()
            invariant
                ts == token_views(tokens@),
                jsonc_tokens(source@) == Ok::<Seq<(bool, Seq<char>, usize, usize)>, (usize, Seq<char>)>(ts),
                i <= tokens@.len(),
                forall|j: int| 0 <= j < i ==> placed(source.spec_bytes(), (#[trigger] ts[j]).2) && placed(source.spec_bytes(), ts[j].3),
            decreases tokens@.len() - i,
        {
            let t = &tokens[i];
            assert(ts[i as int] == token_view(*t));
            if !is_placed(source, t.start) || !is_placed(source, t.end) {
                let bad = if is_placed(source, t.start) { t.end } else { t.start };
                assert(!tokens_placed(source.spec_bytes(), ts));
                return Err(ParseError::Syntax { offset: bad, message: String::from_str("token off a character boundary") });
            }
            i = i + 1;
        }
        assert(jsonc_tokens(source@) == Ok::<Seq<(bool, Seq<char>, usize, usize)>, (usize, Seq<char>)>(ts));
        Ok(entries_from_tokens(source, &tokens))
    }
}

} // verus!
