//! YAML locale files. The `saphyr` crates read the text: their loader
//! decides whether the document is well formed, their parser yields the
//! event stream, and their core schema decides which scalars are strings.
//! The walk below follows the mappings of the event stream, in which each
//! alias of an anchored collection stands for a copy of that collection's
//! events as the loader copies the node, and turns the string values
//! reached through string keys into entries.
use std::borrow::Cow;
use saphyr::{LoadableYamlNode, MarkedYaml, Scalar};
use saphyr_parser::{Parser, ScalarStyle, Tag};
use saphyr_parser::Event::{Alias, MappingEnd, MappingStart, SequenceEnd, SequenceStart};
use saphyr_parser::Event::Scalar as ScalarEvent;
use saphyr_parser::ScalarStyle::Plain;
use vstd::prelude::*;
use vstd::string::*;
use crate::position::{LineIndex, placed, is_placed};
use crate::parser::{LocaleEntry, LocaleParser, ParseError};
use crate::parser::json::{EntryOffsets, entries_match, entry_matches};
use crate::text::views;

verus! {

broadcast use vstd::seq::group_seq_axioms;

/// A tag as handle and suffix.
pub type TagView = Option<(Seq<char>, Seq<char>)>;

/// One event of a YAML event stream, as plain values.
pub enum YamlEv {
    /// The start of a mapping, with its anchor id (0 when none).
    MappingStart(usize),
    /// The start of a sequence, with its anchor id (0 when none).
    SequenceStart(usize),
    /// The end of a mapping or of a sequence.
    End,
    /// Text, whether the style is plain, tag, anchor id (0 when none).
    Scalar(Seq<char>, bool, TagView, usize),
    /// The anchor id it refers to.
    Alias(usize),
    /// Stream and document boundaries.
    Other,
}

/// The kind of an event as read from the parser.
pub enum YamlEventKind {
    MappingStart(usize),
    SequenceStart(usize),
    End,
    Scalar(String, bool, Option<(String, String)>, usize),
    Alias(usize),
    Other,
}

/// An event with the character indices where it starts and ends.
pub struct YamlEvent {
    pub kind: YamlEventKind,
    pub start: usize,
    pub end: usize,
}

pub open spec fn tag_view(t: Option<(String, String)>) -> TagView {
    match t {
        Some(p) => Some((p.0@, p.1@)),
        None => None,
    }
}

pub open spec fn event_view(e: YamlEvent) -> (YamlEv, usize, usize) {
    (match e.kind {
        YamlEventKind::MappingStart(a) => YamlEv::MappingStart(a),
        YamlEventKind::SequenceStart(a) => YamlEv::SequenceStart(a),
        YamlEventKind::End => YamlEv::End,
        YamlEventKind::Scalar(t, p, g, a) => YamlEv::Scalar(t@, p, tag_view(g), a),
        YamlEventKind::Alias(id) => YamlEv::Alias(id),
        YamlEventKind::Other => YamlEv::Other,
    }, e.start, e.end)
}

pub open spec fn event_views(es: Seq<YamlEvent>) -> Seq<(YamlEv, usize, usize)> {
    es.map_values(|e: YamlEvent| event_view(e))
}

/// The events `saphyr-parser` yields for `text` read character by
/// character, or the character index and message of its first error.
pub uninterp spec fn yaml_events(text: Seq<char>) -> Result<Seq<(YamlEv, usize, usize)>, (usize, Seq<char>)>;

pub open spec fn events_result_view(r: Result<Vec<YamlEvent>, (usize, String)>) -> Result<Seq<(YamlEv, usize, usize)>, (usize, Seq<char>)> {
    match r {
        Ok(es) => Ok(event_views(es@)),
        Err(e) => Err((e.0, e.1@)),
    }
}

/// Runs `saphyr_parser::Parser` over the characters of `text` and hands back
/// each event with the character indices of its span (mapping and sequence
/// ends alike as `End`, stream and document events as `Other`), or the
/// index and message of the first `ScanError`. The contract only ties the
/// result to the name [`yaml_events`].
#[verifier::external_body]
fn scan_yaml(text: &str) -> (r: Result<Vec<YamlEvent>, (usize, String)>)
    ensures
        yaml_events(text@) == events_result_view(r),
{
    Parser::new_from_iter(text.chars()).map(|item| item.map(|(ev, span)| YamlEvent {
        kind: match ev {
            MappingStart(a, _) => YamlEventKind::MappingStart(a),
            SequenceStart(a, _) => YamlEventKind::SequenceStart(a),
            MappingEnd | SequenceEnd => YamlEventKind::End,
            ScalarEvent(v, s, a, t) => YamlEventKind::Scalar(v.into_owned(), s == Plain, t.map(|t| (t.handle.clone(), t.suffix.clone())), a),
            Alias(id) => YamlEventKind::Alias(id),
            _ => YamlEventKind::Other,
        },
        start: span.start.index(),
        end: span.end.index(),
    }).map_err(|e| (e.marker().index(), e.info().to_string()))).collect()
}

/// The first error `saphyr`'s loader reports on `text` (as the character
/// index of its marker and its message), or `None` when it loads.
pub uninterp spec fn yaml_load_error(text: Seq<char>) -> Option<(usize, Seq<char>)>;

/// Calls `MarkedYaml::load_from_str`, keeping only its error: the index of
/// the error's marker and its message. The loader also refuses what the
/// parser accepts, such as a key given twice in one mapping.
#[verifier::external_body]
fn load_yaml(text: &str) -> (r: Option<(usize, String)>)
    ensures
        yaml_load_error(text@) == (match r {
            Some(e) => Some((e.0, e.1@)),
            None => None::<(usize, Seq<char>)>,
        }),
{
    MarkedYaml::load_from_str(text).err().map(|e| (e.marker().index(), e.info().to_string()))
}

/// Whether `saphyr`'s core schema reads the scalar `text` (plain or quoted,
/// with tag `tag`) as a string.
pub uninterp spec fn yaml_string_scalar(text: Seq<char>, plain: bool, tag: TagView) -> bool;

/// Calls `Scalar::parse_from_cow_and_metadata` and tells whether it gives a
/// string. Its source shows that a quoted scalar is always a string and an
/// untagged empty plain scalar is null; what it decides for other plain
/// scalars is left to the name [`yaml_string_scalar`].
#[verifier::external_body]
fn is_string_scalar(text: &str, plain: bool, tag: &Option<(String, String)>) -> (r: bool)
    ensures
        r == yaml_string_scalar(text@, plain, tag_view(*tag)),
        !plain ==> r,
        plain && tag.is_none() && text@.len() == 0 ==> !r,
{
    let style = if plain { ScalarStyle::Plain } else { ScalarStyle::DoubleQuoted };
    let tag = tag.as_ref().map(|(h, s)| Cow::Owned(Tag { handle: h.clone(), suffix: s.clone() }));
    matches!(Scalar::parse_from_cow_and_metadata(Cow::Borrowed(text), style, tag.as_ref()), Some(Scalar::String(_)))
}

// ---------- The walk ----------

/// An open collection: a sequence, or a mapping waiting for a key, or for
/// the value of the key it read (its name and span when it is a string).
pub enum YamlFrame {
    Sequence,
    AwaitingKey,
    AwaitingValue(Option<(Seq<char>, usize, usize)>),
}

/// State of the walk: the open collections and the anchored scalars.
pub struct YamlWalk {
    pub frames: Seq<YamlFrame>,
    pub anchors: Seq<(usize, Seq<char>, bool, TagView)>,
}

pub open spec fn yaml_walk_start() -> YamlWalk {
    YamlWalk { frames: Seq::empty(), anchors: Seq::empty() }
}

/// The key names leading to the innermost mapping, when every open
/// collection is a mapping reached through a string key.
pub open spec fn tracked_path(frames: Seq<YamlFrame>) -> Option<Seq<Seq<char>>>
    decreases frames.len(),
{
    if frames.len() == 0 {
        Some(Seq::empty())
    } else {
        match (tracked_path(frames.drop_last()), frames.last()) {
            (Some(p), YamlFrame::AwaitingValue(Some(k))) => Some(p.push(k.0)),
            _ => None,
        }
    }
}

/// A node ends inside the innermost collection; `node` is its text and span
/// when it is a string scalar. In a mapping it is in turn a key and a value;
/// a string value of a string key yields an entry when the mapping is tracked.
pub open spec fn yaml_complete(frames: Seq<YamlFrame>, node: Option<(Seq<char>, usize, usize)>) -> (Seq<YamlFrame>, Option<EntryOffsets>) {
    if frames.len() == 0 {
        (frames, None)
    } else {
        match frames.last() {
            YamlFrame::Sequence => (frames, None),
            YamlFrame::AwaitingKey => (frames.drop_last().push(YamlFrame::AwaitingValue(node)), None),
            YamlFrame::AwaitingValue(k) => {
                let e = match (tracked_path(frames), node, k) {
                    (Some(p), Some(v), Some(k)) => Some((p, v.0, v.1, v.2, k.1, k.2)),
                    _ => None,
                };
                (frames.drop_last().push(YamlFrame::AwaitingKey), e)
            },
        }
    }
}

/// The scalar last anchored under `id`.
pub open spec fn anchored(anchors: Seq<(usize, Seq<char>, bool, TagView)>, id: usize) -> Option<(Seq<char>, bool, TagView)>
    decreases anchors.len(),
{
    if anchors.len() == 0 {
        None
    } else if anchors.last().0 == id {
        Some((anchors.last().1, anchors.last().2, anchors.last().3))
    } else {
        anchored(anchors.drop_last(), id)
    }
}

/// The node of a scalar spanning `start`..`end`, when it is a string.
pub open spec fn string_node(text: Seq<char>, plain: bool, tag: TagView, start: usize, end: usize) -> Option<(Seq<char>, usize, usize)> {
    if yaml_string_scalar(text, plain, tag) { Some((text, start, end)) } else { None }
}

/// One step of the walk. An alias stands for the scalar it names, with the
/// alias's own span; an alias left after expansion (of no complete anchored
/// node) counts as a node that is not a string.
pub open spec fn yaml_step(w: YamlWalk, e: (YamlEv, usize, usize)) -> (YamlWalk, Option<EntryOffsets>) {
    match e.0 {
        YamlEv::MappingStart(_) => (YamlWalk { frames: w.frames.push(YamlFrame::AwaitingKey), anchors: w.anchors }, None),
        YamlEv::SequenceStart(_) => (YamlWalk { frames: w.frames.push(YamlFrame::Sequence), anchors: w.anchors }, None),
        YamlEv::End => if w.frames.len() == 0 {
            (w, None)
        } else {
            let c = yaml_complete(w.frames.drop_last(), None);
            (YamlWalk { frames: c.0, anchors: w.anchors }, c.1)
        },
        YamlEv::Scalar(t, plain, tag, a) => {
            let anchors = if a > 0 { w.anchors.push((a, t, plain, tag)) } else { w.anchors };
            let c = yaml_complete(w.frames, string_node(t, plain, tag, e.1, e.2));
            (YamlWalk { frames: c.0, anchors: anchors }, c.1)
        },
        YamlEv::Alias(id) => {
            let node = match anchored(w.anchors, id) {
                Some(s) => string_node(s.0, s.1, s.2, e.1, e.2),
                None => None,
            };
            let c = yaml_complete(w.frames, node);
            (YamlWalk { frames: c.0, anchors: w.anchors }, c.1)
        },
        YamlEv::Other => (w, None),
    }
}

/// The walk over all of `es`: its final state and the entries found (with
/// character indices), in order.
pub open spec fn yaml_walk(es: Seq<(YamlEv, usize, usize)>) -> (YamlWalk, Seq<EntryOffsets>)
    decreases es.len(),
{
    if es.len() == 0 {
        (yaml_walk_start(), Seq::empty())
    } else {
        let prev = yaml_walk(es.drop_last());
        let step = yaml_step(prev.0, es.last());
        (step.0, match step.1 {
            Some(x) => prev.1.push(x),
            None => prev.1,
        })
    }
}

// ---------- Aliases of collections ----------

/// An event with its span, as plain values.
pub type Ev = (YamlEv, usize, usize);

/// The stream being expanded: the events given out so far, the number of
/// open collections, the anchored collections still open (anchor id, the
/// count of open collections once it opened, its events so far) and the
/// anchored collections complete (anchor id and events).
pub struct YamlExpansion {
    pub out: Seq<Ev>,
    pub depth: nat,
    pub open: Seq<(usize, nat, Seq<Ev>)>,
    pub done: Seq<(usize, Seq<Ev>)>,
}

/// The events of the collection last anchored under `id`, once complete.
pub open spec fn recorded(done: Seq<(usize, Seq<Ev>)>, id: usize) -> Option<Seq<Ev>>
    decreases done.len(),
{
    if done.len() == 0 {
        None
    } else if done.last().0 == id {
        Some(done.last().1)
    } else {
        recorded(done.drop_last(), id)
    }
}

/// What stands for `e`: the events of the collection an alias names, as
/// `saphyr`'s loader copies the anchored node; else `e` itself.
pub open spec fn expand_piece(x: YamlExpansion, e: Ev) -> Seq<Ev> {
    match e.0 {
        YamlEv::Alias(id) => match recorded(x.done, id) {
            Some(evs) => evs,
            None => seq![e],
        },
        _ => seq![e],
    }
}

pub open spec fn extend_open(open: Seq<(usize, nat, Seq<Ev>)>, piece: Seq<Ev>) -> Seq<(usize, nat, Seq<Ev>)> {
    open.map_values(|r: (usize, nat, Seq<Ev>)| (r.0, r.1, r.2 + piece))
}

/// One event of the expansion.
pub open spec fn expand_step(x: YamlExpansion, e: Ev) -> YamlExpansion {
    let piece = expand_piece(x, e);
    let open = extend_open(x.open, piece);
    let out = x.out + piece;
    match e.0 {
        YamlEv::MappingStart(a) => YamlExpansion {
            out, depth: x.depth + 1, open: if a > 0 { open.push((a, x.depth + 1, seq![e])) } else { open }, done: x.done,
        },
        YamlEv::SequenceStart(a) => YamlExpansion {
            out, depth: x.depth + 1, open: if a > 0 { open.push((a, x.depth + 1, seq![e])) } else { open }, done: x.done,
        },
        YamlEv::End => if x.depth == 0 {
            YamlExpansion { out, depth: x.depth, open, done: x.done }
        } else if open.len() > 0 && open.last().1 == x.depth {
            YamlExpansion { out, depth: (x.depth - 1) as nat, open: open.drop_last(), done: x.done.push((open.last().0, open.last().2)) }
        } else {
            YamlExpansion { out, depth: (x.depth - 1) as nat, open, done: x.done }
        },
        _ => YamlExpansion { out, depth: x.depth, open, done: x.done },
    }
}

/// The expansion of all of `es`.
pub open spec fn expand_all(es: Seq<Ev>) -> YamlExpansion
    decreases es.len(),
{
    if es.len() == 0 {
        YamlExpansion { out: Seq::empty(), depth: 0, open: Seq::empty(), done: Seq::empty() }
    } else {
        expand_step(expand_all(es.drop_last()), es.last())
    }
}

/// `es` with every alias of a complete anchored collection replaced by
/// that collection's events.
pub open spec fn expanded(es: Seq<Ev>) -> Seq<Ev> {
    expand_all(es).out
}

/// Every event that the expansion holds is one of `es`.
pub open spec fn drawn_from(x: YamlExpansion, es: Seq<Ev>) -> bool {
    &&& forall|k: int| 0 <= k < x.out.len() ==> es.contains(#[trigger] x.out[k])
    &&& forall|j: int, k: int| 0 <= j < x.open.len() && 0 <= k < x.open[j].2.len() ==> es.contains(#[trigger] x.open[j].2[k])
    &&& forall|j: int, k: int| 0 <= j < x.done.len() && 0 <= k < x.done[j].1.len() ==> es.contains(#[trigger] x.done[j].1[k])
}

proof fn lemma_recorded_drawn(done: Seq<(usize, Seq<Ev>)>, id: usize, es: Seq<Ev>)
    requires
        forall|j: int, k: int| 0 <= j < done.len() && 0 <= k < done[j].1.len() ==> es.contains(#[trigger] done[j].1[k]),
    ensures
        recorded(done, id) matches Some(evs) ==> forall|k: int| 0 <= k < evs.len() ==> es.contains(#[trigger] evs[k]),
    decreases done.len(),
{
    if done.len() > 0 && done.last().0 != id {
        assert forall|j: int, k: int| 0 <= j < done.drop_last().len() && 0 <= k < done.drop_last()[j].1.len()
            implies es.contains(#[trigger] done.drop_last()[j].1[k]) by {
            assert(done.drop_last()[j] == done[j]);
        }
        lemma_recorded_drawn(done.drop_last(), id, es);
    } else if done.len() > 0 {
        assert(done.last() == done[done.len() - 1]);
    }
}

/// The expansion gives out, and keeps, only events of the stream.
proof fn lemma_expand_drawn(es: Seq<Ev>)
    ensures
        drawn_from(expand_all(es), es),
    decreases es.len(),
{
    if es.len() > 0 {
        let d = es.drop_last();
        lemma_expand_drawn(d);
        let x = expand_all(d);
        let e = es.last();
        assert(es.contains(e)) by { assert(es[es.len() - 1] == e); }
        assert forall|y: Ev| d.contains(y) implies es.contains(y) by {
            let k = choose|k: int| 0 <= k < d.len() && d[k] == y;
            assert(es[k] == y);
        }
        lemma_recorded_drawn(x.done, match e.0 { YamlEv::Alias(id) => id, _ => 0 }, d);
        let piece = expand_piece(x, e);
        assert forall|k: int| 0 <= k < piece.len() implies es.contains(#[trigger] piece[k]) by {
            match e.0 {
                YamlEv::Alias(id) => {
                    if recorded(x.done, id) is Some {
                        assert(d.contains(piece[k]));
                    }
                },
                _ => {},
            }
        }
        let y = expand_all(es);
        let open = extend_open(x.open, piece);
        assert forall|k: int| 0 <= k < y.out.len() implies es.contains(#[trigger] y.out[k]) by {
            if k < x.out.len() {
                assert(y.out[k] == x.out[k]);
                assert(d.contains(x.out[k]));
            } else {
                assert(y.out[k] == piece[k - x.out.len()]);
            }
        }
        assert forall|j: int, k: int| 0 <= j < open.len() && 0 <= k < open[j].2.len() implies es.contains(#[trigger] open[j].2[k]) by {
            assert(open[j].2 == x.open[j].2 + piece);
            if k < x.open[j].2.len() {
                assert(open[j].2[k] == x.open[j].2[k]);
                assert(d.contains(x.open[j].2[k]));
            } else {
                assert(open[j].2[k] == piece[k - x.open[j].2.len()]);
            }
        }
        assert forall|j: int, k: int| 0 <= j < y.open.len() && 0 <= k < y.open[j].2.len() implies es.contains(#[trigger] y.open[j].2[k]) by {
            if j < open.len() {
                assert(y.open[j] == open[j]);
            } else {
                assert(y.open[j].2 == seq![e]);
            }
        }
        assert forall|j: int, k: int| 0 <= j < y.done.len() && 0 <= k < y.done[j].1.len() implies es.contains(#[trigger] y.done[j].1[k]) by {
            if j < x.done.len() {
                assert(y.done[j] == x.done[j]);
                assert(d.contains(x.done[j].1[k]));
            } else {
                assert(y.done[j].1 == open.last().2);
                assert(open.last() == open[open.len() - 1]);
            }
        }
    }
}

/// The expansion of a stream whose spans are good has good spans.
proof fn lemma_expanded_placed(bytes: Seq<u8>, text: Seq<char>, es: Seq<Ev>)
    requires
        spans_placed(bytes, text, es),
    ensures
        spans_placed(bytes, text, expanded(es)),
{
    lemma_expand_drawn(es);
    let o = expanded(es);
    assert forall|i: int| 0 <= i < o.len() implies good_point(bytes, text, (#[trigger] o[i]).1) && good_point(bytes, text, o[i].2) by {
        assert(es.contains(o[i]));
        let k = choose|k: int| 0 <= k < es.len() && es[k] == o[i];
        assert(good_point(bytes, text, es[k].1));
    }
}

// ---------- Character indices to byte offsets ----------

/// Byte offset of character index `k` of `text` (clamped to its end).
pub open spec fn byte_at(text: Seq<char>, k: usize) -> usize {
    vstd::utf8::encode_utf8(text.take(if k <= text.len() { k as int } else { text.len() as int })).len() as usize
}

/// An entry found by the walk, its character indices turned into byte offsets.
pub open spec fn entry_in_bytes(text: Seq<char>, o: EntryOffsets) -> EntryOffsets {
    (o.0, o.1, byte_at(text, o.2), byte_at(text, o.3), byte_at(text, o.4), byte_at(text, o.5))
}

/// Character index `x` lies within `text` and its byte offset on a character boundary.
pub open spec fn good_point(bytes: Seq<u8>, text: Seq<char>, x: usize) -> bool {
    x <= text.len() && placed(bytes, byte_at(text, x))
}

/// Every event span lies within `text` and on character boundaries of its bytes.
pub open spec fn spans_placed(bytes: Seq<u8>, text: Seq<char>, es: Seq<(YamlEv, usize, usize)>) -> bool {
    forall|i: int| 0 <= i < es.len() ==> good_point(bytes, text, (#[trigger] es[i]).1) && good_point(bytes, text, es[i].2)
}

/// The spans of the string keys held by `frames` are good points.
pub open spec fn labels_good(bytes: Seq<u8>, text: Seq<char>, frames: Seq<YamlFrame>) -> bool {
    forall|j: int| 0 <= j < frames.len() ==> match #[trigger] frames[j] {
        YamlFrame::AwaitingValue(Some(k)) => good_point(bytes, text, k.1) && good_point(bytes, text, k.2),
        _ => true,
    }
}

proof fn lemma_complete_good(bytes: Seq<u8>, text: Seq<char>, frames: Seq<YamlFrame>, node: Option<(Seq<char>, usize, usize)>)
    requires
        labels_good(bytes, text, frames),
        node matches Some(n) ==> good_point(bytes, text, n.1) && good_point(bytes, text, n.2),
    ensures
        labels_good(bytes, text, yaml_complete(frames, node).0),
        yaml_complete(frames, node).1 matches Some(o) ==> good_point(bytes, text, o.2) && good_point(bytes, text, o.3)
            && good_point(bytes, text, o.4) && good_point(bytes, text, o.5),
{
    if frames.len() > 0 {
        let c = yaml_complete(frames, node);
        assert forall|j: int| 0 <= j < c.0.len() implies match #[trigger] c.0[j] {
            YamlFrame::AwaitingValue(Some(k)) => good_point(bytes, text, k.1) && good_point(bytes, text, k.2),
            _ => true,
        } by {
            if j < frames.len() - 1 {
                assert(c.0[j] == frames[j]);
            }
        }
        let last = frames[frames.len() - 1];
        assert(frames.last() == last);
    }
}

/// One step keeps the key spans good and finds entries at good points.
proof fn lemma_step_good(bytes: Seq<u8>, text: Seq<char>, w: YamlWalk, e: (YamlEv, usize, usize))
    requires
        labels_good(bytes, text, w.frames),
        good_point(bytes, text, e.1),
        good_point(bytes, text, e.2),
    ensures
        labels_good(bytes, text, yaml_step(w, e).0.frames),
        yaml_step(w, e).1 matches Some(o) ==> good_point(bytes, text, o.2) && good_point(bytes, text, o.3)
            && good_point(bytes, text, o.4) && good_point(bytes, text, o.5),
{
    match e.0 {
        YamlEv::MappingStart(_) => {
            assert forall|j: int| 0 <= j < w.frames.len() + 1 implies match #[trigger] w.frames.push(YamlFrame::AwaitingKey)[j] {
                YamlFrame::AwaitingValue(Some(k)) => good_point(bytes, text, k.1) && good_point(bytes, text, k.2),
                _ => true,
            } by {
                if j < w.frames.len() {
                    assert(w.frames.push(YamlFrame::AwaitingKey)[j] == w.frames[j]);
                }
            }
        },
        YamlEv::SequenceStart(_) => {
            assert forall|j: int| 0 <= j < w.frames.len() + 1 implies match #[trigger] w.frames.push(YamlFrame::Sequence)[j] {
                YamlFrame::AwaitingValue(Some(k)) => good_point(bytes, text, k.1) && good_point(bytes, text, k.2),
                _ => true,
            } by {
                if j < w.frames.len() {
                    assert(w.frames.push(YamlFrame::Sequence)[j] == w.frames[j]);
                }
            }
        },
        YamlEv::End => {
            if w.frames.len() > 0 {
                assert forall|j: int| 0 <= j < w.frames.len() - 1 implies match #[trigger] w.frames.drop_last()[j] {
                    YamlFrame::AwaitingValue(Some(k)) => good_point(bytes, text, k.1) && good_point(bytes, text, k.2),
                    _ => true,
                } by {
                    assert(w.frames.drop_last()[j] == w.frames[j]);
                }
                lemma_complete_good(bytes, text, w.frames.drop_last(), None);
            }
        },
        YamlEv::Scalar(t, plain, tag, a) => {
            lemma_complete_good(bytes, text, w.frames, string_node(t, plain, tag, e.1, e.2));
        },
        YamlEv::Alias(id) => {
            let node = match anchored(w.anchors, id) {
                Some(s) => string_node(s.0, s.1, s.2, e.1, e.2),
                None => None,
            };
            lemma_complete_good(bytes, text, w.frames, node);
        },
        YamlEv::Other => {},
    }
}

/// The walk keeps the key spans good.
proof fn lemma_walk_good(bytes: Seq<u8>, text: Seq<char>, es: Seq<(YamlEv, usize, usize)>)
    requires
        spans_placed(bytes, text, es),
    ensures
        labels_good(bytes, text, yaml_walk(es).0.frames),
    decreases es.len(),
{
    if es.len() > 0 {
        let d = es.drop_last();
        assert forall|i: int| 0 <= i < d.len() implies good_point(bytes, text, (#[trigger] d[i]).1) && good_point(bytes, text, d[i].2) by {
            assert(d[i] == es[i]);
        }
        lemma_walk_good(bytes, text, d);
        assert(es.last() == es[es.len() - 1]);
        lemma_step_good(bytes, text, yaml_walk(d).0, es.last());
    }
}

proof fn lemma_encode_concat(a: Seq<char>, b: Seq<char>)
    ensures
        vstd::utf8::encode_utf8(a + b) == vstd::utf8::encode_utf8(a) + vstd::utf8::encode_utf8(b),
    decreases a.len(),
{
    if a.len() == 0 {
        assert(a + b =~= b);
        assert(vstd::utf8::encode_utf8(a) =~= Seq::<u8>::empty());
        assert(Seq::<u8>::empty() + vstd::utf8::encode_utf8(b) =~= vstd::utf8::encode_utf8(b));
    } else {
        assert((a + b).drop_first() =~= a.drop_first() + b);
        assert((a + b)[0] == a[0]);
        lemma_encode_concat(a.drop_first(), b);
        assert(vstd::utf8::encode_utf8(a + b) =~= vstd::utf8::encode_scalar(a[0] as u32) + (vstd::utf8::encode_utf8(a.drop_first()) + vstd::utf8::encode_utf8(b)));
    }
}

proof fn lemma_encode_single(c: char)
    ensures
        vstd::utf8::encode_utf8(seq![c]) == vstd::utf8::encode_scalar(c as u32),
{
    assert(seq![c].drop_first() =~= Seq::<char>::empty());
    assert(vstd::utf8::encode_utf8(Seq::<char>::empty()) =~= Seq::<u8>::empty());
    assert(vstd::utf8::encode_scalar(c as u32) + Seq::<u8>::empty() =~= vstd::utf8::encode_scalar(c as u32));
}

/// Number of bytes of the UTF-8 encoding of `c`.
fn utf8_width(c: char) -> (r: usize)
    ensures
        r == vstd::utf8::encode_scalar(c as u32).len(),
{
    let v = c as u32;
    if v <= 0x7f {
        1
    } else if v <= 0x7ff {
        2
    } else if v <= 0xffff {
        proof { vstd::utf8::char_is_scalar(c); }
        3
    } else {
        4
    }
}

/// The byte offset of every character index of `text`, its end included.
fn byte_offsets(text: &str) -> (r: Vec<usize>)
    requires
        text.spec_bytes().len() <= usize::MAX,
    ensures
        r@.len() == text@.len() + 1,
        forall|k: int| 0 <= k <= text@.len() ==> r@[k] as int == vstd::utf8::encode_utf8(#[trigger] text@.take(k)).len(),
{
    let cs = crate::text::chars_of(text);
    let mut r: Vec<usize> = Vec::new();
    let mut acc: usize = 0;
    let mut k: usize = 0;
    proof {
        assert(text@.take(0) =~= Seq::<char>::empty());
        assert(vstd::utf8::encode_utf8(Seq::<char>::empty()) =~= Seq::<u8>::empty());
    }
    while k < cs.len()
        invariant
            cs@ == text@,
            k <= cs@.len(),
            r@.len() == k,
            acc as int == vstd::utf8::encode_utf8(text@.take(k as int)).len(),
            text.spec_bytes().len() <= usize::MAX,
            forall|j: int| 0 <= j < k ==> r@[j] as int == vstd::utf8::encode_utf8(#[trigger] text@.take(j)).len(),
        decreases cs@.len() - k,
    {
        r.push(acc);
        let ghost t = text@;
        proof {
            assert(t.take(k + 1) =~= t.take(k as int) + seq![t[k as int]]);
            lemma_encode_concat(t.take(k as int), seq![t[k as int]]);
            lemma_encode_single(t[k as int]);
            assert(t =~= t.take(k + 1) + t.skip(k + 1));
            lemma_encode_concat(t.take(k + 1), t.skip(k + 1));
        }
        let w = utf8_width(cs[k]);
        acc = acc + w;
        k = k + 1;
    }
    r.push(acc);
    r
}

// ---------- The walk, executed ----------

/// An open collection while walking.
enum Frame {
    Sequence,
    AwaitingKey,
    AwaitingValue(Option<(String, usize, usize)>),
}

spec fn frame_view(f: Frame) -> YamlFrame {
    match f {
        Frame::Sequence => YamlFrame::Sequence,
        Frame::AwaitingKey => YamlFrame::AwaitingKey,
        Frame::AwaitingValue(k) => YamlFrame::AwaitingValue(match k {
            Some(x) => Some((x.0@, x.1, x.2)),
            None => None,
        }),
    }
}

spec fn frames_view(fs: Seq<Frame>) -> Seq<YamlFrame> {
    fs.map_values(|f: Frame| frame_view(f))
}

spec fn node_view(n: Option<(String, usize, usize)>) -> Option<(Seq<char>, usize, usize)> {
    match n {
        Some(x) => Some((x.0@, x.1, x.2)),
        None => None,
    }
}

spec fn anchors_view(a: Seq<(usize, String, bool, Option<(String, String)>)>) -> Seq<(usize, Seq<char>, bool, TagView)> {
    a.map_values(|x: (usize, String, bool, Option<(String, String)>)| (x.0, x.1@, x.2, tag_view(x.3)))
}

fn clone_tag(t: &Option<(String, String)>) -> (r: Option<(String, String)>)
    ensures
        tag_view(r) == tag_view(*t),
{
    match t {
        Some(p) => Some((p.0.clone(), p.1.clone())),
        None => None,
    }
}

/// The key names of the frames, when every frame waits for the value of a string key.
fn frames_path(frames: &Vec<Frame>) -> (r: Option<Vec<String>>)
    ensures
        match r {
            Some(p) => tracked_path(frames_view(frames@)) == Some(views(p@)),
            None => tracked_path(frames_view(frames@)) is None,
        },
{
    let ghost fv = frames_view(frames@);
    let mut path: Vec<String> = Vec::new();
    let mut i: usize = 0;
    while i < frames.len()
        invariant
            fv == frames_view(frames@),
            i <= frames@.len(),
            tracked_path(fv.take(i as int)) == Some(views(path@)),
        decreases frames@.len() - i,
    {
        assert(fv.take(i + 1).drop_last() =~= fv.take(i as int));
        assert(fv.take(i + 1).last() == frame_view(frames@[i as int]));
        match &frames[i] {
            Frame::AwaitingValue(Some(k)) => {
                let ghost p0 = views(path@);
                path.push(k.0.clone());
                assert(views(path@) =~= p0.push(k.0@));
            },
            _ => {
                proof { lemma_untracked_prefix(fv, i as int); }
                return None;
            },
        }
        i = i + 1;
    }
    assert(fv.take(frames@.len() as int) =~= fv);
    Some(path)
}

/// Once a prefix of the frames is not tracked, the frames are not.
proof fn lemma_untracked_prefix(fv: Seq<YamlFrame>, i: int)
    requires
        0 <= i < fv.len(),
        tracked_path(fv.take(i + 1)) is None,
    ensures
        tracked_path(fv) is None,
    decreases fv.len() - i,
{
    if i + 1 < fv.len() {
        assert(fv.take(i + 2).drop_last() =~= fv.take(i + 1));
        lemma_untracked_prefix(fv, i + 1);
    } else {
        assert(fv.take(i + 1) =~= fv);
    }
}

/// An entry found while walking, with character indices.
struct Found {
    path: Vec<String>,
    value: String,
    start: usize,
    end: usize,
    key_start: usize,
    key_end: usize,
}

spec fn found_view(f: Found) -> EntryOffsets {
    (views(f.path@), f.value@, f.start, f.end, f.key_start, f.key_end)
}

/// See [`yaml_complete`].
fn complete(frames: &mut Vec<Frame>, node: Option<(String, usize, usize)>) -> (r: Option<Found>)
    ensures
        frames_view(final(frames)@) == yaml_complete(frames_view(old(frames)@), node_view(node)).0,
        match r {
            Some(f) => yaml_complete(frames_view(old(frames)@), node_view(node)).1 == Some(found_view(f)),
            None => yaml_complete(frames_view(old(frames)@), node_view(node)).1 is None,
        },
{
    let ghost fv = frames_view(frames@);
    let n = frames.len();
    if n == 0 {
        return None;
    }
    let path = frames_path(frames);
    let top = frames.pop().unwrap();
    assert(frames_view(frames@) =~= fv.drop_last());
    match top {
        Frame::Sequence => {
            frames.push(Frame::Sequence);
            assert(frames_view(frames@) =~= fv);
            None
        },
        Frame::AwaitingKey => {
            frames.push(Frame::AwaitingValue(node));
            assert(frames_view(frames@) =~= fv.drop_last().push(YamlFrame::AwaitingValue(node_view(node))));
            None
        },
        Frame::AwaitingValue(k) => {
            frames.push(Frame::AwaitingKey);
            assert(frames_view(frames@) =~= fv.drop_last().push(YamlFrame::AwaitingKey));
            match (path, node, k) {
                (Some(p), Some(v), Some(k)) => Some(Found { path: p, value: v.0, start: v.1, end: v.2, key_start: k.1, key_end: k.2 }),
                _ => None,
            }
        },
    }
}

/// The scalar last anchored under `id`.
fn find_anchor(anchors: &Vec<(usize, String, bool, Option<(String, String)>)>, id: usize) -> (r: Option<usize>)
    ensures
        match r {
            Some(i) => i < anchors@.len() && anchored(anchors_view(anchors@), id)
                == Some((anchors@[i as int].1@, anchors@[i as int].2, tag_view(anchors@[i as int].3))),
            None => anchored(anchors_view(anchors@), id) is None,
        },
{
    let ghost av = anchors_view(anchors@);
    let mut i: usize = anchors.len();
    assert(av.take(av.len() as int) =~= av);
    while i > 0
        invariant
            av == anchors_view(anchors@),
            i <= anchors@.len(),
            anchored(av, id) == anchored(av.take(i as int), id),
        decreases i,
    {
        assert(av.take(i as int).drop_last() =~= av.take(i - 1));
        if anchors[i - 1].0 == id {
            return Some(i - 1);
        }
        i = i - 1;
    }
    None
}

/// The node of a scalar, when it is a string.
fn scalar_node(text: &String, plain: bool, tag: &Option<(String, String)>, start: usize, end: usize) -> (r: Option<(String, usize, usize)>)
    ensures
        node_view(r) == string_node(text@, plain, tag_view(*tag), start, end),
{
    if is_string_scalar(text.as_str(), plain, tag) {
        Some((text.clone(), start, end))
    } else {
        None
    }
}

fn clone_event(e: &YamlEvent) -> (r: YamlEvent)
    ensures
        event_view(r) == event_view(*e),
{
    let kind = match &e.kind {
        YamlEventKind::MappingStart(a) => YamlEventKind::MappingStart(*a),
        YamlEventKind::SequenceStart(a) => YamlEventKind::SequenceStart(*a),
        YamlEventKind::End => YamlEventKind::End,
        YamlEventKind::Scalar(t, p, g, a) => YamlEventKind::Scalar(t.clone(), *p, clone_tag(g), *a),
        YamlEventKind::Alias(id) => YamlEventKind::Alias(*id),
        YamlEventKind::Other => YamlEventKind::Other,
    };
    YamlEvent { kind, start: e.start, end: e.end }
}

/// Appends copies of `piece` to `v`.
fn append_copies(v: &mut Vec<YamlEvent>, piece: &Vec<YamlEvent>)
    ensures
        event_views(final(v)@) == event_views(old(v)@) + event_views(piece@),
{
    let ghost v0 = event_views(v@);
    let mut k: usize = 0;
    while k < piece.len()
        invariant
            k <= piece@.len(),
            event_views(v@) == v0 + event_views(piece@).take(k as int),
        decreases piece@.len() - k,
    {
        let c = clone_event(&piece[k]);
        let ghost before = event_views(v@);
        v.push(c);
        assert(event_views(v@) =~= before.push(event_view(piece@[k as int])));
        assert(event_views(piece@).take(k + 1) =~= event_views(piece@).take(k as int).push(event_view(piece@[k as int])));
        k = k + 1;
    }
    assert(event_views(piece@).take(piece@.len() as int) =~= event_views(piece@));
}

pub open spec fn open_view(v: Seq<(usize, usize, Vec<YamlEvent>)>) -> Seq<(usize, nat, Seq<Ev>)> {
    v.map_values(|r: (usize, usize, Vec<YamlEvent>)| (r.0, r.1 as nat, event_views(r.2@)))
}

pub open spec fn done_view(v: Seq<(usize, Vec<YamlEvent>)>) -> Seq<(usize, Seq<Ev>)> {
    v.map_values(|r: (usize, Vec<YamlEvent>)| (r.0, event_views(r.1@)))
}

/// Index of the collection last recorded under `id`.
fn find_recorded(done: &Vec<(usize, Vec<YamlEvent>)>, id: usize) -> (r: Option<usize>)
    ensures
        match r {
            Some(i) => i < done@.len() && recorded(done_view(done@), id) == Some(event_views(done@[i as int].1@)),
            None => recorded(done_view(done@), id) is None,
        },
{
    let ghost dv = done_view(done@);
    let mut i: usize = done.len();
    assert(dv.take(dv.len() as int) =~= dv);
    while i > 0
        invariant
            dv == done_view(done@),
            i <= done@.len(),
            recorded(dv, id) == recorded(dv.take(i as int), id),
        decreases i,
    {
        assert(dv.take(i as int).drop_last() =~= dv.take(i - 1));
        if done[i - 1].0 == id {
            return Some(i - 1);
        }
        i = i - 1;
    }
    None
}

/// The events of `events` with each alias of a complete anchored collection
/// replaced by copies of that collection's events (see [`expanded`]).
pub fn expand_events(events: &Vec<YamlEvent>) -> (r: Vec<YamlEvent>)
    ensures
        event_views(r@) == expanded(event_views(events@)),
{
    let ghost es = event_views(events@);
    let mut out: Vec<YamlEvent> = Vec::new();
    let mut depth: usize = 0;
    let mut open: Vec<(usize, usize, Vec<YamlEvent>)> = Vec::new();
    let mut done: Vec<(usize, Vec<YamlEvent>)> = Vec::new();
    let mut i: usize = 0;
    proof {
        assert(event_views(out@) =~= Seq::<Ev>::empty());
        assert(open_view(open@) =~= Seq::<(usize, nat, Seq<Ev>)>::empty());
        assert(done_view(done@) =~= Seq::<(usize, Seq<Ev>)>::empty());
        assert(es.take(0) =~= Seq::<Ev>::empty());
    }
    while i < events.len()
        invariant
            es == event_views(events@),
            i <= events@.len(),
            depth <= i,
            ({
                let x = expand_all(es.take(i as int));
                &&& event_views(out@) == x.out
                &&& depth as nat == x.depth
                &&& open_view(open@) == x.open
                &&& done_view(done@) == x.done
            }),
        decreases events@.len() - i,
    {
        let ghost x = expand_all(es.take(i as int));
        let ev = &events[i];
        assert(es.take(i + 1).drop_last() =~= es.take(i as int));
        assert(es.take(i + 1).last() == es[i as int]);
        assert(es[i as int] == event_view(*ev));
        let mut piece: Vec<YamlEvent> = Vec::new();
        match &ev.kind {
            YamlEventKind::Alias(id) => {
                match find_recorded(&done, *id) {
                    Some(k) => {
                        append_copies(&mut piece, &done[k].1);
                        assert(event_views(piece@) =~= event_views(done@[k as int].1@));
                    },
                    None => {
                        piece.push(clone_event(ev));
                        assert(event_views(piece@) =~= seq![event_view(*ev)]);
                    },
                }
            },
            _ => {
                piece.push(clone_event(ev));
                assert(event_views(piece@) =~= seq![event_view(*ev)]);
            },
        }
        let ghost pv = event_views(piece@);
        assert(pv == expand_piece(x, es[i as int]));
        append_copies(&mut out, &piece);
        // every open recording takes the piece
        let ghost ov = open_view(open@);
        let mut open2: Vec<(usize, usize, Vec<YamlEvent>)> = Vec::new();
        let mut j: usize = 0;
        while j < open.len()
            invariant
                j <= open@.len(),
                ov == open_view(open@),
                open_view(open2@) == extend_open(ov.take(j as int), pv),
                pv == event_views(piece@),
            decreases open@.len() - j,
        {
            let mut v: Vec<YamlEvent> = Vec::new();
            append_copies(&mut v, &open[j].2);
            append_copies(&mut v, &piece);
            let ghost o2 = open_view(open2@);
            open2.push((open[j].0, open[j].1, v));
            assert(open_view(open2@) =~= o2.push((ov[j as int].0, ov[j as int].1, ov[j as int].2 + pv)));
            assert(extend_open(ov.take(j + 1), pv) =~= extend_open(ov.take(j as int), pv).push((ov[j as int].0, ov[j as int].1, ov[j as int].2 + pv)));
            j = j + 1;
        }
        assert(ov.take(ov.len() as int) =~= ov);
        open = open2;
        match &ev.kind {
            YamlEventKind::MappingStart(a) | YamlEventKind::SequenceStart(a) => {
                depth = depth + 1;
                if *a > 0 {
                    let mut v: Vec<YamlEvent> = Vec::new();
                    v.push(clone_event(ev));
                    let ghost o2 = open_view(open@);
                    open.push((*a, depth, v));
                    assert(open_view(open@) =~= o2.push((*a, depth as nat, seq![event_view(*ev)])));
                }
            },
            YamlEventKind::End => {
                if depth > 0 {
                    let n = open.len();
                    if n > 0 && open[n - 1].1 == depth {
                        let ghost o2 = open_view(open@);
                        let r = open.pop().unwrap();
                        assert(open_view(open@) =~= o2.drop_last());
                        let ghost d2 = done_view(done@);
                        assert(o2.last() == (r.0, r.1 as nat, event_views(r.2@)));
                        done.push((r.0, r.2));
                        assert(done_view(done@) =~= d2.push((o2.last().0, o2.last().2)));
                    }
                    depth = depth - 1;
                }
            },
            _ => {},
        }
        assert(expand_all(es.take(i + 1)) == expand_step(x, es[i as int]));
        i = i + 1;
    }
    assert(es.take(events@.len() as int) =~= es);
    out
}

/// The entries of a text from its events: the walk of [`yaml_walk`], with
/// character indices turned into line / UTF-16 column positions of `source`.
pub fn entries_from_events(source: &str, events: &Vec<YamlEvent>) -> (r: Vec<LocaleEntry>)
    requires
        2 * source.spec_bytes().len() <= u32::MAX,
        spans_placed(source.spec_bytes(), source@, event_views(events@)),
    ensures
        entries_match(source.spec_bytes(), r@,
            yaml_walk(event_views(events@)).1.map_values(|o: EntryOffsets| entry_in_bytes(source@, o))),
{
    let lines = LineIndex::new(source);
    let offsets = byte_offsets(source);
    let ghost es = event_views(events@);
    let ghost bytes = source.spec_bytes();
    let ghost text = source@;
    let mut frames: Vec<Frame> = Vec::new();
    let mut anchors: Vec<(usize, String, bool, Option<(String, String)>)> = Vec::new();
    let mut out: Vec<LocaleEntry> = Vec::new();
    let mut i: usize = 0;
    while i < events.len()
        invariant
            lines.wf(),
            lines.bytes() == bytes,
            bytes == source.spec_bytes(),
            text == source@,
            2 * bytes.len() <= u32::MAX,
            es == event_views(events@),
            spans_placed(bytes, text, es),
            offsets@.len() == text.len() + 1,
            forall|k: int| 0 <= k <= text.len() ==> offsets@[k] as int == vstd::utf8::encode_utf8(#[trigger] text.take(k)).len(),
            i <= events@.len(),
            ({
                let w = yaml_walk(es.take(i as int));
                &&& frames_view(frames@) == w.0.frames
                &&& anchors_view(anchors@) == w.0.anchors
                &&& entries_match(bytes, out@, w.1.map_values(|o: EntryOffsets| entry_in_bytes(text, o)))
            }),
        decreases events@.len() - i,
    {
        let ev = &events[i];
        let ghost w = yaml_walk(es.take(i as int)).0;
        let ghost prev = yaml_walk(es.take(i as int)).1;
        assert(es.take(i + 1).drop_last() =~= es.take(i as int));
        assert(es.take(i + 1).last() == es[i as int]);
        assert(es[i as int] == event_view(*ev));
        let found: Option<Found> = match &ev.kind {
            YamlEventKind::MappingStart(_) => {
                frames.push(Frame::AwaitingKey);
                assert(frames_view(frames@) =~= w.frames.push(YamlFrame::AwaitingKey));
                None
            },
            YamlEventKind::SequenceStart(_) => {
                frames.push(Frame::Sequence);
                assert(frames_view(frames@) =~= w.frames.push(YamlFrame::Sequence));
                None
            },
            YamlEventKind::End => {
                if frames.len() == 0 {
                    None
                } else {
                    frames.pop();
                    assert(frames_view(frames@) =~= w.frames.drop_last());
                    complete(&mut frames, None)
                }
            },
            YamlEventKind::Scalar(t, plain, tag, a) => {
                if *a > 0 {
                    let ghost a0 = anchors_view(anchors@);
                    anchors.push((*a, t.clone(), *plain, clone_tag(tag)));
                    assert(anchors_view(anchors@) =~= a0.push((*a, t@, *plain, tag_view(*tag))));
                }
                let node = scalar_node(t, *plain, tag, ev.start, ev.end);
                complete(&mut frames, node)
            },
            YamlEventKind::Alias(id) => {
                let node = match find_anchor(&anchors, *id) {
                    Some(k) => scalar_node(&anchors[k].1, anchors[k].2, &anchors[k].3, ev.start, ev.end),
                    None => None,
                };
                complete(&mut frames, node)
            },
            YamlEventKind::Other => None,
        };
        assert(frames_view(frames@) == yaml_walk(es.take(i + 1)).0.frames);
        assert(anchors_view(anchors@) == yaml_walk(es.take(i + 1)).0.anchors);
        match found {
            Some(f) => {
                let ghost o = found_view(f);
                assert(yaml_step(w, es[i as int]).1 == Some(o));
                proof {
                    let d = es.take(i as int);
                    assert forall|j: int| 0 <= j < d.len() implies good_point(bytes, text, (#[trigger] d[j]).1) && good_point(bytes, text, d[j].2) by {
                        assert(d[j] == es[j]);
                    }
                    lemma_walk_good(bytes, text, d);
                    lemma_step_good(bytes, text, w, es[i as int]);
                }
                let vs = offsets[f.start];
                let ve = offsets[f.end];
                let ks = offsets[f.key_start];
                let ke = offsets[f.key_end];
                let ghost ob = entry_in_bytes(text, o);
                assert(vs == ob.2 && ve == ob.3 && ks == ob.4 && ke == ob.5);
                proof {
                    lines.lemma_position_defined(vs);
                    lines.lemma_position_defined(ve);
                    lines.lemma_position_defined(ks);
                    lines.lemma_position_defined(ke);
                }
                let range = lines.range(vs, ve);
                let key_range = lines.range(ks, ke);
                let ghost o0 = out@;
                out.push(LocaleEntry { key_path: f.path, value: f.value, range, key_range });
                proof {
                    let os = yaml_walk(es.take(i + 1)).1.map_values(|o: EntryOffsets| entry_in_bytes(text, o));
                    assert(yaml_walk(es.take(i + 1)).1 == prev.push(o));
                    assert(os =~= prev.map_values(|o: EntryOffsets| entry_in_bytes(text, o)).push(ob));
                    assert forall|j: int| 0 <= j < out@.len() implies entry_matches(bytes, #[trigger] out@[j], os[j]) by {
                        if j < o0.len() {
                            assert(out@[j] == o0[j]);
                        }
                    }
                }
            },
            None => {
                assert(yaml_walk(es.take(i + 1)).1 == prev);
            },
        }
        i = i + 1;
    }
    assert(es.take(events@.len() as int) =~= es);
    out
}

/// Parser of YAML locale files.
pub struct YamlParser;

/// What parsing `text` as YAML yields: the error of `saphyr`'s loader or
/// parser (its character index turned into a byte offset); else, when every
/// event lies on character boundaries, the entries of the walk over the
/// events with aliases of collections expanded; else a syntax error.
pub open spec fn yaml_parse_result(bytes: Seq<u8>, text: Seq<char>, r: Result<Vec<LocaleEntry>, ParseError>) -> bool {
    match yaml_load_error(text) {
        Some(e) => r matches Err(ParseError::Syntax { offset, message }) && offset == byte_at(text, e.0) && message@ == e.1,
        None => match yaml_events(text) {
            Err(e) => r matches Err(ParseError::Syntax { offset, message }) && offset == byte_at(text, e.0) && message@ == e.1,
            Ok(es) => if spans_placed(bytes, text, es) {
                r matches Ok(v) && entries_match(bytes, v@, yaml_walk(expanded(es)).1.map_values(|o: EntryOffsets| entry_in_bytes(text, o)))
            } else {
                r matches Err(ParseError::Syntax { .. })
            },
        },
    }
}

/// The byte offset of character index `k`, clamped to the end.
fn byte_offset_at(offsets: &Vec<usize>, k: usize) -> (r: usize)
    requires
        offsets@.len() > 0,
    ensures
        r == offsets@[if k < offsets@.len() { k as int } else { offsets@.len() - 1 }],
{
    if k < offsets.len() { offsets[k] } else { offsets[offsets.len() - 1] }
}

impl LocaleParser for YamlParser {
    fn parse(&self, source: &str) -> (r: Result<Vec<LocaleEntry>, ParseError>)
        ensures
            yaml_parse_result(source.spec_bytes(), source@, r),
    {
        let offsets = byte_offsets(source);
        let ghost text = source@;
        match load_yaml(source) {
            Some(e) => {
                let offset = byte_offset_at(&offsets, e.0);
                assert(offset == byte_at(text, e.0));
                return Err(ParseError::Syntax { offset, message: e.1 });
            },
            None => {},
        }
        let events = match scan_yaml(source) {
            Ok(es) => es,
            Err(e) => {
                let offset = byte_offset_at(&offsets, e.0);
                assert(offset == byte_at(text, e.0));
                return Err(ParseError::Syntax { offset, message: e.1 });
            },
        };
        let ghost es = event_views(events@);
        assert(yaml_events(text) == Ok::<Seq<(YamlEv, usize, usize)>, (usize, Seq<char>)>(es));
        let n = source.unicode_len();
        let mut i: usize = 0;
        while i < events.len()
            invariant
                es == event_views(events@),
                text == source@,
                yaml_load_error(text) is None,
                yaml_events(text) == Ok::<Seq<(YamlEv, usize, usize)>, (usize, Seq<char>)>(es),
                n == text.len(),
                offsets@.len() == text.len() + 1,
                forall|k: int| 0 <= k <= text.len() ==> offsets@[k] as int == vstd::utf8::encode_utf8(#[trigger] text.take(k)).len(),
                i <= events@.len(),
                forall|j: int| 0 <= j < i ==> good_point(source.spec_bytes(), text, (#[trigger] es[j]).1) && good_point(source.spec_bytes(), text, es[j].2),
            decreases events@.len() - i,
        {
            let ev = &events[i];
            assert(es[i as int] == event_view(*ev));
            if ev.start > n || ev.end > n || !is_placed(source, offsets[ev.start]) || !is_placed(source, offsets[ev.end]) {
                assert(!good_point(source.spec_bytes(), text, es[i as int].1) || !good_point(source.spec_bytes(), text, es[i as int].2));
                assert(!spans_placed(source.spec_bytes(), text, es));
                let bad = if ev.start > n { ev.start } else { ev.end };
                return Err(ParseError::Syntax { offset: byte_offset_at(&offsets, bad), message: String::from_str("event off a character boundary") });
            }
            i = i + 1;
        }
        assert(spans_placed(source.spec_bytes(), text, es));
        let ex = expand_events(&events);
        proof { lemma_expanded_placed(source.spec_bytes(), text, es); }
        Ok(entries_from_events(source, &ex))
    }
}

} // verus!
