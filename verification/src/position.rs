//! LSP-compatible positions and byte ranges.
use vstd::prelude::*;
use vstd::utf8::*;
use vstd::string::*;

verus! {

broadcast use vstd::seq::group_seq_axioms;

/// A location in a source file (LSP-compatible).
///
/// - `line` is 0-indexed
/// - `character` is 0-indexed UTF-16 code units
/// - `offset` is the byte offset into the source
#[derive(Clone, Copy, Debug, Default, PartialEq, Eq, Hash, Structural)]
pub struct Position {
    pub line: u32,
    pub character: u32,
    pub offset: usize,
}

#[derive(Clone, Copy, Debug, Default, PartialEq, Eq, Hash, Structural)]
pub struct Range {
    pub start: Position,
    pub end: Position,
}

/// Number of UTF-16 code units encoded by a run of UTF-8 bytes: every
/// leading byte of a four-byte sequence stands for a surrogate pair (2
/// units), every other leading byte for one unit, continuation bytes for none.
pub open spec fn utf16_units(bytes: Seq<u8>) -> nat
    decreases bytes.len(),
{
    if bytes.len() == 0 {
        0
    } else {
        utf16_units(bytes.drop_last()) + byte_units(bytes.last())
    }
}

pub open spec fn byte_units(b: u8) -> nat {
    if is_continuation_byte(b) {
        0
    } else if b >= 0xf0 {
        2
    } else {
        1
    }
}

/// `k` starts a line of `bytes`: the start of the text or right after a `\n`.
pub open spec fn is_line_start(bytes: Seq<u8>, k: int) -> bool {
    k == 0 || (0 < k <= bytes.len() && bytes[k - 1] == 10u8)
}

/// `starts` lists exactly the line starts of `bytes`, in increasing order.
pub open spec fn line_starts_of(bytes: Seq<u8>, starts: Seq<usize>) -> bool {
    &&& starts.len() >= 1
    &&& starts[0] == 0
    &&& forall|i: int, j: int| 0 <= i < j < starts.len() ==> starts[i] < starts[j]
    &&& forall|i: int| 0 <= i < starts.len() ==> is_line_start(bytes, #[trigger] starts[i] as int)
    &&& forall|k: int|
        #![trigger is_line_start(bytes, k)]
        is_line_start(bytes, k) ==> exists|i: int| 0 <= i < starts.len() && starts[i] == k
}

/// `l` is the line holding byte offset `o`: its start is the last line start `<= o`.
pub open spec fn is_line_of(starts: Seq<usize>, o: int, l: int) -> bool {
    0 <= l < starts.len() && starts[l] <= o && (l + 1 == starts.len() || o < starts[l + 1])
}

/// `q` is where a character's encoding starts, or the end of the text.
pub open spec fn at_char_start(bytes: Seq<u8>, q: int) -> bool {
    q == bytes.len() || (0 <= q < bytes.len() && !is_continuation_byte(bytes[q]))
}

/// End of line `l`: the next line's start, or the end of the text on the last line.
pub open spec fn line_end(bytes: Seq<u8>, starts: Seq<usize>, l: int) -> int {
    if l + 1 < starts.len() {
        starts[l + 1] as int
    } else {
        bytes.len() as int
    }
}

/// `p` is the position of byte offset `offset` in `bytes` whose line starts
/// are `starts`: its line holds the offset (clamped to the text length) and
/// its column counts the UTF-16 units from the start of that line.
pub open spec fn position_at(bytes: Seq<u8>, starts: Seq<usize>, offset: usize, p: Position) -> bool {
    &&& p.offset == (if offset < bytes.len() { offset as int } else { bytes.len() as int })
    &&& exists|l: int| #![trigger starts[l]]
        is_line_of(starts, p.offset as int, l)
        && p.line == l as u32
        && p.character == utf16_units(bytes.subrange(starts[l] as int, p.offset as int))
}

/// `p` is the position of byte offset `offset` in `bytes`.
pub open spec fn position_in(bytes: Seq<u8>, offset: usize, p: Position) -> bool {
    exists|starts: Seq<usize>| line_starts_of(bytes, starts) && #[trigger] position_at(bytes, starts, offset, p)
}

/// `r` spans byte offsets `start` to `end` of `bytes`.
pub open spec fn range_in(bytes: Seq<u8>, start: usize, end: usize, r: Range) -> bool {
    position_in(bytes, start, r.start) && position_in(bytes, end, r.end)
}

/// The UTF-16 length of line `l`'s text, its line break included.
pub open spec fn line_units(bytes: Seq<u8>, starts: Seq<usize>, l: int) -> int {
    utf16_units(bytes.subrange(starts[l] as int, line_end(bytes, starts, l))) as int
}

/// `r` answers `offset_at(line, character)` in `bytes` whose lines start at
/// `starts`: `None` out of bounds, for a line that does not exist or a
/// column past the line's text (line break included); else the first
/// character start on the line whose column reaches `character`, or the
/// end of the line when the column is the line's whole length.
pub open spec fn offset_at_in(bytes: Seq<u8>, starts: Seq<usize>, line: u32, character: u32, r: Option<usize>) -> bool {
    &&& r is None <==> (line as int >= starts.len() || line_units(bytes, starts, line as int) < character)
    &&& r matches Some(q) ==> {
        let ls = starts[line as int] as int;
        let le = line_end(bytes, starts, line as int);
        &&& ls <= q <= le
        &&& (q == le || (at_char_start(bytes, q as int)
            && utf16_units(bytes.subrange(ls, q as int)) >= character))
        &&& forall|p: int| ls <= p < q && at_char_start(bytes, p)
            ==> utf16_units(#[trigger] bytes.subrange(ls, p)) < character
    }
}

/// `r` is the byte offset of `(line, character)` in `bytes`.
pub open spec fn offset_in(bytes: Seq<u8>, line: u32, character: u32, r: Option<usize>) -> bool {
    exists|starts: Seq<usize>| line_starts_of(bytes, starts) && #[trigger] offset_at_in(bytes, starts, line, character, r)
}

/// Offset `o` lies within `bytes` on a character boundary.
pub open spec fn placed(bytes: Seq<u8>, o: usize) -> bool {
    o <= bytes.len() && is_char_boundary(bytes, o as int)
}

/// A run of bytes counts at most two UTF-16 units per byte.
pub proof fn lemma_utf16_units_le_len(b: Seq<u8>)
    ensures
        utf16_units(b) <= 2 * b.len(),
    decreases b.len(),
{
    if b.len() > 0 {
        lemma_utf16_units_le_len(b.drop_last());
    }
}

/// Whether `o` is a character boundary within `s`.
pub fn is_placed(s: &str, o: usize) -> (r: bool)
    ensures
        r == placed(s.spec_bytes(), o),
{
    let bytes = s.as_bytes();
    proof {
        encode_utf8_valid_utf8(s@);
        is_char_boundary_start_end_of_seq(bytes@);
    }
    if o > bytes.len() {
        return false;
    }
    if o == bytes.len() {
        return true;
    }
    proof {
        is_char_boundary_iff_not_is_continuation_byte(bytes@, o as int);
    }
    let b = bytes[o];
    !(0x80u8 <= b && b <= 0xbfu8)
}

pub proof fn lemma_utf16_units_split(b: Seq<u8>, i: int)
    requires
        0 <= i <= b.len(),
    ensures
        utf16_units(b) == utf16_units(b.subrange(0, i)) + utf16_units(b.subrange(i, b.len() as int)),
    decreases b.len(),
{
    if i == b.len() {
        assert(b.subrange(0, i) =~= b);
        assert(b.subrange(i, b.len() as int) =~= Seq::<u8>::empty());
    } else {
        lemma_utf16_units_split(b.drop_last(), i);
        assert(b.drop_last().subrange(0, i) =~= b.subrange(0, i));
        assert(b.subrange(i, b.len() as int).drop_last() =~= b.drop_last().subrange(i, b.drop_last().len() as int));
    }
}

pub proof fn lemma_units_step(b: Seq<u8>, lo: int, k: int)
    requires
        0 <= lo <= k < b.len(),
    ensures
        utf16_units(b.subrange(lo, k + 1)) == utf16_units(b.subrange(lo, k)) + byte_units(b[k]),
{
    assert(b.subrange(lo, k + 1).drop_last() =~= b.subrange(lo, k));
}

/// Maps byte offsets to (line, utf-16 character) positions for a source string.
pub struct LineIndex<'a> {
    source: &'a str,
    /// Byte offset of the start of each line (line 0 starts at 0).
    line_starts: Vec<usize>,
}

impl<'a> LineIndex<'a> {
    pub closed spec fn bytes(&self) -> Seq<u8> {
        self.source.spec_bytes()
    }

    pub closed spec fn starts(&self) -> Seq<usize> {
        self.line_starts@
    }

    pub closed spec fn text(&self) -> &'a str {
        self.source
    }

    /// Byte offset after clamping to the text length.
    pub open spec fn clamp(&self, offset: usize) -> int {
        if offset < self.bytes().len() { offset as int } else { self.bytes().len() as int }
    }

    /// Where `position` is defined: the clamped offset lies on a character
    /// boundary and its column fits a `u32`.
    pub open spec fn position_defined(&self, offset: usize) -> bool {
        &&& is_char_boundary(self.bytes(), self.clamp(offset))
        &&& forall|l: int| is_line_of(self.starts(), self.clamp(offset), l)
            ==> utf16_units(self.bytes().subrange(self.starts()[l] as int, self.clamp(offset))) <= u32::MAX
    }

    /// `p` is the position of byte offset `offset`: its line holds the
    /// clamped offset and its column counts the UTF-16 units from the line start.
    pub open spec fn is_position_of(&self, offset: usize, p: Position) -> bool {
        position_at(self.bytes(), self.starts(), offset, p)
    }

    /// `r` answers `offset_at(line, character)`: see [`offset_at_in`].
    pub open spec fn is_offset_at(&self, line: u32, character: u32, r: Option<usize>) -> bool {
        offset_at_in(self.bytes(), self.starts(), line, character, r)
    }

    /// What `is_offset_at` says holds of the text's bytes alone.
    pub proof fn lemma_offset_in(&self, line: u32, character: u32, r: Option<usize>)
        requires
            self.wf(),
            self.is_offset_at(line, character, r),
        ensures
            offset_in(self.bytes(), line, character, r),
    {
    }

    /// In a text of at most `u32::MAX / 2` bytes every column fits a `u32`,
    /// so a position is defined at every character boundary.
    pub proof fn lemma_position_defined(&self, offset: usize)
        requires
            self.wf(),
            2 * self.bytes().len() <= u32::MAX,
            placed(self.bytes(), offset),
        ensures
            self.position_defined(offset),
    {
        assert forall|l: int| is_line_of(self.starts(), self.clamp(offset), l) implies
            utf16_units(self.bytes().subrange(self.starts()[l] as int, self.clamp(offset))) <= u32::MAX by {
            lemma_utf16_units_le_len(self.bytes().subrange(self.starts()[l] as int, self.clamp(offset)));
        }
    }

    pub closed spec fn wf(&self) -> bool {
        &&& line_starts_of(self.bytes(), self.starts())
        &&& valid_utf8(self.bytes())
        &&& self.bytes().len() <= usize::MAX
    }

    pub fn new(source: &'a str) -> (r: Self)
        ensures
            r.wf(),
            r.text() == source,
            r.bytes() == source.spec_bytes(),
    {
        let bytes = source.as_bytes();
        proof {
            encode_utf8_valid_utf8(source@);
        }
        let mut line_starts: Vec<usize> = Vec::new();
        line_starts.push(0);
        let mut i: usize = 0;
        assert forall|k: int| #![trigger is_line_start(bytes@, k)]
            k <= 0 && is_line_start(bytes@, k) implies exists|a: int| 0 <= a < line_starts@.len() && line_starts@[a] == k by {
            assert(line_starts@[0] == k);
        }
        while i < bytes.len()
            invariant
                bytes@ == source.spec_bytes(),
                i <= bytes@.len(),
                line_starts@.len() >= 1,
                line_starts@[0] == 0,
                forall|a: int, b: int| 0 <= a < b < line_starts@.len() ==> line_starts@[a] < line_starts@[b],
                forall|a: int| 0 <= a < line_starts@.len() ==> line_starts@[a] <= i,
                forall|a: int| 0 <= a < line_starts@.len() ==> is_line_start(bytes@, #[trigger] line_starts@[a] as int),
                forall|k: int|
                    #![trigger is_line_start(bytes@, k)]
                    k <= i && is_line_start(bytes@, k) ==> exists|a: int| 0 <= a < line_starts@.len() && line_starts@[a] == k,
            decreases bytes@.len() - i,
        {
            let ghost old_starts = line_starts@;
            if bytes[i] == 10u8 {
                line_starts.push(i + 1);
                assert(line_starts@[line_starts@.len() - 1] == i + 1);
            }
            assert forall|k: int| #![trigger is_line_start(bytes@, k)]
                k <= i + 1 && is_line_start(bytes@, k) implies exists|a: int| 0 <= a < line_starts@.len() && line_starts@[a] == k by {
                if k <= i {
                    let a = choose|a: int| 0 <= a < old_starts.len() && old_starts[a] == k;
                    assert(line_starts@[a] == k);
                } else {
                    assert(line_starts@[line_starts@.len() - 1] == k);
                }
            }
            i = i + 1;
        }
        LineIndex { source, line_starts }
    }

    /// Position of byte offset `offset` (clamped to the text length).
    pub fn position(&self, offset: usize) -> (p: Position)
        requires
            self.wf(),
            self.position_defined(offset),
        ensures
            self.is_position_of(offset, p),
    {
        let bytes = self.source.as_bytes();
        let len = bytes.len();
        let o = if offset < len { offset } else { len };
        // Binary search for the first line start greater than `o`.
        let mut lo: usize = 0;
        let mut hi: usize = self.line_starts.len();
        while lo < hi
            invariant
                self.wf(),
                bytes@ == self.bytes(),
                o <= bytes@.len(),
                0 <= lo <= hi <= self.line_starts@.len(),
                forall|a: int| 0 <= a < lo ==> self.line_starts@[a] <= o,
                forall|a: int| hi <= a < self.line_starts@.len() ==> self.line_starts@[a] > o,
            decreases hi - lo,
        {
            let mid = lo + (hi - lo) / 2;
            if self.line_starts[mid] <= o {
                lo = mid + 1;
            } else {
                hi = mid;
            }
        }
        assert(lo >= 1) by {
            if lo == 0 {
                assert(self.line_starts@[0] > o);
            }
        }
        let line = lo - 1;
        let line_start = self.line_starts[line];
        assert(is_line_of(self.starts(), o as int, line as int));
        let mut character: u32 = 0;
        let mut k: usize = line_start;
        while k < o
            invariant
                self.wf(),
                bytes@ == self.bytes(),
                line_start <= k <= o <= bytes@.len(),
                character == utf16_units(bytes@.subrange(line_start as int, k as int)),
                utf16_units(bytes@.subrange(line_start as int, o as int)) <= u32::MAX,
            decreases o - k,
        {
            proof {
                lemma_units_step(bytes@, line_start as int, k as int);
                lemma_utf16_units_split(bytes@.subrange(line_start as int, o as int), k + 1 - line_start);
                assert(bytes@.subrange(line_start as int, o as int).subrange(0, k + 1 - line_start)
                    =~= bytes@.subrange(line_start as int, k + 1));
            }
            let b = bytes[k];
            if b >= 0xf0 {
                character = character + 2;
            } else if b < 0x80 || b >= 0xc0 {
                character = character + 1;
            }
            k = k + 1;
        }
        #[verifier::truncate]
        let line32 = line as u32;
        Position { line: line32, character, offset: o }
    }

    /// Positions of the two byte offsets `start` and `end`.
    pub fn range(&self, start: usize, end: usize) -> (r: Range)
        requires
            self.wf(),
            self.position_defined(start),
            self.position_defined(end),
        ensures
            self.is_position_of(start, r.start),
            self.is_position_of(end, r.end),
            range_in(self.bytes(), start, end, r),
    {
        let r = Range { start: self.position(start), end: self.position(end) };
        assert(position_at(self.bytes(), self.starts(), start, r.start));
        assert(position_at(self.bytes(), self.starts(), end, r.end));
        r
    }

    /// Inverse of [`Self::position`]: the byte offset of a (line, utf-16
    /// character) pair, or `None` when the position is out of bounds: the
    /// line does not exist or the column lies past the line's text.
    pub fn offset_at(&self, line: u32, character: u32) -> (r: Option<usize>)
        requires
            self.wf(),
        ensures
            self.is_offset_at(line, character, r),
    {
        let bytes = self.source.as_bytes();
        if line as usize >= self.line_starts.len() {
            return None;
        }
        let l = line as usize;
        let line_start = self.line_starts[l];
        let next_line_start = if l + 1 < self.line_starts.len() {
            self.line_starts[l + 1]
        } else {
            bytes.len()
        };
        proof {
            if l + 1 < self.line_starts@.len() {
                assert(is_line_start(self.bytes(), self.line_starts@[l + 1] as int));
            }
        }
        let mut utf16: u64 = 0;
        let mut i: usize = line_start;
        while i < next_line_start
            invariant
                self.wf(),
                bytes@ == self.bytes(),
                line_start <= i <= next_line_start <= bytes@.len(),
                (line as int) < self.starts().len(),
                line_start == self.starts()[line as int],
                next_line_start == line_end(self.bytes(), self.starts(), line as int),
                utf16 == utf16_units(bytes@.subrange(line_start as int, i as int)),
                utf16 <= character as u64 + 1,
                forall|p: int| line_start <= p < i && at_char_start(bytes@, p)
                    ==> utf16_units(#[trigger] bytes@.subrange(line_start as int, p)) < character,
            decreases next_line_start - i,
        {
            proof {
                lemma_units_step(bytes@, line_start as int, i as int);
            }
            let b = bytes[i];
            if b < 0x80 || b >= 0xc0 {
                if utf16 >= character as u64 {
                    proof {
                        let ls = line_start as int;
                        lemma_utf16_units_split(bytes@.subrange(ls, next_line_start as int), i - ls);
                        assert(bytes@.subrange(ls, next_line_start as int).subrange(0, i - ls) =~= bytes@.subrange(ls, i as int));
                    }
                    return Some(i);
                }
                if b >= 0xf0 {
                    utf16 = utf16 + 2;
                } else {
                    utf16 = utf16 + 1;
                }
            }
            i = i + 1;
        }
        if utf16 >= character as u64 {
            Some(next_line_start)
        } else {
            None
        }
    }
}

/// Law: `offset_at` inverts `position`. For every offset on a character
/// boundary whose line number fits a `u32`, looking up the (line, column)
/// that `position` reports gives back the clamped offset.
pub proof fn lemma_offset_at_inverts_position(
    idx: &LineIndex,
    offset: usize,
    p: Position,
    r: Option<usize>,
)
    requires
        idx.wf(),
        idx.starts().len() <= u32::MAX + 1,
        idx.position_defined(offset),
        idx.is_position_of(offset, p),
        idx.is_offset_at(p.line, p.character, r),
    ensures
        r == Some(idx.clamp(offset) as usize),
{
    reveal(LineIndex::wf);
    let b = idx.bytes();
    let o = idx.clamp(offset);
    let l = choose|l: int| #![trigger idx.starts()[l]]
        is_line_of(idx.starts(), p.offset as int, l)
        && p.line == l as u32
        && p.character == utf16_units(b.subrange(idx.starts()[l] as int, p.offset as int));
    assert(p.line as int == l);
    let ls = idx.starts()[l] as int;
    let le = line_end(b, idx.starts(), l);
    let q = r->0 as int;
    if o < b.len() {
        is_char_boundary_iff_not_is_continuation_byte(b, o);
    }
    assert(at_char_start(b, o));
    assert(o <= le);
    lemma_utf16_units_split(b.subrange(ls, le), o - ls);
    assert(b.subrange(ls, le).subrange(0, o - ls) =~= b.subrange(ls, o));
    assert(r is Some);
    if q < o {
        assert(q != le);
        lemma_utf16_units_split(b.subrange(ls, o), q - ls);
        assert(b.subrange(ls, o).subrange(0, q - ls) =~= b.subrange(ls, q));
        let rest = b.subrange(ls, o).subrange(q - ls, o - ls);
        lemma_utf16_units_split(rest, 1);
        assert(rest.subrange(0, 1).drop_last() =~= Seq::<u8>::empty());
        assert(rest.subrange(0, 1).last() == b[q]);
    } else if q > o {
        assert(utf16_units(b.subrange(ls, o)) < p.character);
    }
}

} // verus!
