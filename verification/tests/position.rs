use i18n_core::{LineIndex, Position};

#[test]
fn single_line() {
    let src = "hello";
    let idx = LineIndex::new(src);
    assert_eq!(idx.position(0), Position { line: 0, character: 0, offset: 0 });
    assert_eq!(idx.position(5), Position { line: 0, character: 5, offset: 5 });
}

#[test]
fn multi_line() {
    let src = "line0\nline1\nline2";
    let idx = LineIndex::new(src);
    assert_eq!(idx.position(6).line, 1);
    assert_eq!(idx.position(6).character, 0);
    assert_eq!(idx.position(12).line, 2);
}

#[test]
fn utf16_counting_for_surrogate_pair() {
    let src = "😀x";
    let idx = LineIndex::new(src);
    assert_eq!(idx.position(4).character, 2);
}

#[test]
fn offset_at_roundtrip() {
    let src = "hello\nworld\nfoo";
    let idx = LineIndex::new(src);
    for offset in 0..=src.len() {
        let pos = idx.position(offset);
        let roundtrip = idx.offset_at(pos.line, pos.character).unwrap();
        assert_eq!(roundtrip, offset, "roundtrip mismatch at {offset}");
    }
}

#[test]
fn offset_at_with_emoji() {
    let src = "a😀b";
    let idx = LineIndex::new(src);
    assert_eq!(idx.offset_at(0, 0), Some(0));
    assert_eq!(idx.offset_at(0, 1), Some(1));
    assert_eq!(idx.offset_at(0, 3), Some(5));
}

#[test]
fn position_clamps_past_the_end() {
    let src = "ab\ncd";
    let idx = LineIndex::new(src);
    assert_eq!(idx.position(99), Position { line: 1, character: 2, offset: 5 });
}

#[test]
fn offset_at_unknown_line_is_none() {
    let idx = LineIndex::new("one\ntwo");
    assert_eq!(idx.offset_at(2, 0), None);
    assert_eq!(idx.offset_at(0, 99), None);
}

#[test]
fn range_spans_both_offsets() {
    let idx = LineIndex::new("x\nyz");
    let r = idx.range(0, 4);
    assert_eq!(r.start, Position { line: 0, character: 0, offset: 0 });
    assert_eq!(r.end, Position { line: 1, character: 2, offset: 4 });
}

#[test]
fn offset_at_past_line_text_is_none() {
    let idx = LineIndex::new("ab\ncd");
    assert_eq!(idx.offset_at(5, 0), None);
    assert_eq!(idx.offset_at(0, 5), None);
    assert_eq!(idx.offset_at(0, 3), Some(3));
    assert_eq!(idx.offset_at(1, 2), Some(5));
    assert_eq!(idx.offset_at(1, 3), None);
    assert_eq!(LineIndex::new("a😀b").offset_at(0, 3), Some(5));
}
