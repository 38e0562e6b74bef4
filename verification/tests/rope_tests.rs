use rope_index::chunking::is_char_boundary;
use rope_index::metrics::Metrics;
use rope_index::rope::{Rope, RopeError};

fn build_ok(buffer: &[u8], gap_start: usize, gap_end: usize) -> Rope {
    Rope::build(buffer, gap_start, gap_end).expect("valid gap range")
}

#[test]
fn gap_accounting_round_trip() {
    // "ab" before the gap, two reserved gap bytes, "ef" after it.
    let rope = build_ok(b"abcdef", 2, 4);
    let total = rope.total();
    assert_eq!(total, Metrics::new(6, 4));
}

#[test]
fn multi_byte_round_trip() {
    // "héllo": six encoded bytes, five characters, no gap.
    let rope = build_ok("h\u{e9}llo".as_bytes(), 0, 0);
    let total = rope.total();
    assert_eq!(total, Metrics::new(6, 5));
}

#[test]
fn multi_byte_chunks_align_to_characters() {
    // "héllo" yields chunks {0,0} (empty gap), {5,4} ("héll"), {1,1} ("o"):
    // the cut after five bytes lands on the boundary before 'o'.
    let rope = build_ok("h\u{e9}llo".as_bytes(), 0, 0);
    let (chunk, residual) = rope.search(4).expect("in range");
    assert_eq!(chunk, Metrics::new(5, 4));
    assert_eq!(residual, 4);
    let (chunk, residual) = rope.search(6).expect("in range");
    assert_eq!(chunk, Metrics::new(1, 1));
    assert_eq!(residual, 1);
}

#[test]
fn chunk_extends_past_target_to_boundary() {
    // Five 'é' (ten bytes): the five-byte target falls inside the third
    // character, so the first chunk extends to six bytes / three chars.
    let rope = build_ok("\u{e9}\u{e9}\u{e9}\u{e9}\u{e9}".as_bytes(), 0, 0);
    assert_eq!(rope.total(), Metrics::new(10, 5));
    let (chunk, residual) = rope.search(6).expect("in range");
    assert_eq!(chunk, Metrics::new(6, 3));
    assert_eq!(residual, 6);
    let (chunk, residual) = rope.search(7).expect("in range");
    assert_eq!(chunk, Metrics::new(4, 2));
    assert_eq!(residual, 1);
}

#[test]
fn empty_buffer_no_gap() {
    let rope = build_ok(b"", 0, 0);
    assert_eq!(rope.total(), Metrics::new(0, 0));
    let (chunk, residual) = rope.search(0).expect("offset zero is valid");
    assert_eq!(chunk, Metrics::new(0, 0));
    assert_eq!(residual, 0);
    assert_eq!(rope.search(1), Err(RopeError::OutOfRange));
}

#[test]
fn invalid_gap_ranges_are_rejected() {
    assert!(matches!(Rope::build(b"abc", 2, 1), Err(RopeError::InvalidArgument)));
    assert!(matches!(Rope::build(b"abc", 1, 4), Err(RopeError::InvalidArgument)));
    assert!(matches!(Rope::build(b"abc", 4, 4), Err(RopeError::InvalidArgument)));
    assert!(Rope::build(b"abc", 3, 3).is_ok());
}

#[test]
fn search_routes_through_gap() {
    // Chunks are {2,2} "ab", {2,0} gap, {2,2} "ef".
    let rope = build_ok(b"abcdef", 2, 4);
    let (chunk, residual) = rope.search(0).expect("in range");
    assert_eq!(chunk, Metrics::new(2, 2));
    assert_eq!(residual, 0);
    // An offset on a chunk's upper edge resolves to that chunk.
    let (chunk, residual) = rope.search(2).expect("in range");
    assert_eq!(chunk, Metrics::new(2, 2));
    assert_eq!(residual, 2);
    let (chunk, residual) = rope.search(3).expect("in range");
    assert_eq!(chunk, Metrics::new(2, 0));
    assert_eq!(residual, 1);
    // total_bytes resolves to the last chunk's end.
    let (chunk, residual) = rope.search(6).expect("in range");
    assert_eq!(chunk, Metrics::new(2, 2));
    assert_eq!(residual, 2);
}

#[test]
fn out_of_range_rejection_leaves_tree_unmodified() {
    let mut rope = build_ok(b"abcdef", 2, 4);
    let total = rope.total();
    assert_eq!(rope.search(total.bytes + 1), Err(RopeError::OutOfRange));
    assert_eq!(rope.insert(total.bytes + 1, Metrics::new(1, 1)), Err(RopeError::OutOfRange));
    assert_eq!(rope.total(), total);
    let (chunk, residual) = rope.search(3).expect("in range");
    assert_eq!(chunk, Metrics::new(2, 0));
    assert_eq!(residual, 1);
}

#[test]
fn insert_increases_total_exactly() {
    let mut rope = build_ok(b"abcdef", 2, 4);
    rope.insert(3, Metrics::new(2, 1)).expect("in range");
    assert_eq!(rope.total(), Metrics::new(8, 5));
    // The gap chunk (covering offset 3) grew in place.
    let (chunk, residual) = rope.search(3).expect("in range");
    assert_eq!(chunk, Metrics::new(4, 1));
    assert_eq!(residual, 1);
    // Neighbouring chunks are untouched.
    let (chunk, _) = rope.search(0).expect("in range");
    assert_eq!(chunk, Metrics::new(2, 2));
    let (chunk, residual) = rope.search(8).expect("in range");
    assert_eq!(chunk, Metrics::new(2, 2));
    assert_eq!(residual, 2);
}

#[test]
fn insert_at_zero_grows_first_chunk() {
    let mut rope = build_ok(b"abcdef", 2, 4);
    rope.insert(0, Metrics::new(3, 3)).expect("in range");
    assert_eq!(rope.total(), Metrics::new(9, 7));
    let (chunk, residual) = rope.search(0).expect("in range");
    assert_eq!(chunk, Metrics::new(5, 5));
    assert_eq!(residual, 0);
}

#[test]
fn insert_on_chunk_edge_grows_that_chunk() {
    // Offset 2 is the upper edge of the "ab" chunk: the growth lands there,
    // not in the gap chunk that starts at the same offset.
    let mut rope = build_ok(b"abcdef", 2, 4);
    rope.insert(2, Metrics::new(1, 1)).expect("in range");
    assert_eq!(rope.total(), Metrics::new(7, 5));
    let (chunk, residual) = rope.search(0).expect("in range");
    assert_eq!(chunk, Metrics::new(3, 3));
    assert_eq!(residual, 0);
    let (chunk, residual) = rope.search(4).expect("in range");
    assert_eq!(chunk, Metrics::new(2, 0));
    assert_eq!(residual, 1);
}

#[test]
fn overflow_is_reported_and_tree_unchanged() {
    let mut rope = build_ok(b"ab", 0, 0);
    let total = rope.total();
    assert_eq!(rope.insert(0, Metrics::new(usize::MAX, 0)), Err(RopeError::Overflow));
    assert_eq!(rope.insert(0, Metrics::new(0, usize::MAX)), Err(RopeError::Overflow));
    assert_eq!(rope.total(), total);
}

#[test]
fn large_build_and_insert_sequence() {
    // 50 'a' bytes, a 10-byte gap, then 40 'b' bytes: 19 chunks over
    // several tree layers.
    let mut buffer = Vec::new();
    buffer.extend(std::iter::repeat(b'a').take(50));
    buffer.extend(std::iter::repeat(b'.').take(10));
    buffer.extend(std::iter::repeat(b'b').take(40));
    let mut rope = build_ok(&buffer, 50, 60);
    assert_eq!(rope.total(), Metrics::new(100, 90));
    // Inside the gap chunk.
    let (chunk, residual) = rope.search(53).expect("in range");
    assert_eq!(chunk, Metrics::new(10, 0));
    assert_eq!(residual, 3);
    // Every pre-gap chunk is a five-byte run.
    let (chunk, residual) = rope.search(17).expect("in range");
    assert_eq!(chunk, Metrics::new(5, 5));
    assert_eq!(residual, 2);
    // A run of valid inserts keeps totals exact.
    for k in 0..10 {
        rope.insert(k * 7, Metrics::new(1, 1)).expect("in range");
    }
    assert_eq!(rope.total(), Metrics::new(110, 100));
    assert_eq!(rope.search(111), Err(RopeError::OutOfRange));
    assert!(rope.search(110).is_ok());
}

#[test]
fn metric_algebra() {
    let a = Metrics::new(2, 1);
    let b = Metrics::new(3, 4);
    assert_eq!(a.combine(b), Metrics::new(5, 5));
    assert_eq!(b.combine(a), Metrics::new(5, 5));
    assert_eq!(a.combine(Metrics::zero()), a);
    assert_eq!(Metrics::zero().combine(a), a);
}

#[test]
fn char_boundary_classification() {
    assert!(is_char_boundary(&0x00));
    assert!(is_char_boundary(&b'a'));
    assert!(is_char_boundary(&0x7F));
    assert!(!is_char_boundary(&0x80));
    assert!(!is_char_boundary(&0xBF));
    assert!(is_char_boundary(&0xC0));
    assert!(is_char_boundary(&0xC3));
    assert!(is_char_boundary(&0xF0));
}
