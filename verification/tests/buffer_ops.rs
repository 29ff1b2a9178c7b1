use gap_buffer::ChunkSummary;
use gap_buffer::GapBuffer;

fn content<const N: usize>(buf: &GapBuffer<N>) -> Vec<u8> {
    let mut v = buf.left_chunk().to_vec();
    v.extend_from_slice(buf.right_chunk());
    v
}

#[test]
fn remove_up_to_0() {
    let mut buffer = GapBuffer::<10>::from("aaabbb".as_bytes());
    buffer.move_gap(2, 0);
    buffer.remove_up_to(4, 0);
    assert_eq!(b"bb".to_vec(), content(&buffer));
}

#[test]
fn gap_motion() {
    let mut buffer = GapBuffer::<10>::from("aaaabbbb".as_bytes());

    buffer.move_gap(2, 0);
    assert_eq!("aa".as_bytes(), buffer.left_chunk());
    assert_eq!("aabbbb".as_bytes(), buffer.right_chunk());

    buffer.move_gap(6, 0);
    assert_eq!("aaaabb".as_bytes(), buffer.left_chunk());
    assert_eq!("bb".as_bytes(), buffer.right_chunk());
}

#[test]
fn append_str_shifts_right_segment() {
    let mut buffer = GapBuffer::<10>::from("aabb".as_bytes());
    assert_eq!("aa".as_bytes(), buffer.left_chunk());
    assert_eq!("bb".as_bytes(), buffer.right_chunk());

    buffer.append_str("cc".as_bytes());
    assert_eq!("aa".as_bytes(), buffer.left_chunk());
    assert_eq!("bbcc".as_bytes(), buffer.right_chunk());
}

#[test]
fn append_two_strings() {
    let mut buffer = GapBuffer::<10>::from("aabb".as_bytes());

    buffer.append_two("cc".as_bytes(), "dd".as_bytes());
    assert_eq!("aa".as_bytes(), buffer.left_chunk());
    assert_eq!("bbccdd".as_bytes(), buffer.right_chunk());
}

#[test]
fn prepend_string() {
    let mut buf = GapBuffer::<15>::from("World!".as_bytes());
    buf.prepend("Hello, ".as_bytes(), 0);
    assert_eq!(b"Hello, World!".to_vec(), content(&buf));
}

#[test]
fn prepend_two_strings() {
    let mut buf = GapBuffer::<15>::from("!".as_bytes());
    buf.prepend_two("Hello, ".as_bytes(), "World".as_bytes(), 0);
    assert_eq!(b"Hello, World!".to_vec(), content(&buf));
}

#[test]
fn prepend_counts_line_breaks() {
    let mut buf = GapBuffer::<15>::from("tail".as_bytes());
    buf.prepend("a\nb\n".as_bytes(), 2);
    assert_eq!(b"a\nb\ntail".to_vec(), content(&buf));
    let summary = buf.summarize();
    assert_eq!(8, summary.bytes);
    assert_eq!(2, summary.line_breaks);
}

#[test]
fn add_from_right_transfers_prefix() {
    let mut left = GapBuffer::<10>::from("Hello".as_bytes());
    let mut right = GapBuffer::<10>::from(", World!".as_bytes());

    let moved = left.add_from_right(2, &mut right);
    assert_eq!(b"Hello, ".to_vec(), content(&left));
    assert_eq!(b"World!".to_vec(), content(&right));
    assert_eq!(2, moved.bytes);
    assert_eq!(0, moved.line_breaks);
}

#[test]
fn move_to_right_transfers_suffix() {
    let mut left = GapBuffer::<10>::from("Hello, ".as_bytes());
    let mut right = GapBuffer::<10>::from("World!".as_bytes());

    let moved = left.move_to_right(2, &mut right);
    assert_eq!(b"Hello".to_vec(), content(&left));
    assert_eq!(b", World!".to_vec(), content(&right));
    assert_eq!(2, moved.bytes);
}

#[test]
fn append_other_merges_and_empties() {
    let mut left = GapBuffer::<15>::from("Hello".as_bytes());
    let mut right = GapBuffer::<15>::from(", World!".as_bytes());

    left.append_other(0, &mut right);
    assert_eq!(b"Hello, World!".to_vec(), content(&left));
    assert_eq!(b"".to_vec(), content(&right));
    assert!(right.is_empty());
}

#[test]
fn balance_leaves_merges_small_pair() {
    let mut left = GapBuffer::<10>::from("abc".as_bytes());
    let mut right = GapBuffer::<10>::from("de".as_bytes());
    let mut left_summary = left.summarize();
    let mut right_summary = right.summarize();

    GapBuffer::<10>::balance_leaves(
        &mut left,
        &mut left_summary,
        &mut right,
        &mut right_summary,
    );
    assert_eq!(b"abcde".to_vec(), content(&left));
    assert_eq!(b"".to_vec(), content(&right));
    assert_eq!(left.summarize(), left_summary);
    assert_eq!(ChunkSummary { bytes: 0, line_breaks: 0 }, right_summary);
}

#[test]
fn balance_leaves_refills_left() {
    // 13 + 15 bytes cannot merge into one 16-byte leaf, and the left one
    // is under the rebalance minimum of 4 bytes.
    let mut left = GapBuffer::<16>::from("ab".as_bytes());
    let mut right = GapBuffer::<16>::from("cdefghijklmnopq".as_bytes());
    let mut left_summary = left.summarize();
    let mut right_summary = right.summarize();

    GapBuffer::<16>::balance_leaves(
        &mut left,
        &mut left_summary,
        &mut right,
        &mut right_summary,
    );
    assert_eq!(b"abcd".to_vec(), content(&left));
    assert_eq!(b"efghijklmnopq".to_vec(), content(&right));
    assert_eq!(left.summarize(), left_summary);
    assert_eq!(right.summarize(), right_summary);
    assert!(content(&left).len() >= GapBuffer::<16>::chunk_min());
    assert!(content(&right).len() >= GapBuffer::<16>::chunk_min());
}

#[test]
fn truncate_from_left_segment() {
    let mut buffer = GapBuffer::<15>::from("Hello\nWorld!".as_bytes());
    assert_eq!("Hello\n".as_bytes(), buffer.left_chunk());

    buffer.truncate_from(5, 1);
    assert_eq!(b"Hello".to_vec(), content(&buffer));
}

#[test]
fn truncate_from_with_summary_returns_new_summary() {
    let mut buffer = GapBuffer::<15>::from("Hello\nWorld!".as_bytes());
    let summary = buffer.summarize();

    let new_summary = buffer.truncate_from_with_summary(8, summary);
    assert_eq!(b"Hello\nWo".to_vec(), content(&buffer));
    assert_eq!(8, new_summary.bytes);
    assert_eq!(1, new_summary.line_breaks);
    assert_eq!(buffer.summarize(), new_summary);
}

#[test]
fn insert_in_the_middle() {
    let mut buffer = GapBuffer::<15>::from("foobar".as_bytes());
    let summary = buffer.summarize();

    let new_summary = buffer.insert(3, "-\n-".as_bytes(), summary);
    assert_eq!(b"foo-\n-bar".to_vec(), content(&buffer));
    assert_eq!(9, new_summary.bytes);
    assert_eq!(1, new_summary.line_breaks);
    assert_eq!(buffer.summarize(), new_summary);
}

#[test]
fn remove_up_to_with_line_breaks() {
    let mut buffer = GapBuffer::<10>::from("foo\nbar".as_bytes());
    buffer.remove_up_to(4, 1);
    assert_eq!(b"bar".to_vec(), content(&buffer));
    assert_eq!(0, buffer.summarize().line_breaks);
}

#[test]
fn getters_report_segment_lengths() {
    let mut buffer = GapBuffer::<10>::from("aaaabbbb".as_bytes());
    assert_eq!(8, buffer.len());
    assert!(!buffer.is_empty());
    assert_eq!(4, buffer.len_left());
    assert_eq!(4, buffer.len_right());
    assert_eq!(2, buffer.len_gap());

    buffer.move_gap(2, 0);
    assert_eq!(2, buffer.len_left());
    assert_eq!(6, buffer.len_right());
    assert_eq!(8, buffer.len());

    let empty = GapBuffer::<10>::from("".as_bytes());
    assert!(empty.is_empty());
    assert_eq!(0, empty.len());
    assert_eq!(10, empty.len_gap());
}

#[test]
fn char_boundaries_of_multibyte_text() {
    let buffer = GapBuffer::<10>::from("a🌎b".as_bytes());
    assert!(buffer.is_char_boundary(0));
    assert!(buffer.is_char_boundary(1));
    assert!(!buffer.is_char_boundary(2));
    assert!(!buffer.is_char_boundary(3));
    assert!(!buffer.is_char_boundary(4));
    assert!(buffer.is_char_boundary(5));
    assert!(buffer.is_char_boundary(6));
}

#[test]
fn last_chunk_and_trailing_newline() {
    let mut buffer = GapBuffer::<10>::from("ab\n".as_bytes());
    assert!(buffer.has_trailing_newline());
    assert_eq!(buffer.right_chunk(), buffer.last_chunk());

    buffer.move_gap(3, 1);
    // The right segment is now empty, so the left one is the last chunk.
    assert_eq!(buffer.left_chunk(), buffer.last_chunk());
    assert!(buffer.has_trailing_newline());

    let buffer = GapBuffer::<10>::from("ab\nc".as_bytes());
    assert!(!buffer.has_trailing_newline());
}

#[test]
fn slice_views_match_the_buffer() {
    let buffer = GapBuffer::<10>::from("foo\nbar".as_bytes());
    let slice = buffer.as_slice();
    assert_eq!(buffer.left_chunk(), slice.left_chunk());
    assert_eq!(buffer.right_chunk(), slice.right_chunk());
    assert_eq!(buffer.len(), slice.len());
    assert_eq!(buffer.len_left(), slice.len_left());
    assert_eq!(buffer.len_right(), slice.len_right());
    assert_eq!(buffer.summarize(), slice.summarize());

    let copy = GapBuffer::<10>::from_slice(slice);
    assert_eq!(content(&buffer), content(&copy));
    assert_eq!(buffer.summarize(), copy.summarize());
}

#[test]
fn from_chunks_packs_both_segments() {
    let buffer = GapBuffer::<10>::from_chunks(&[
        "a".as_bytes(),
        "abb".as_bytes(),
        "cc".as_bytes(),
        "dd".as_bytes(),
    ]);
    assert_eq!("aabb".as_bytes(), buffer.left_chunk());
    assert_eq!("ccdd".as_bytes(), buffer.right_chunk());
}

#[test]
fn underfilled_threshold() {
    assert_eq!(2, GapBuffer::<10>::min_bytes());
    assert_eq!(0, GapBuffer::<10>::chunk_min());
    assert_eq!(4, GapBuffer::<16>::min_bytes());
    assert_eq!(1, GapBuffer::<16>::chunk_min());
    assert!(GapBuffer::<10>::is_underfilled(&ChunkSummary { bytes: 1, line_breaks: 0 }));
    assert!(!GapBuffer::<10>::is_underfilled(&ChunkSummary { bytes: 2, line_breaks: 0 }));
}

#[test]
fn move_gap_to_its_own_position_changes_nothing() {
    let mut buffer = GapBuffer::<10>::from("aaaabbbb".as_bytes());
    let left_before = buffer.left_chunk().to_vec();
    let right_before = buffer.right_chunk().to_vec();

    buffer.move_gap(buffer.len_left(), 0);
    assert_eq!(left_before, buffer.left_chunk().to_vec());
    assert_eq!(right_before, buffer.right_chunk().to_vec());
}

#[test]
fn append_then_remove_previous_content() {
    let mut buffer = GapBuffer::<10>::from("ab".as_bytes());
    buffer.move_gap(2, 0);
    assert_eq!(0, buffer.len_right());

    buffer.append_str("cd".as_bytes());
    buffer.remove_up_to(2, 0);
    assert_eq!(b"cd".to_vec(), content(&buffer));
}
