use gap_buffer::adjust_split_point;
use gap_buffer::count_line_breaks;
use gap_buffer::last_byte_is_newline;
use gap_buffer::split_adjusted;
use gap_buffer::ChunkSummary;
use gap_buffer::GapBuffer;

fn content<const N: usize>(buf: &GapBuffer<N>) -> Vec<u8> {
    let mut v = buf.left_chunk().to_vec();
    v.extend_from_slice(buf.right_chunk());
    v
}

#[test]
fn summary_from_str_counts_exactly() {
    let summary = ChunkSummary::from_str("a\nb\r\nc".as_bytes());
    assert_eq!(6, summary.bytes);
    assert_eq!(2, summary.line_breaks);

    let empty = ChunkSummary::from_str("".as_bytes());
    assert_eq!(ChunkSummary::empty(), empty);
}

#[test]
fn summary_addition_and_subtraction() {
    let x = ChunkSummary { bytes: 7, line_breaks: 2 };
    let y = ChunkSummary { bytes: 3, line_breaks: 1 };
    let sum = x.add(y);
    assert_eq!(ChunkSummary { bytes: 10, line_breaks: 3 }, sum);
    assert_eq!(sum, y.add(x));
    assert_eq!(x, sum.sub(y));
    assert_eq!(x, x.sub(y).add(y));
}

#[test]
fn summarize_counts_both_segments() {
    let mut buffer = GapBuffer::<10>::from("foo\nbar\r\n".as_bytes());
    let summary = buffer.summarize();
    assert_eq!(9, summary.bytes);
    assert_eq!(2, summary.line_breaks);

    // Moving the gap never changes the summary.
    buffer.move_gap(1, 2);
    assert_eq!(summary, buffer.summarize());
    buffer.move_gap(9, 2);
    assert_eq!(summary, buffer.summarize());
}

#[test]
fn summarize_range_scans_or_subtracts() {
    let buffer = GapBuffer::<10>::from("foo\nbar\r\n".as_bytes());
    let summary = buffer.summarize();
    assert_eq!(summary, buffer.summarize_range(0, buffer.len(), summary));

    let s = buffer.summarize_range(0, 4, summary);
    assert_eq!(4, s.bytes);
    assert_eq!(1, s.line_breaks);

    let s = buffer.summarize_range(2, buffer.len(), summary);
    assert_eq!(7, s.bytes);
    assert_eq!(2, s.line_breaks);

    let s = buffer.summarize_range(4, 4, summary);
    assert_eq!(0, s.bytes);
    assert_eq!(0, s.line_breaks);
}

#[test]
fn replace_non_overflowing_in_place() {
    let mut buffer = GapBuffer::<10>::from("foo\nbar".as_bytes());
    let summary = buffer.summarize();
    let new_summary = buffer.replace_non_overflowing(4, 7, "baz\r\n".as_bytes(), summary);
    assert_eq!(b"foo\nbaz\r\n".to_vec(), content(&buffer));
    assert_eq!(9, new_summary.bytes);
    assert_eq!(2, new_summary.line_breaks);
    assert_eq!(buffer.summarize(), new_summary);
}

#[test]
fn overflowing_replace() {
    let mut buffer = GapBuffer::<10>::from("foo\nbar".as_bytes());
    let summary = buffer.summarize();

    let (new_summary, extras) =
        buffer.replace_overflowing(3, 4, "foo\nbar\r\nbaz".as_bytes(), summary);

    assert_eq!(b"foo".to_vec(), content(&buffer));
    assert_eq!(buffer.summarize(), new_summary);

    let mut extras = extras.into_iter();
    assert_eq!(b"foo\nbar\r\nb".to_vec(), content(&extras.next().unwrap()));
    assert_eq!(b"azbar".to_vec(), content(&extras.next().unwrap()));
    assert!(extras.next().is_none());
}

#[test]
fn overflowing_replace_preserves_text() {
    let mut buffer = GapBuffer::<8>::from("aa🌎bb".as_bytes());
    let summary = buffer.summarize();
    let replacement = "xx\nyyzz123".as_bytes();

    let (new_summary, extras) = buffer.replace_overflowing(2, 6, replacement, summary);
    assert_eq!(buffer.summarize(), new_summary);

    let mut rebuilt = content(&buffer);
    for extra in &extras {
        assert!(content(extra).len() >= GapBuffer::<8>::chunk_min());
        assert!(content(extra).len() <= 8);
        rebuilt.extend_from_slice(&content(extra));
    }
    assert_eq!(b"aaxx\nyyzz123bb".to_vec(), rebuilt);
}

#[test]
fn replace_fits_in_place() {
    let mut buffer = GapBuffer::<10>::from("foo\nbar".as_bytes());
    let mut summary = buffer.summarize();
    let extras = buffer.replace(&mut summary, 0, 4, "za\n".as_bytes(), false);
    assert!(extras.is_none());
    assert_eq!(b"za\nbar".to_vec(), content(&buffer));
    assert_eq!(buffer.summarize(), summary);
}

#[test]
fn replace_insert_when_range_is_empty() {
    let mut buffer = GapBuffer::<10>::from("fobar".as_bytes());
    let mut summary = buffer.summarize();
    let extras = buffer.replace(&mut summary, 2, 2, "o".as_bytes(), false);
    assert!(extras.is_none());
    assert_eq!(b"foobar".to_vec(), content(&buffer));
    assert_eq!(buffer.summarize(), summary);
}

#[test]
fn replace_returns_overflow_leaves() {
    let mut buffer = GapBuffer::<10>::from("foo\nbar".as_bytes());
    let mut summary = buffer.summarize();
    let extras = buffer.replace(&mut summary, 3, 4, "foo\nbar\r\nbaz".as_bytes(), false);
    let extras = extras.unwrap();

    let mut rebuilt = content(&buffer);
    for extra in &extras {
        rebuilt.extend_from_slice(&content(extra));
    }
    assert_eq!(b"foofoo\nbar\r\nbazbar".to_vec(), rebuilt);
    assert_eq!(buffer.summarize(), summary);
}

#[test]
fn count_line_breaks_counts_newlines_only() {
    assert_eq!(0, count_line_breaks("".as_bytes()));
    assert_eq!(0, count_line_breaks("a\rb".as_bytes()));
    assert_eq!(1, count_line_breaks("a\r\nb".as_bytes()));
    assert_eq!(3, count_line_breaks("\n\nx\n".as_bytes()));
}

#[test]
fn last_byte_is_newline_checks_last_byte() {
    assert!(!last_byte_is_newline("".as_bytes()));
    assert!(!last_byte_is_newline("a\nb".as_bytes()));
    assert!(!last_byte_is_newline("a\n\r".as_bytes()));
    assert!(last_byte_is_newline("a\r\n".as_bytes()));
}

#[test]
fn adjust_split_point_moves_to_boundaries() {
    let s = "a🌎b".as_bytes();
    assert_eq!(1, adjust_split_point::<false>(s, 3));
    assert_eq!(5, adjust_split_point::<true>(s, 3));
    assert_eq!(5, adjust_split_point::<false>(s, 5));
    assert_eq!(5, adjust_split_point::<true>(s, 5));
    assert_eq!(6, adjust_split_point::<false>(s, 6));
}

#[test]
fn split_adjusted_splits_at_boundaries() {
    let s = "a🌎b".as_bytes();
    let (front, back) = split_adjusted::<false>(s, 2);
    assert_eq!("a".as_bytes(), front);
    assert_eq!("🌎b".as_bytes(), back);

    let (front, back) = split_adjusted::<true>(s, 2);
    assert_eq!("a🌎".as_bytes(), front);
    assert_eq!("b".as_bytes(), back);
}

#[test]
fn replace_with_small_chunks_flag() {
    let mut buffer = GapBuffer::<10>::from("foo\nbar".as_bytes());
    let mut summary = buffer.summarize();
    let extras = buffer.replace(&mut summary, 3, 4, "foo\nbar\r\nbaz".as_bytes(), true);
    let extras = extras.unwrap();
    assert!(!extras.is_empty());

    let mut rebuilt = content(&buffer);
    for extra in &extras {
        rebuilt.extend_from_slice(&content(extra));
    }
    assert_eq!(b"foofoo\nbar\r\nbazbar".to_vec(), rebuilt);
    assert_eq!(buffer.summarize(), summary);
}

#[test]
fn default_buffer_is_empty() {
    let buffer: GapBuffer<10> = Default::default();
    assert!(buffer.is_empty());
    assert_eq!(0, buffer.summarize().bytes);
    assert_eq!(b"".to_vec(), content(&buffer));
}

#[test]
fn append_fills_the_gap_completely() {
    let mut buffer = GapBuffer::<10>::from("aaaabbbb".as_bytes());
    buffer.append_str("cc".as_bytes());
    assert_eq!(0, buffer.len_gap());
    assert_eq!(10, buffer.len());
    assert_eq!(b"aaaabbbbcc".to_vec(), content(&buffer));
}
