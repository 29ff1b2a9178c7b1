use gap_buffer::segmenter::Resegmenter;
use gap_buffer::GapBuffer;

fn content<const N: usize>(buf: &GapBuffer<N>) -> Vec<u8> {
    let mut v = buf.left_chunk().to_vec();
    v.extend_from_slice(buf.right_chunk());
    v
}

#[test]
fn segmenter_0() {
    let chunk = "Hello Earth 🌎!";
    let mut segmenter = GapBuffer::<4>::segmenter(chunk.as_bytes());

    assert_eq!("Hell".as_bytes(), segmenter.next().unwrap());
    assert_eq!("o Ea".as_bytes(), segmenter.next().unwrap());
    assert_eq!("rth ".as_bytes(), segmenter.next().unwrap());
    assert_eq!("🌎".as_bytes(), segmenter.next().unwrap());
    assert_eq!("!".as_bytes(), segmenter.next().unwrap());
    assert_eq!(None, segmenter.next());
}

#[test]
fn resegmenter_0() {
    let segments = vec!["aaaa".as_bytes(), "b".as_bytes()];
    let mut resegmenter = Resegmenter::<4>::new(segments);

    assert_eq!(b"aaaa".to_vec(), content(&resegmenter.next().unwrap()));
    assert_eq!(b"b".to_vec(), content(&resegmenter.next().unwrap()));
    assert!(resegmenter.next().is_none());
}

#[test]
fn resegmenter_1() {
    let segments = vec!["a".as_bytes(), "a".as_bytes(), "bcdefgh".as_bytes()];
    let mut resegmenter = Resegmenter::<4>::new(segments);

    assert_eq!(b"aabc".to_vec(), content(&resegmenter.next().unwrap()));
    assert_eq!(b"defg".to_vec(), content(&resegmenter.next().unwrap()));
    assert_eq!(b"h".to_vec(), content(&resegmenter.next().unwrap()));
    assert!(resegmenter.next().is_none());
}

#[test]
fn resegmenter_2() {
    let segments = vec!["a".as_bytes(), "abcdefgh".as_bytes(), "b".as_bytes()];
    let mut resegmenter = Resegmenter::<4>::new(segments);

    assert_eq!(b"aabc".to_vec(), content(&resegmenter.next().unwrap()));
    assert_eq!(b"defg".to_vec(), content(&resegmenter.next().unwrap()));
    assert_eq!(b"hb".to_vec(), content(&resegmenter.next().unwrap()));
    assert!(resegmenter.next().is_none());
}

#[test]
fn resegmenter_3() {
    let segments = vec!["a".as_bytes(), "b".as_bytes()];
    let mut resegmenter = Resegmenter::<4>::new(segments);

    assert_eq!(b"ab".to_vec(), content(&resegmenter.next().unwrap()));
    assert!(resegmenter.next().is_none());
}

#[test]
fn resegmenter_4() {
    let segments = vec!["a".as_bytes(), "b".as_bytes(), "".as_bytes()];
    let mut resegmenter = Resegmenter::<4>::new(segments);

    assert_eq!(b"ab".to_vec(), content(&resegmenter.next().unwrap()));
    assert!(resegmenter.next().is_none());
}

#[test]
fn resegmenter_5() {
    let segments = vec!["こんい".as_bytes()];
    let mut resegmenter = Resegmenter::<4>::new(segments);

    assert_eq!("こ".as_bytes().to_vec(), content(&resegmenter.next().unwrap()));
    assert_eq!("ん".as_bytes().to_vec(), content(&resegmenter.next().unwrap()));
    assert_eq!("い".as_bytes().to_vec(), content(&resegmenter.next().unwrap()));
    assert!(resegmenter.next().is_none());
}

#[test]
fn resegmenter_6() {
    let segments = vec![" 🌎".as_bytes(), "!".as_bytes()];
    let mut resegmenter = Resegmenter::<4>::new(segments);

    assert_eq!(" ".as_bytes().to_vec(), content(&resegmenter.next().unwrap()));
    assert_eq!("🌎".as_bytes().to_vec(), content(&resegmenter.next().unwrap()));
    assert_eq!("!".as_bytes().to_vec(), content(&resegmenter.next().unwrap()));
    assert!(resegmenter.next().is_none());
}

#[test]
fn segmenter_round_trip() {
    let chunk = "Hey this has mixed 🐕 content\r\nand some line breaks\ntoo.";
    let mut segmenter = GapBuffer::<8>::segmenter(chunk.as_bytes());
    let pieces = segmenter.collect_all();

    let mut rebuilt: Vec<u8> = Vec::new();
    for piece in &pieces {
        assert!(!piece.is_empty());
        rebuilt.extend_from_slice(piece);
    }
    assert_eq!(chunk.as_bytes().to_vec(), rebuilt);
}

#[test]
fn segmenter_pieces_reach_the_floor() {
    let chunk = "aaaaaaaaaaaaaaaaaaaaaaaaaaaaaaaaaaaaaaaaa";
    let mut segmenter = GapBuffer::<16>::segmenter(chunk.as_bytes());
    let pieces = segmenter.collect_all();
    for piece in &pieces {
        assert!(piece.len() >= GapBuffer::<16>::chunk_min());
        assert!(piece.len() <= 16);
    }
}

#[test]
fn resegmenter_round_trip() {
    let segments = vec![
        "Hello ".as_bytes(),
        "Earth 🌎".as_bytes(),
        "".as_bytes(),
        "! And\nsome more text".as_bytes(),
    ];
    let mut joined: Vec<u8> = Vec::new();
    for segment in &segments {
        joined.extend_from_slice(segment);
    }

    let mut resegmenter = Resegmenter::<8>::new(segments);
    let buffers = resegmenter.collect_all();

    let mut rebuilt: Vec<u8> = Vec::new();
    for buf in &buffers {
        assert!(content(buf).len() >= GapBuffer::<8>::chunk_min());
        assert!(content(buf).len() <= 8);
        rebuilt.extend_from_slice(&content(buf));
    }
    assert_eq!(joined, rebuilt);
}

#[test]
fn resegmenter_matches_segmenter() {
    let segments = vec!["Hello ".as_bytes(), "Earth 🌎".as_bytes(), "!".as_bytes()];
    let mut joined: Vec<u8> = Vec::new();
    for segment in &segments {
        joined.extend_from_slice(segment);
    }

    let mut resegmenter = Resegmenter::<4>::new(segments);
    let buffers = resegmenter.collect_all();
    let mut segmenter = GapBuffer::<4>::segmenter(&joined);
    let pieces = segmenter.collect_all();

    assert_eq!(pieces.len(), buffers.len());
    for (piece, buf) in pieces.iter().zip(buffers.iter()) {
        assert_eq!(piece.to_vec(), content(buf));
    }
}
