use phips_1brc::chunk_iter::{split_chunks, ChunkIter};

#[test]
fn test_chunk_iter_bytes_per_chunk() {
    let data = "a".repeat(15);
    let iter = ChunkIter::new(data.as_bytes(), 2);

    assert_eq!(iter.bytes_per_chunk(), 8, "must be rounded up");
}

#[test]
fn test_chunk_iter_chunk_size_aligns_with_newlines() {
    let data = "aaa\nbbb\nccc\nddd\neee\n";
    assert_eq!(data.len(), 20);
    let mut iter = ChunkIter::new(data.as_bytes(), 5);
    assert_eq!(iter.bytes_per_chunk(), 4);

    let mut next = || iter.next().map(|data| core::str::from_utf8(data).unwrap());

    assert_eq!(Some("aaa\n"), next());
    assert_eq!(Some("bbb\n"), next());
    assert_eq!(Some("ccc\n"), next());
    assert_eq!(Some("ddd\n"), next());
    assert_eq!(Some("eee\n"), next());
}

#[test]
fn test_chunk_iter_evenly_splittable() {
    let data = "aaa\nbbbb\nccccc\ndddddd\neeeeeee\n";
    assert_eq!(data.len(), 30);
    let mut iter = ChunkIter::new(data.as_bytes(), 3);
    assert_eq!(iter.bytes_per_chunk(), 10, "must be rounded up");

    let mut next = || iter.next().map(|data| core::str::from_utf8(data).unwrap());

    assert_eq!(Some("aaa\nbbbb\nccccc\n"), next());
    assert_eq!(Some("dddddd\neeeeeee\n"), next());
}

#[test]
fn test_chunk_iter_not_evenly_splittable() {
    let data = "aa\nbb\ncc\ndd\nee\nff\ngg\n".repeat(2);
    assert_eq!(data.len(), 42);
    let mut iter = ChunkIter::new(data.as_bytes(), 4);
    assert_eq!(iter.bytes_per_chunk(), 11, "must be rounded up");

    let mut next = || iter.next().map(|data| core::str::from_utf8(data).unwrap());

    assert_eq!(Some("aa\nbb\ncc\ndd\n"), next());
    assert_eq!(Some("ee\nff\ngg\naa\n"), next());
    assert_eq!(Some("bb\ncc\ndd\nee\n"), next());
    assert_eq!(Some("ff\ngg\n"), next());
}

#[test]
fn chunk_iter_ends_with_none() {
    let data = "aaa\nbbb\n";
    let mut iter = ChunkIter::new(data.as_bytes(), 1);
    assert_eq!(Some(data.as_bytes()), iter.next());
    assert_eq!(None, iter.next());
    assert_eq!(None, iter.next());
}

#[test]
fn chunk_iter_on_empty_input() {
    let mut iter = ChunkIter::new(b"", 4);
    assert_eq!(iter.bytes_per_chunk(), 0);
    assert_eq!(None, iter.next());
}

#[test]
fn split_chunks_cover_the_input_in_order() {
    let data = "Hamburg;12.0\nBulawayo;8.9\nPalembang;38.8\nSt. John's;15.2\nCracow;12.6\n";
    for n in 1..=8 {
        let chunks = split_chunks(data.as_bytes(), n);
        assert!(chunks.len() <= n);
        let joined: Vec<u8> = chunks.iter().flat_map(|c| c.iter().copied()).collect();
        assert_eq!(joined, data.as_bytes());
    }
}

#[test]
fn split_chunks_are_line_aligned() {
    let data = "aa\nbb\ncc\ndd\nee\nff\ngg\n".repeat(3);
    let chunks = split_chunks(data.as_bytes(), 4);
    let mut start = 0;
    for chunk in &chunks {
        assert!(!chunk.is_empty());
        assert_eq!(*chunk.last().unwrap(), b'\n');
        assert!(start == 0 || data.as_bytes()[start - 1] == b'\n');
        start += chunk.len();
    }
    assert_eq!(start, data.len());
}

#[test]
fn split_chunks_of_empty_input_is_empty() {
    assert!(split_chunks(b"", 3).is_empty());
}

#[test]
fn split_chunks_with_one_long_line_gives_one_chunk() {
    let data = "Abcdefghijklmnop;1.0\n";
    let chunks = split_chunks(data.as_bytes(), 8);
    assert_eq!(chunks, vec![data.as_bytes()]);
}
