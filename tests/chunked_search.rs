use fresh::chunked_search::OverlappingChunks;
use fresh::virtual_buffer::VirtualBuffer;

fn create_test_buffer(content: &str) -> VirtualBuffer<4096> {
    VirtualBuffer::<4096>::from_slice(content.as_bytes())
}

#[test]
fn test_single_chunk() {
    let vbuf = create_test_buffer("hello world");
    let iter = vbuf.iter_at(0);

    let mut chunks = OverlappingChunks::new(iter, 0, 11, 100, 5);

    let chunk = chunks.next().unwrap();
    assert_eq!(chunk.buffer, b"hello world");
    assert_eq!(chunk.absolute_pos, 0);
    assert_eq!(chunk.valid_start, 0);

    assert!(chunks.next().is_none());
}

#[test]
fn test_overlapping_chunks() {
    let vbuf = create_test_buffer("0123456789abcdef");
    let iter = vbuf.iter_at(0);

    let mut chunks = OverlappingChunks::new(iter, 0, 16, 8, 3);

    let chunk1 = chunks.next().unwrap();
    assert_eq!(&chunk1.buffer[..], b"01234567");
    assert_eq!(chunk1.absolute_pos, 0);
    assert_eq!(chunk1.valid_start, 0);

    let chunk2 = chunks.next().unwrap();
    assert_eq!(&chunk2.buffer[..], b"56789abcdef");
    assert_eq!(chunk2.absolute_pos, 5);
    assert_eq!(chunk2.valid_start, 3);

    assert!(chunks.next().is_none());
}

#[test]
fn test_pattern_across_boundary() {
    let vbuf = create_test_buffer("0123456789abcdef");
    let pattern = b"6789a";

    let iter = vbuf.iter_at(0);
    let mut chunks = OverlappingChunks::new(iter, 0, 16, 8, pattern.len() - 1);

    let mut found = false;
    while let Some(chunk) = chunks.next() {
        if let Some(pos) = chunk
            .buffer
            .windows(pattern.len())
            .position(|window| window == pattern)
        {
            let match_end = pos + pattern.len();
            if match_end > chunk.valid_start {
                let absolute_pos = chunk.absolute_pos + pos;
                assert_eq!(absolute_pos, 6);
                found = true;
                break;
            }
        }
    }

    assert!(found, "Pattern spanning boundary should be found");
}

#[test]
fn test_empty_range() {
    let vbuf = create_test_buffer("hello");
    let iter = vbuf.iter_at(0);

    let mut chunks = OverlappingChunks::new(iter, 0, 0, 100, 5);
    assert!(chunks.next().is_none());
}

#[test]
fn test_partial_final_chunk() {
    let vbuf = create_test_buffer("hello");
    let iter = vbuf.iter_at(0);

    let mut chunks = OverlappingChunks::new(iter, 0, 5, 100, 2);

    let chunk = chunks.next().unwrap();
    assert_eq!(&chunk.buffer[..], b"hello");
    assert!(chunks.next().is_none());
}

/// Every accepted match of `pattern`, as (window number, position in the content).
fn accepted_matches(content: &str, start: usize, chunk_size: usize, pattern: &[u8]) -> Vec<(usize, usize)> {
    let vbuf = create_test_buffer(content);
    let mut chunks =
        OverlappingChunks::new(vbuf.iter_at(start), start, content.len(), chunk_size, pattern.len() - 1);
    let mut found = Vec::new();
    let mut n = 0;
    while let Some(chunk) = chunks.next() {
        for (pos, window) in chunk.buffer.windows(pattern.len()).enumerate() {
            if window == pattern && pos + pattern.len() > chunk.valid_start {
                found.push((n, chunk.absolute_pos + pos));
            }
        }
        n += 1;
    }
    found
}

#[test]
fn single_occurrence_is_reported_once_wherever_it_is() {
    let content = "abcdefghijklmnopqrstuvwxyz";
    for chunk_size in 1..=10 {
        for p in 0..content.len() - 3 {
            let pattern = &content.as_bytes()[p..p + 4];
            let found = accepted_matches(content, 0, chunk_size, pattern);
            assert_eq!(found.len(), 1, "chunk size {} position {}", chunk_size, p);
            assert_eq!(found[0].1, p);
        }
    }
}

#[test]
fn single_occurrence_from_an_offset() {
    let found = accepted_matches("xxxxxhello worldyyyy", 3, 4, b"world");
    assert_eq!(found.len(), 1);
    assert_eq!(found[0].1, 11);
}

#[test]
fn chunk_size_zero_yields_nothing() {
    let vbuf = create_test_buffer("hello");
    let mut chunks = OverlappingChunks::new(vbuf.iter_at(0), 0, 5, 0, 2);
    assert!(chunks.next().is_none());
    assert!(chunks.next().is_none());
}

#[test]
fn windows_stop_where_the_cursor_ends() {
    let vbuf = create_test_buffer("abcdefg");
    let mut chunks = OverlappingChunks::new(vbuf.iter_at(0), 0, 100, 4, 1);
    let first = chunks.next().unwrap();
    assert_eq!(&first.buffer[..], b"abcd");
    let second = chunks.next().unwrap();
    assert_eq!(&second.buffer[..], b"defg");
    assert_eq!(second.absolute_pos, 3);
    assert_eq!(second.valid_start, 1);
    assert!(chunks.next().is_none());
    assert!(chunks.next().is_none());
}

#[test]
fn every_occurrence_is_reported_once() {
    let content = "abcabcabcabc";
    for chunk_size in 1..=13 {
        let found: Vec<usize> = accepted_matches(content, 0, chunk_size, b"abc")
            .into_iter()
            .map(|(_, pos)| pos)
            .collect();
        assert_eq!(found, vec![0, 3, 6, 9], "chunk size {}", chunk_size);
    }
}
