use rxd::chunk::{ChunkedReader, ReadWindow};
use rxd::error::ConfigError;
use rxd::render::{count_rows, next_extended_chunk, overflow};

fn reader(source_len: usize, chunk_size: usize) -> ChunkedReader {
    match ChunkedReader::new(source_len, chunk_size) {
        Ok(reader) => reader,
        Err(error) => panic!("refused: {}", error.message()),
    }
}

fn window(offset: usize, len: usize) -> ReadWindow {
    ReadWindow { offset, len }
}

#[test]
fn new_refuses_a_chunk_size_of_zero() {
    assert!(matches!(ChunkedReader::new(20, 0), Err(ConfigError::NonPositiveChunkSize)));
    assert!(matches!(ChunkedReader::new(0, 0), Err(ConfigError::NonPositiveChunkSize)));
}

#[test]
fn new_starts_at_the_beginning() {
    let r = reader(20, 8);
    assert_eq!(r.source_len(), 20);
    assert_eq!(r.chunk_size(), 8);
    assert_eq!(r.consumed_bytes(), 0);
}

#[test]
fn new_lowers_the_chunk_size_to_the_source_length() {
    assert_eq!(reader(20, 4096).chunk_size(), 20);
    assert_eq!(reader(20, 20).chunk_size(), 20);
    assert_eq!(reader(20, 19).chunk_size(), 19);
    assert_eq!(reader(0, 4096).chunk_size(), 0);
}

#[test]
fn chunks_cover_the_source_once() {
    let content: Vec<u8> = (0..=99u8).collect();
    for chunk_size in [1usize, 3, 7, 10, 33, 99, 100, 101, 4096] {
        let mut r = reader(content.len(), chunk_size);
        let mut joined: Vec<u8> = Vec::new();
        let mut expected_offset = 0usize;
        while let Some(w) = r.read_next_chunk() {
            assert_eq!(w.offset, expected_offset);
            assert!(w.len > 0);
            assert!(w.len <= chunk_size);
            joined.extend_from_slice(&content[w.offset..w.offset + w.len]);
            expected_offset += w.len;
            assert_eq!(r.consumed_bytes(), expected_offset);
        }
        assert_eq!(joined, content);
        assert_eq!(r.consumed_bytes(), content.len());
    }
}

#[test]
fn chunks_of_a_twenty_byte_source_at_eight() {
    let mut r = reader(20, 8);
    assert_eq!(r.read_next_chunk(), Some(window(0, 8)));
    assert_eq!(r.read_next_chunk(), Some(window(8, 8)));
    assert_eq!(r.read_next_chunk(), Some(window(16, 4)));
    assert_eq!(r.read_next_chunk(), None);
    assert_eq!(r.read_next_chunk(), None);
    assert_eq!(r.consumed_bytes(), 20);
}

#[test]
fn an_empty_source_has_no_chunk() {
    let mut r = reader(0, 4096);
    assert_eq!(r.read_next_chunk(), None);
    assert_eq!(r.peek_next_n_bytes(16), None);
    assert_eq!(next_extended_chunk(&mut r, false), None);
    assert_eq!(r.consumed_bytes(), 0);
}

#[test]
fn look_ahead_consumes_what_it_returns() {
    let mut r = reader(20, 8);
    assert_eq!(r.peek_next_n_bytes(5), Some(window(0, 5)));
    assert_eq!(r.consumed_bytes(), 5);
    assert_eq!(r.read_next_chunk(), Some(window(5, 8)));
    assert_eq!(r.peek_next_n_bytes(100), Some(window(13, 7)));
    assert_eq!(r.peek_next_n_bytes(1), None);
    assert_eq!(r.read_next_chunk(), None);
}

#[test]
fn look_ahead_of_zero_bytes_moves_nothing() {
    let mut r = reader(20, 8);
    assert_eq!(r.peek_next_n_bytes(0), Some(window(0, 0)));
    assert_eq!(r.consumed_bytes(), 0);
}

#[test]
fn overflow_fills_the_last_row() {
    assert_eq!(overflow(8, false), 8);
    assert_eq!(overflow(20, false), 12);
    assert_eq!(overflow(15, false), 1);
    assert_eq!(overflow(16, false), 16);
    assert_eq!(overflow(0, false), 16);
    assert_eq!(overflow(8, true), 4);
    assert_eq!(overflow(6, true), 6);
    assert_eq!(overflow(5, true), 1);
}

#[test]
fn extended_chunks_of_a_twenty_byte_source_at_eight() {
    let mut r = reader(20, 8);
    let first = next_extended_chunk(&mut r, false);
    assert_eq!(first, Some(window(0, 16)));
    assert_eq!(count_rows(16, false), 1);
    let second = next_extended_chunk(&mut r, false);
    assert_eq!(second, Some(window(16, 4)));
    assert_eq!(count_rows(4, false), 1);
    assert_eq!(next_extended_chunk(&mut r, false), None);
    assert_eq!(count_rows(20, false), 2);
}

#[test]
fn a_chunk_on_a_row_boundary_borrows_a_whole_row() {
    let mut r = reader(100, 32);
    assert_eq!(next_extended_chunk(&mut r, false), Some(window(0, 48)));
    assert_eq!(next_extended_chunk(&mut r, false), Some(window(48, 48)));
    assert_eq!(next_extended_chunk(&mut r, false), Some(window(96, 4)));
    assert_eq!(next_extended_chunk(&mut r, false), None);
}

#[test]
fn only_the_last_extended_chunk_ends_off_a_row_boundary() {
    for binaryfmt in [false, true] {
        let width = if binaryfmt { 6usize } else { 16usize };
        for source_len in [0usize, 1, 5, 6, 7, 16, 17, 20, 95, 96, 97, 1000] {
            for chunk_size in [1usize, 2, 6, 8, 16, 17, 100, 4096] {
                let mut r = reader(source_len, chunk_size);
                let mut windows: Vec<ReadWindow> = Vec::new();
                while let Some(w) = next_extended_chunk(&mut r, binaryfmt) {
                    windows.push(w);
                }
                let mut offset = 0usize;
                let mut rows = 0usize;
                for (i, w) in windows.iter().enumerate() {
                    assert_eq!(w.offset, offset);
                    assert!(w.len > 0);
                    if i + 1 < windows.len() {
                        assert_eq!(w.len % width, 0);
                    }
                    offset += w.len;
                    rows += count_rows(w.len, binaryfmt);
                }
                assert_eq!(offset, source_len);
                assert_eq!(rows, (source_len + width - 1) / width);
            }
        }
    }
}

#[test]
fn row_counts_round_up() {
    assert_eq!(count_rows(0, false), 0);
    assert_eq!(count_rows(1, false), 1);
    assert_eq!(count_rows(16, false), 1);
    assert_eq!(count_rows(17, false), 2);
    assert_eq!(count_rows(32, false), 2);
    assert_eq!(count_rows(0, true), 0);
    assert_eq!(count_rows(6, true), 1);
    assert_eq!(count_rows(7, true), 2);
    assert_eq!(count_rows(4096, true), 683);
}
