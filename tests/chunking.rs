use chunk_stats::aggregate::process_chunk;
use chunk_stats::fork_join::aggregate_range;
use chunk_stats::range::{ChunkRange, ChunkRangeMut};
use chunk_stats::{chunk_it, Chunk};

fn check_partition(data: &[u8], chunks: &[Chunk]) {
    if data.is_empty() {
        assert!(chunks.is_empty());
        return;
    }
    assert_eq!(chunks[0].start, 0);
    assert_eq!(chunks[chunks.len() - 1].end, data.len());
    for (i, c) in chunks.iter().enumerate() {
        assert!(c.start < c.end);
        if i + 1 < chunks.len() {
            assert_eq!(c.end, chunks[i + 1].start);
            assert_eq!(data[c.end - 1], b'\n');
        }
    }
}

#[test]
fn chunks_cover_buffer_aligned_to_lines() {
    let data = b"Hamburg;12.0\nBulawayo;8.9\nPalembang;38.8\nSt. John's;15.2\nCracow;12.6\n";
    for n in 1..=12 {
        let chunks = chunk_it(data, n);
        assert!(chunks.len() <= n);
        check_partition(data, &chunks);
    }
}

#[test]
fn chunk_boundaries_follow_the_next_line_feed() {
    let data = b"a;1.0\nb;2.0\nc;3.0\nd;4.0\n";
    // 24 bytes, size 12: the first tentative end is byte 12, which is 'c'; the line feed
    // after it is at 17.
    let chunks = chunk_it(data, 2);
    assert_eq!(chunks, vec![Chunk { start: 0, end: 18 }, Chunk { start: 18, end: 24 }]);
}

#[test]
fn more_chunks_than_lines_gives_no_empty_chunk() {
    let data = b"A;1.0\nB;2.0\n";
    let chunks = chunk_it(data, 64);
    assert!(!chunks.is_empty());
    assert!(chunks.len() <= 2);
    check_partition(data, &chunks);
    for c in &chunks {
        assert_ne!(c.start, c.end);
    }
}

#[test]
fn missing_trailing_newline_last_chunk_reaches_eof() {
    let data = b"A;5.0\nB;1.0";
    for n in 1..=4 {
        let chunks = chunk_it(data, n);
        check_partition(data, &chunks);
        assert_eq!(chunks.last().unwrap().end, data.len());
    }
}

#[test]
fn empty_buffer_has_no_chunks() {
    assert!(chunk_it(b"", 3).is_empty());
}

#[test]
fn single_chunk_is_whole_buffer() {
    let data = b"x;1.0\ny;2.0\n";
    assert_eq!(chunk_it(data, 1), vec![Chunk { start: 0, end: data.len() }]);
}

fn chunks_of(n: usize) -> Vec<Chunk> {
    (0..n).map(|i| Chunk { start: i * 10, end: i * 10 + 10 }).collect()
}

#[test]
fn split_keeps_order_and_lengths() {
    let chunks = chunks_of(5);
    for at in 0..=5 {
        let range = ChunkRange::new(&chunks);
        assert_eq!(range.len(), 5);
        let (left, right) = range.split_at(at);
        assert_eq!(left.len(), at);
        assert_eq!(right.len(), 5 - at);
        let mut joined = left.as_slice().to_vec();
        joined.extend_from_slice(right.as_slice());
        assert_eq!(joined, chunks);
    }
}

fn leaves(range: ChunkRange, out: &mut Vec<Chunk>) {
    if range.len() <= 1 {
        out.extend_from_slice(range.as_slice());
    } else {
        let mid = range.len() / 2;
        let (l, r) = range.split_at(mid);
        leaves(l, out);
        leaves(r, out);
    }
}

#[test]
fn recursive_split_reaches_single_chunks_in_order() {
    let chunks = chunks_of(7);
    let mut out = Vec::new();
    leaves(ChunkRange::new(&chunks), &mut out);
    assert_eq!(out, chunks);
    let range = ChunkRange::new(&chunks);
    assert_eq!(range.get(3), Chunk { start: 30, end: 40 });
}

#[test]
fn mutable_split_halves_write_disjoint_chunks() {
    let mut chunks = chunks_of(4);
    {
        let range = ChunkRangeMut::new(&mut chunks);
        assert_eq!(range.len(), 4);
        let (mut left, mut right) = range.split_at(1);
        assert_eq!(left.len(), 1);
        assert_eq!(right.len(), 3);
        left.set(0, Chunk { start: 100, end: 101 });
        right.set(0, Chunk { start: 200, end: 201 });
    }
    assert_eq!(chunks[0], Chunk { start: 100, end: 101 });
    assert_eq!(chunks[1], Chunk { start: 200, end: 201 });
    assert_eq!(chunks[2], Chunk { start: 20, end: 30 });
}

#[test]
fn range_aggregation_matches_whole_buffer() {
    let data = b"k;1.0\nm;-2.0\nk;3.5\nz;0.0\nm;4.0\nk;-1.0\n";
    let whole = process_chunk(data).unwrap();
    for n in 1..=7 {
        let chunks = chunk_it(data, n);
        let m = aggregate_range(data, ChunkRange::new(&chunks)).unwrap();
        assert_eq!(m.entries(), whole.entries());
    }
    let bad = b"k;1.0\nbad\nk;2.0\n";
    let chunks = chunk_it(bad, 3);
    assert!(aggregate_range(bad, ChunkRange::new(&chunks)).is_err());
    let none: Vec<Chunk> = Vec::new();
    assert_eq!(aggregate_range(b"", ChunkRange::new(&none)).unwrap().len(), 0);
}
