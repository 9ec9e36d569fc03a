//! Partition of an input buffer into line-aligned, contiguous byte ranges.
use vstd::arithmetic::div_mod::{lemma_fundamental_div_mod, lemma_mod_pos_bound};
use vstd::prelude::*;

verus! {

/// Line feed, the record terminator.
pub const LF: u8 = 10;

/// A half-open byte range `[start, end)` of the input buffer.
#[derive(Clone, Copy, Debug, PartialEq, Eq, Structural)]
pub struct Chunk {
    pub start: usize,
    pub end: usize,
}

/// Index of the first byte equal to `x` at or after `i`, or `d.len()` when there is none.
pub open spec fn next_byte(d: Seq<u8>, i: int, x: u8) -> int
    decreases d.len() - i,
{
    if i >= d.len() {
        d.len() as int
    } else if d[i] == x {
        i
    } else {
        next_byte(d, i + 1, x)
    }
}

/// Where a chunk that starts at `start` ends: just after the first line feed at or past
/// `start + size` (clamped to the end of the buffer), or at the end of the buffer.
pub open spec fn chunk_end(d: Seq<u8>, start: int, size: int) -> int {
    let t = if start + size >= d.len() { d.len() as int } else { start + size };
    let lf = next_byte(d, t, LF);
    if lf < d.len() { lf + 1 } else { d.len() as int }
}

/// `cs` cuts `d` into non-empty, contiguous ranges that cover it exactly, and every range
/// but the last ends one byte after a line feed.
pub open spec fn is_line_partition(d: Seq<u8>, cs: Seq<Chunk>) -> bool {
    &&& cs.len() == 0 ==> d.len() == 0
    &&& cs.len() > 0 ==> cs[0].start == 0 && cs.last().end == d.len()
    &&& forall|i: int| 0 <= i < cs.len() ==> #[trigger] cs[i].start < cs[i].end && cs[i].end <= d.len()
    &&& forall|i: int| 0 <= i < cs.len() - 1 ==> #[trigger] cs[i].end == cs[i + 1].start
    &&& forall|i: int| 0 <= i < cs.len() - 1 ==> d[#[trigger] cs[i].end - 1] == LF
}

pub proof fn lemma_next_byte_bounds(d: Seq<u8>, i: int, x: u8)
    requires
        0 <= i <= d.len(),
    ensures
        i <= next_byte(d, i, x) <= d.len(),
        next_byte(d, i, x) < d.len() ==> d[next_byte(d, i, x)] == x,
    decreases d.len() - i,
{
    if i < d.len() && d[i] != x {
        lemma_next_byte_bounds(d, i + 1, x);
    }
}

/// Scans `data` from `from` for the first byte equal to `x`; the length when there is none.
pub fn find_byte(data: &[u8], from: usize, x: u8) -> (r: usize)
    requires
        from <= data@.len(),
    ensures
        r == next_byte(data@, from as int, x),
{
    let mut j: usize = from;
    while j < data.len() && data[j] != x
        invariant
            from <= j <= data@.len(),
            next_byte(data@, from as int, x) == next_byte(data@, j as int, x),
        decreases data@.len() - j,
    {
        j = j + 1;
    }
    j
}

/// Cuts `data` into at most `nb_chunks` line-aligned chunks of about `len / nb_chunks`
/// bytes each: from each chunk's start, the tentative end `start + len / nb_chunks` (clamped
/// to the buffer) is pushed just past the next line feed, or to the end of the buffer when
/// none follows. Cutting stops once the buffer is covered, so a buffer with fewer lines
/// than requested chunks gives fewer, never empty, chunks.
pub fn chunk_it(data: &[u8], nb_chunks: usize) -> (chunks: Vec<Chunk>)
    requires
        nb_chunks >= 1,
    ensures
        chunks@.len() <= nb_chunks,
        is_line_partition(data@, chunks@),
        forall|i: int|
            0 <= i < chunks@.len() ==> (#[trigger] chunks@[i]).end == chunk_end(
                data@,
                chunks@[i].start as int,
                (data@.len() / (nb_chunks as nat)) as int,
            ),
{
    let eof = data.len();
    let size = eof / nb_chunks;
    let mut chunks: Vec<Chunk> = Vec::new();
    let mut offset: usize = 0;
    let mut k: usize = 0;
    let ghost d = data@;
    proof {
        lemma_fundamental_div_mod(eof as int, nb_chunks as int);
        lemma_mod_pos_bound(eof as int, nb_chunks as int);
        assert(eof < nb_chunks * (size + 1)) by (nonlinear_arith)
            requires
                eof == nb_chunks * size + eof % nb_chunks,
                eof % nb_chunks < nb_chunks,
        ;
    }
    while k < nb_chunks
        invariant
            d == data@,
            eof == d.len(),
            size == eof / nb_chunks,
            eof < nb_chunks * (size + 1),
            k <= nb_chunks,
            chunks@.len() == k,
            offset <= eof,
            offset >= k * (size + 1) || offset == eof,
            k == 0 ==> offset == 0,
            k > 0 ==> chunks@[0].start == 0 && chunks@.last().end == offset,
            forall|i: int|
                0 <= i < chunks@.len() ==> #[trigger] chunks@[i].start < chunks@[i].end
                    && chunks@[i].end <= eof,
            forall|i: int|
                0 <= i < chunks@.len() - 1 ==> #[trigger] chunks@[i].end == chunks@[i + 1].start,
            forall|i: int|
                0 <= i < chunks@.len() ==> (#[trigger] chunks@[i]).end == eof || d[chunks@[i].end
                    - 1] == LF,
            forall|i: int|
                0 <= i < chunks@.len() ==> (#[trigger] chunks@[i]).end == chunk_end(
                    d,
                    chunks@[i].start as int,
                    size as int,
                ),
        ensures
            offset == eof || k == nb_chunks,
        decreases nb_chunks - k,
    {
        if offset == eof {
            break;
        }
        let mut end: usize = if size >= eof - offset {
            eof
        } else {
            offset + size
        };
        let lf = find_byte(data, end, LF);
        proof {
            lemma_next_byte_bounds(d, end as int, LF);
        }
        if lf < eof {
            end = lf + 1;
            chunks.push(Chunk { start: offset, end });
            proof {
                assert((k + 1) * (size + 1) == k * (size + 1) + size + 1) by (nonlinear_arith);
            }
            offset = end;
            k = k + 1;
        } else {
            chunks.push(Chunk { start: offset, end: eof });
            offset = eof;
            k = k + 1;
            break;
        }
    }
    proof {
        if offset != eof {
            assert(k == nb_chunks);
            assert(offset >= nb_chunks * (size + 1));
        }
    }
    chunks
}

} // verus!
