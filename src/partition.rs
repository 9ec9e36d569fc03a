//! Aggregating a buffer whole, or chunk by chunk and merging, gives the same statistics.
use crate::aggregate::{prepend, records_from, summarize, tally, LineError, SEMI};
use crate::chunker::{is_line_partition, next_byte, Chunk, LF};
use crate::merge::merge_maps;
use crate::stats::{stats_add, stats_merge, stats_new, Stats};
use crate::summary::observe;
use vstd::prelude::*;

verus! {

/// The records of `r1` followed by those of `r2`, or the first error.
pub open spec fn join(
    r1: Result<Seq<(Seq<u8>, int)>, LineError>,
    r2: Result<Seq<(Seq<u8>, int)>, LineError>,
) -> Result<Seq<(Seq<u8>, int)>, LineError> {
    match r1 {
        Ok(t) => prepend(t, r2),
        Err(e) => Err(e),
    }
}

/// Two aggregation results merged, or the first error.
pub open spec fn combine(
    a: Result<Map<Seq<u8>, Stats>, LineError>,
    b: Result<Map<Seq<u8>, Stats>, LineError>,
) -> Result<Map<Seq<u8>, Stats>, LineError> {
    match a {
        Err(e) => Err(e),
        Ok(m1) => match b {
            Err(e) => Err(e),
            Ok(m2) => Ok(merge_maps(m1, m2)),
        },
    }
}

/// Each chunk of `data` aggregated on its own, the results merged in chunk order.
pub open spec fn summarize_parts(data: Seq<u8>, chunks: Seq<Chunk>) -> Result<
    Map<Seq<u8>, Stats>,
    LineError,
>
    decreases chunks.len(),
{
    if chunks.len() == 0 {
        Ok(Map::empty())
    } else {
        combine(
            summarize_parts(data, chunks.drop_last()),
            summarize(data.subrange(chunks.last().start as int, chunks.last().end as int)),
        )
    }
}

proof fn lemma_combine_assoc(
    a: Result<Map<Seq<u8>, Stats>, LineError>,
    b: Result<Map<Seq<u8>, Stats>, LineError>,
    c: Result<Map<Seq<u8>, Stats>, LineError>,
)
    ensures
        combine(combine(a, b), c) == combine(a, combine(b, c)),
{
    if a is Ok && b is Ok && c is Ok {
        let (x, y, z) = (a->Ok_0, b->Ok_0, c->Ok_0);
        assert(merge_maps(merge_maps(x, y), z) =~= merge_maps(x, merge_maps(y, z)));
    }
}

/// Aggregating the chunks of `l` followed by those of `r` is merging what each part gives.
pub proof fn lemma_parts_concat(data: Seq<u8>, l: Seq<Chunk>, r: Seq<Chunk>)
    ensures
        summarize_parts(data, l + r) == combine(summarize_parts(data, l), summarize_parts(data, r)),
    decreases r.len(),
{
    if r.len() == 0 {
        assert(l + r =~= l);
        match summarize_parts(data, l) {
            Ok(m) => assert(merge_maps(m, Map::empty()) =~= m),
            Err(_) => {},
        }
    } else {
        assert((l + r).drop_last() =~= l + r.drop_last());
        assert((l + r).last() == r.last());
        lemma_parts_concat(data, l, r.drop_last());
        let c = r.last();
        lemma_combine_assoc(
            summarize_parts(data, l),
            summarize_parts(data, r.drop_last()),
            summarize(data.subrange(c.start as int, c.end as int)),
        );
    }
}

proof fn lemma_next_byte_shift(a: Seq<u8>, b: Seq<u8>, j: int, x: u8)
    requires
        0 <= j <= b.len(),
    ensures
        next_byte(a + b, a.len() + j, x) == a.len() + next_byte(b, j, x),
    decreases b.len() - j,
{
    if j < b.len() {
        assert((a + b)[a.len() + j] == b[j]);
        lemma_next_byte_shift(a, b, j + 1, x);
    }
}

proof fn lemma_next_byte_prefix(a: Seq<u8>, b: Seq<u8>, i: int, x: u8)
    requires
        0 <= i <= a.len(),
    ensures
        next_byte(a + b, i, x) == if next_byte(a, i, x) < a.len() {
            next_byte(a, i, x)
        } else {
            a.len() + next_byte(b, 0, x)
        },
    decreases a.len() - i,
{
    if i < a.len() {
        assert((a + b)[i] == a[i]);
        lemma_next_byte_prefix(a, b, i + 1, x);
    } else {
        lemma_next_byte_shift(a, b, 0, x);
    }
}

proof fn lemma_next_byte_le(d: Seq<u8>, i: int, j: int, x: u8)
    requires
        0 <= i <= j < d.len(),
        d[j] == x,
    ensures
        next_byte(d, i, x) <= j,
    decreases j - i,
{
    if i < j && d[i] != x {
        lemma_next_byte_le(d, i + 1, j, x);
    }
}

proof fn lemma_records_shift(a: Seq<u8>, b: Seq<u8>, j: int)
    requires
        0 <= j <= b.len(),
    ensures
        records_from(a + b, a.len() + j) == records_from(b, j),
    decreases b.len() - j,
{
    let d = a + b;
    let i = a.len() + j;
    let e = next_byte(b, j, LF);
    let s = next_byte(b, j, SEMI);
    lemma_next_byte_shift(a, b, j, LF);
    lemma_next_byte_shift(a, b, j, SEMI);
    if j < b.len() {
        crate::chunker::lemma_next_byte_bounds(b, j, LF);
        crate::chunker::lemma_next_byte_bounds(b, j, SEMI);
        let nb = if e < b.len() { e + 1 } else { b.len() as int };
        lemma_records_shift(a, b, nb);
        assert(d.len() == a.len() + b.len());
        if s < e {
            assert(d.subrange(a.len() + s + 1, a.len() + e) =~= b.subrange(s + 1, e));
            assert(d.subrange(i, a.len() + s) =~= b.subrange(j, s));
        }
    }
}

proof fn lemma_prepend_join(
    x: Seq<(Seq<u8>, int)>,
    r1: Result<Seq<(Seq<u8>, int)>, LineError>,
    r2: Result<Seq<(Seq<u8>, int)>, LineError>,
)
    ensures
        prepend(x, join(r1, r2)) == join(prepend(x, r1), r2),
{
    match r1 {
        Ok(t1) => match r2 {
            Ok(t2) => assert(x + (t1 + t2) =~= (x + t1) + t2),
            Err(_) => {},
        },
        Err(_) => {},
    }
}

proof fn lemma_records_concat(a: Seq<u8>, b: Seq<u8>, i: int)
    requires
        0 <= i <= a.len(),
        a.len() == 0 || a.last() == LF,
    ensures
        records_from(a + b, i) == join(records_from(a, i), records_from(b, 0)),
    decreases a.len() - i,
{
    let d = a + b;
    if i == a.len() {
        lemma_records_shift(a, b, 0);
        match records_from(b, 0) {
            Ok(t) => assert(Seq::<(Seq<u8>, int)>::empty() + t =~= t),
            Err(_) => {},
        }
    } else {
        let e = next_byte(a, i, LF);
        let s = next_byte(a, i, SEMI);
        crate::chunker::lemma_next_byte_bounds(a, i, LF);
        crate::chunker::lemma_next_byte_bounds(a, i, SEMI);
        lemma_next_byte_le(a, i, a.len() - 1, LF);
        lemma_next_byte_prefix(a, b, i, LF);
        lemma_next_byte_prefix(a, b, i, SEMI);
        assert(next_byte(a + b, i, LF) == e);
        crate::chunker::lemma_next_byte_bounds(b, 0, SEMI);
        lemma_records_concat(a, b, e + 1);
        if s < e {
            assert(d.subrange(s + 1, e) =~= a.subrange(s + 1, e));
            assert(d.subrange(i, s) =~= a.subrange(i, s));
            match crate::value::parse_tenths(a.subrange(s + 1, e)) {
                Some(v) => lemma_prepend_join(
                    seq![(a.subrange(i, s), v)],
                    records_from(a, e + 1),
                    records_from(b, 0),
                ),
                None => {},
            }
        }
    }
}

proof fn lemma_observe_merge(a: Map<Seq<u8>, Stats>, b: Map<Seq<u8>, Stats>, k: Seq<u8>, v: int)
    ensures
        observe(merge_maps(a, b), k, v) == merge_maps(a, observe(b, k, v)),
{
    let l = observe(merge_maps(a, b), k, v);
    let r = merge_maps(a, observe(b, k, v));
    assert(l.dom() =~= r.dom());
    if a.contains_key(k) {
        if b.contains_key(k) {
            assert(stats_add(stats_merge(a[k], b[k]), v) == stats_merge(a[k], stats_add(b[k], v)));
        } else {
            assert(stats_add(a[k], v) == stats_merge(a[k], stats_new(v)));
        }
    }
    assert(l =~= r);
}

proof fn lemma_tally_concat(r1: Seq<(Seq<u8>, int)>, r2: Seq<(Seq<u8>, int)>)
    ensures
        tally(r1 + r2) == merge_maps(tally(r1), tally(r2)),
    decreases r2.len(),
{
    if r2.len() == 0 {
        assert(r1 + r2 =~= r1);
        assert(merge_maps(tally(r1), Map::empty()) =~= tally(r1));
    } else {
        assert((r1 + r2).drop_last() =~= r1 + r2.drop_last());
        assert((r1 + r2).last() == r2.last());
        lemma_tally_concat(r1, r2.drop_last());
        lemma_observe_merge(tally(r1), tally(r2.drop_last()), r2.last().0, r2.last().1);
    }
}

/// Aggregating two buffers laid end to end, the first empty or ending in a line feed,
/// is merging what each aggregates to.
pub proof fn lemma_summarize_concat(a: Seq<u8>, b: Seq<u8>)
    requires
        a.len() == 0 || a.last() == LF,
    ensures
        summarize(a + b) == combine(summarize(a), summarize(b)),
{
    lemma_records_concat(a, b, 0);
    match records_from(a, 0) {
        Ok(t1) => match records_from(b, 0) {
            Ok(t2) => lemma_tally_concat(t1, t2),
            Err(_) => {},
        },
        Err(_) => {},
    }
}

proof fn lemma_parts_prefix(data: Seq<u8>, m: int, chunks: Seq<Chunk>)
    requires
        0 <= m <= data.len(),
        forall|i: int| 0 <= i < chunks.len() ==> #[trigger] chunks[i].start <= chunks[i].end <= m,
    ensures
        summarize_parts(data, chunks) == summarize_parts(data.subrange(0, m), chunks),
    decreases chunks.len(),
{
    if chunks.len() > 0 {
        let c = chunks.last();
        assert(c == chunks[chunks.len() - 1]);
        assert(data.subrange(c.start as int, c.end as int) =~= data.subrange(0, m).subrange(
            c.start as int,
            c.end as int,
        ));
        assert forall|i: int| 0 <= i < chunks.drop_last().len() implies #[trigger] chunks.drop_last()[i].start
            <= chunks.drop_last()[i].end <= m by {
            assert(chunks.drop_last()[i] == chunks[i]);
        }
        lemma_parts_prefix(data, m, chunks.drop_last());
    }
}

proof fn lemma_partition_head(data: Seq<u8>, chunks: Seq<Chunk>)
    requires
        is_line_partition(data, chunks),
        chunks.len() > 0,
    ensures
        is_line_partition(
            data.subrange(0, chunks.last().start as int),
            chunks.drop_last(),
        ),
        forall|i: int|
            0 <= i < chunks.drop_last().len() ==> #[trigger] chunks.drop_last()[i].start
                <= chunks.drop_last()[i].end <= chunks.last().start,
        chunks.len() == 1 ==> chunks.last().start == 0,
        chunks.len() > 1 ==> data[chunks.last().start - 1] == LF,
{
    let n = chunks.len();
    let m = chunks.last().start as int;
    let head = data.subrange(0, m);
    let rest = chunks.drop_last();
    assert(chunks.last() == chunks[n - 1]);
    assert forall|i: int| 0 <= i < rest.len() implies #[trigger] rest[i].start <= rest[i].end
        <= m by {
        assert(rest[i] == chunks[i]);
        lemma_ends_ordered(chunks, i, n - 2);
    }
    assert forall|i: int| 0 <= i < rest.len() - 1 implies head[#[trigger] rest[i].end - 1]
        == LF by {
        assert(rest[i] == chunks[i]);
        lemma_ends_ordered(chunks, i, n - 2);
        assert(data[chunks[i].end - 1] == LF);
        assert(chunks[i].start < chunks[i].end);
        assert(chunks[n - 1].start < chunks[n - 1].end && chunks[n - 1].end <= data.len());
        assert(chunks[i].end <= m);
        assert(head[rest[i].end - 1] == data[rest[i].end - 1]);
    }
    assert forall|i: int| 0 <= i < rest.len() - 1 implies #[trigger] rest[i].end == rest[i
        + 1].start by {
        assert(rest[i] == chunks[i]);
        assert(rest[i + 1] == chunks[i + 1]);
    }
    assert forall|i: int| 0 <= i < rest.len() implies #[trigger] rest[i].start < rest[i].end
        && rest[i].end <= head.len() by {
        assert(rest[i] == chunks[i]);
    }
    if n > 1 {
        assert(rest.last() == chunks[n - 2]);
        assert(chunks[n - 2].end == chunks[n - 1].start);
    }
}

/// Partition invariance: for any line-aligned partition of `data` into chunks, aggregating
/// each chunk and merging the results in chunk order gives exactly what aggregating
/// `data` whole gives, the same statistics per key or the same error.
pub proof fn lemma_partition_invariance(data: Seq<u8>, chunks: Seq<Chunk>)
    requires
        is_line_partition(data, chunks),
    ensures
        summarize(data) == summarize_parts(data, chunks),
    decreases chunks.len(),
{
    if chunks.len() == 0 {
        assert(tally(Seq::empty()) == Map::<Seq<u8>, Stats>::empty());
    } else {
        let c = chunks.last();
        let m = c.start as int;
        let head = data.subrange(0, m);
        let tail = data.subrange(m, data.len() as int);
        lemma_partition_head(data, chunks);
        lemma_partition_invariance(head, chunks.drop_last());
        lemma_parts_prefix(data, m, chunks.drop_last());
        assert(data =~= head + tail);
        assert(head.len() == 0 || head.last() == data[m - 1]);
        lemma_summarize_concat(head, tail);
    }
}

proof fn lemma_ends_ordered(chunks: Seq<Chunk>, i: int, j: int)
    requires
        0 <= i <= j < chunks.len(),
        forall|t: int| 0 <= t < chunks.len() ==> #[trigger] chunks[t].start < chunks[t].end,
        forall|t: int| 0 <= t < chunks.len() - 1 ==> #[trigger] chunks[t].end == chunks[t + 1].start,
    ensures
        chunks[i].end <= chunks[j].end,
        j + 1 < chunks.len() ==> chunks[i].end <= chunks[j + 1].start,
    decreases j - i,
{
    if i < j {
        lemma_ends_ordered(chunks, i + 1, j);
        assert(chunks[i].end == chunks[i + 1].start);
    }
}

} // verus!
