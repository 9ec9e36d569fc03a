//! Aggregation over a chunk range by recursive halving, the way a fork-join scheduler
//! divides it, with the halves' results merged in index order.
use crate::aggregate::{process_chunk, summarize, LineError};
use crate::chunker::Chunk;
use crate::merge::merge_maps;
use crate::partition::{combine, lemma_parts_concat, summarize_parts};
use crate::range::ChunkRange;
use crate::stats::Stats;
use crate::summary::SummaryMap;
use vstd::prelude::*;

verus! {

/// Chunks that lie inside a buffer of `len` bytes, each starting where the previous ends.
pub open spec fn is_contiguous_within(cs: Seq<Chunk>, len: int) -> bool {
    &&& forall|i: int| 0 <= i < cs.len() ==> #[trigger] cs[i].start <= cs[i].end <= len
    &&& forall|i: int| 0 <= i < cs.len() - 1 ==> #[trigger] cs[i].end == cs[i + 1].start
}

/// Number of bytes that contiguous chunks `cs` span.
pub open spec fn span(cs: Seq<Chunk>) -> int {
    if cs.len() == 0 { 0 } else { cs.last().end - cs[0].start }
}

/// Aggregates the chunks of `range`: a single chunk directly, a longer range by halving it
/// and merging the two halves' results, left before right.
pub fn aggregate_range(data: &[u8], range: ChunkRange) -> (r: Result<SummaryMap, LineError>)
    requires
        is_contiguous_within(range@, data@.len() as int),
    ensures
        r matches Ok(m) ==> m.wf() && summarize_parts(data@, range@) == Ok::<_, LineError>(m@),
        r matches Ok(m) ==> forall|k: Seq<u8>| #[trigger] m@.contains_key(k) ==> m@[k].cnt <= span(range@),
        r matches Err(e) ==> summarize_parts(data@, range@) == Err::<Map<Seq<u8>, Stats>, _>(e),
    decreases range@.len(),
{
    let n = range.len();
    if n == 0 {
        let m = SummaryMap::new();
        return Ok(m);
    }
    if n == 1 {
        let c = range.get(0);
        proof {
            assert(range@.drop_last() =~= Seq::<Chunk>::empty());
            assert(range@.last() == c);
            assert(range@[0].start <= range@[0].end <= data@.len());
        }
        let bytes = &data[c.start..c.end];
        let res = process_chunk(bytes);
        proof {
            let sub = data@.subrange(c.start as int, c.end as int);
            assert(bytes@ == sub);
            assert(summarize_parts(data@, Seq::<Chunk>::empty()) == Ok::<_, LineError>(Map::<Seq<u8>, Stats>::empty()));
            assert(summarize_parts(data@, range@) == combine(
                Ok::<_, LineError>(Map::<Seq<u8>, Stats>::empty()),
                summarize(sub),
            ));
            if res is Ok {
                let m = res->Ok_0;
                assert(merge_maps(Map::empty(), m@) =~= m@);
            }
        }
        return res;
    }
    let ghost whole = range@;
    let (left, right) = range.split_at(n / 2);
    proof {
        lemma_parts_concat(data@, left@, right@);
        assert forall|i: int| 0 <= i < right@.len() - 1 implies #[trigger] right@[i].end
            == right@[i + 1].start by {
            assert(right@[i] == whole[i + n / 2]);
            assert(right@[i + 1] == whole[i + 1 + n / 2]);
        }
        assert forall|i: int| 0 <= i < right@.len() implies #[trigger] right@[i].start
            <= right@[i].end <= data@.len() by {
            assert(right@[i] == whole[i + n / 2]);
        }
        assert(left@.last() == whole[n / 2 - 1]);
        assert(right@[0] == whole[(n / 2) as int]);
        assert(right@.last() == whole.last());
        lemma_span_ordered(whole, 0, n / 2 - 1);
        lemma_span_ordered(whole, (n / 2) as int, n - 1);
    }
    let a = aggregate_range(data, left);
    let mut merged = match a {
        Ok(m) => m,
        Err(e) => {
            return Err(e);
        },
    };
    let b = aggregate_range(data, right);
    let other = match b {
        Ok(m) => m,
        Err(e) => {
            return Err(e);
        },
    };
    let ghost before = merged@;
    let ok = merged.merge_from(&other);
    proof {
        assert(whole[n / 2 - 1].end == whole[(n / 2) as int].start);
        assert(span(whole) == span(left@) + span(right@));
        assert(ok);
    }
    Ok(merged)
}

proof fn lemma_span_ordered(cs: Seq<Chunk>, i: int, j: int)
    requires
        0 <= i <= j < cs.len(),
        forall|t: int| 0 <= t < cs.len() ==> #[trigger] cs[t].start <= cs[t].end,
        forall|t: int| 0 <= t < cs.len() - 1 ==> #[trigger] cs[t].end == cs[t + 1].start,
    ensures
        cs[i].start <= cs[j].end,
    decreases j - i,
{
    if i < j {
        lemma_span_ordered(cs, i + 1, j);
        assert(cs[i].end == cs[i + 1].start);
    }
}

} // verus!
