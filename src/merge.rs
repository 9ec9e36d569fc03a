//! Folding per-chunk statistics into one answer, ordered by key.
use crate::stats::{stats_merge, Sensor, Stats};
use crate::summary::{entries_view, entries_wf, lemma_view_at, SummaryMap};
use vstd::prelude::*;

verus! {

/// Statistics of `a` and `b` combined key by key.
pub open spec fn merge_maps(a: Map<Seq<u8>, Stats>, b: Map<Seq<u8>, Stats>) -> Map<
    Seq<u8>,
    Stats,
> {
    Map::new(
        |k: Seq<u8>| a.contains_key(k) || b.contains_key(k),
        |k: Seq<u8>|
            if a.contains_key(k) && b.contains_key(k) {
                stats_merge(a[k], b[k])
            } else if a.contains_key(k) {
                a[k]
            } else {
                b[k]
            },
    )
}

/// All of `ms` combined, left to right.
pub open spec fn merge_all(ms: Seq<Map<Seq<u8>, Stats>>) -> Map<Seq<u8>, Stats>
    decreases ms.len(),
{
    if ms.len() == 0 {
        Map::empty()
    } else {
        merge_maps(merge_all(ms.drop_last()), ms.last())
    }
}

/// Total count of key `k` over `ms`.
pub open spec fn key_count(ms: Seq<Map<Seq<u8>, Stats>>, k: Seq<u8>) -> int
    decreases ms.len(),
{
    if ms.len() == 0 {
        0
    } else {
        key_count(ms.drop_last(), k) + if ms.last().contains_key(k) {
            ms.last()[k].cnt as int
        } else {
            0
        }
    }
}

/// Every key's total count fits in `usize`.
pub open spec fn counts_fit(ms: Seq<Map<Seq<u8>, Stats>>) -> bool {
    forall|k: Seq<u8>| #[trigger] key_count(ms, k) <= usize::MAX
}

/// The views of maps `ms`.
pub open spec fn maps_of(ms: Seq<SummaryMap>) -> Seq<Map<Seq<u8>, Stats>> {
    ms.map_values(|m: SummaryMap| m@)
}

/// Every statistic in every map counts at least one observation.
pub open spec fn counts_positive(ms: Seq<Map<Seq<u8>, Stats>>) -> bool {
    forall|i: int, k: Seq<u8>|
        0 <= i < ms.len() && #[trigger] ms[i].contains_key(k) ==> ms[i][k].cnt >= 1
}

proof fn lemma_merge_all_count(ms: Seq<Map<Seq<u8>, Stats>>, k: Seq<u8>)
    requires
        counts_positive(ms),
    ensures
        merge_all(ms).contains_key(k) ==> merge_all(ms)[k].cnt == key_count(ms, k),
        !merge_all(ms).contains_key(k) ==> key_count(ms, k) == 0,
        key_count(ms, k) >= 0,
    decreases ms.len(),
{
    if ms.len() > 0 {
        assert(counts_positive(ms.drop_last())) by {
            assert forall|i: int, k2: Seq<u8>|
                0 <= i < ms.drop_last().len() && #[trigger] ms.drop_last()[i].contains_key(
                    k2,
                ) implies ms.drop_last()[i][k2].cnt >= 1 by {
                assert(ms.drop_last()[i] == ms[i]);
            }
        }
        lemma_merge_all_count(ms.drop_last(), k);
        assert(ms.last() == ms[ms.len() - 1]);
    }
}

proof fn lemma_key_count_prefix(ms: Seq<Map<Seq<u8>, Stats>>, n: int, k: Seq<u8>)
    requires
        0 <= n <= ms.len(),
    ensures
        key_count(ms.subrange(0, n), k) <= key_count(ms, k),
    decreases ms.len(),
{
    if n < ms.len() {
        assert(ms.drop_last().subrange(0, n) =~= ms.subrange(0, n));
        lemma_key_count_prefix(ms.drop_last(), n, k);
    } else {
        assert(ms.subrange(0, n) =~= ms);
    }
}

/// Combines per-chunk statistics and returns them in ascending key order; `None` when some
/// key's total count does not fit in `usize`.
pub fn merge_results(chunk_results: Vec<SummaryMap>) -> (r: Option<Vec<(Vec<u8>, Sensor)>>)
    requires
        forall|i: int| 0 <= i < chunk_results@.len() ==> (#[trigger] chunk_results@[i]).wf(),
    ensures
        r is Some <==> counts_fit(maps_of(chunk_results@)),
        r matches Some(v) ==> entries_wf(v@) && entries_view(v@) == merge_all(
            maps_of(chunk_results@),
        ),
{
    let ghost ms = maps_of(chunk_results@);
    proof {
        assert(counts_positive(ms)) by {
            assert forall|i: int, k: Seq<u8>|
                0 <= i < ms.len() && #[trigger] ms[i].contains_key(k) implies ms[i][k].cnt
                >= 1 by {
                chunk_results@[i].lemma_wf_view();
            }
        }
    }
    let mut all_sensors = SummaryMap::new();
    let mut j: usize = 0;
    proof {
        assert(ms.subrange(0, 0) =~= Seq::<Map<Seq<u8>, Stats>>::empty());
    }
    while j < chunk_results.len()
        invariant
            ms == maps_of(chunk_results@),
            counts_positive(ms),
            forall|i: int| 0 <= i < chunk_results@.len() ==> (#[trigger] chunk_results@[i]).wf(),
            j <= chunk_results@.len(),
            all_sensors.wf(),
            all_sensors@ == merge_all(ms.subrange(0, j as int)),
        decreases chunk_results@.len() - j,
    {
        let ghost before = all_sensors@;
        let ok = all_sensors.merge_from(&chunk_results[j]);
        proof {
            let pre = ms.subrange(0, j as int);
            let upto = ms.subrange(0, j + 1);
            assert(upto.drop_last() =~= pre);
            assert(upto.last() == ms[j as int]);
            if !ok {
                let k = choose|k: Seq<u8>|
                    !(before.contains_key(k) && #[trigger] ms[j as int].contains_key(k)
                        ==> before[k].cnt + ms[j as int][k].cnt <= usize::MAX);
                lemma_merge_all_count(pre, k);
                lemma_key_count_prefix(ms, j + 1, k);
                assert(key_count(ms, k) > usize::MAX);
            }
        }
        if !ok {
            return None;
        }
        j = j + 1;
    }
    proof {
        assert(ms.subrange(0, j as int) =~= ms);
        assert forall|k: Seq<u8>| #[trigger] key_count(ms, k) <= usize::MAX by {
            lemma_merge_all_count(ms, k);
            if all_sensors@.contains_key(k) {
                let s = all_sensors.entry_seq();
                all_sensors.lemma_wf_view();
                let q = choose|q: int| 0 <= q < s.len() && #[trigger] s[q].0@ == k;
                lemma_view_at(s, q);
            }
        }
    }
    Some(all_sensors.into_entries())
}

} // verus!
