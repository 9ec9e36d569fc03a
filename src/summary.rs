//! Per-key statistics, held in a vector ordered by key.
use crate::key::{compare_keys, copy_key, key_lt, lemma_key_lt_irreflexive, lemma_key_lt_transitive};
use crate::merge::merge_maps;
use crate::stats::{stats_add, stats_merge, stats_new, Sensor, Stats};
use core::cmp::Ordering;
use vstd::prelude::*;

verus! {

/// Keys strictly increase along `s`.
pub open spec fn keys_sorted(s: Seq<(Vec<u8>, Sensor)>) -> bool {
    forall|i: int, j: int| 0 <= i < j < s.len() ==> key_lt(#[trigger] s[i].0@, #[trigger] s[j].0@)
}

/// `s` holds an entry for key `k`.
pub open spec fn has_key(s: Seq<(Vec<u8>, Sensor)>, k: Seq<u8>) -> bool {
    exists|i: int| 0 <= i < s.len() && #[trigger] s[i].0@ == k
}

/// The map from key to statistics that entries `s` stand for.
pub open spec fn entries_view(s: Seq<(Vec<u8>, Sensor)>) -> Map<Seq<u8>, Stats> {
    Map::new(
        |k: Seq<u8>| has_key(s, k),
        |k: Seq<u8>| s[choose|i: int| 0 <= i < s.len() && #[trigger] s[i].0@ == k].1@,
    )
}

/// Entries ordered by key, each with well-formed statistics.
pub open spec fn entries_wf(s: Seq<(Vec<u8>, Sensor)>) -> bool {
    &&& keys_sorted(s)
    &&& forall|i: int| 0 <= i < s.len() ==> (#[trigger] s[i]).1.wf()
}

/// `m` after one observation `v` of key `k`.
pub open spec fn observe(m: Map<Seq<u8>, Stats>, k: Seq<u8>, v: int) -> Map<Seq<u8>, Stats> {
    if m.contains_key(k) {
        m.insert(k, stats_add(m[k], v))
    } else {
        m.insert(k, stats_new(v))
    }
}

/// `m` after folding in statistics `s` of key `k`.
pub open spec fn absorb_entry(m: Map<Seq<u8>, Stats>, k: Seq<u8>, s: Stats) -> Map<Seq<u8>, Stats> {
    if m.contains_key(k) {
        m.insert(k, stats_merge(m[k], s))
    } else {
        m.insert(k, s)
    }
}

pub proof fn lemma_sorted_distinct(s: Seq<(Vec<u8>, Sensor)>, i: int, j: int)
    requires
        keys_sorted(s),
        0 <= i < s.len(),
        0 <= j < s.len(),
        i != j,
    ensures
        s[i].0@ != s[j].0@,
{
    lemma_key_lt_irreflexive(s[i].0@);
    if i < j {
        assert(key_lt(s[i].0@, s[j].0@));
    } else {
        assert(key_lt(s[j].0@, s[i].0@));
    }
}

pub proof fn lemma_view_at(s: Seq<(Vec<u8>, Sensor)>, i: int)
    requires
        keys_sorted(s),
        0 <= i < s.len(),
    ensures
        entries_view(s).contains_key(s[i].0@),
        entries_view(s)[s[i].0@] == s[i].1@,
{
    let k = s[i].0@;
    assert(has_key(s, k));
    let j = choose|j: int| 0 <= j < s.len() && #[trigger] s[j].0@ == k;
    if j != i {
        lemma_sorted_distinct(s, i, j);
    }
}

proof fn lemma_view_update(s: Seq<(Vec<u8>, Sensor)>, i: int, e: (Vec<u8>, Sensor))
    requires
        keys_sorted(s),
        0 <= i < s.len(),
        e.0@ == s[i].0@,
    ensures
        keys_sorted(s.update(i, e)),
        entries_view(s.update(i, e)) == entries_view(s).insert(e.0@, e.1@),
{
    let s2 = s.update(i, e);
    assert(keys_sorted(s2)) by {
        assert forall|a: int, b: int| 0 <= a < b < s2.len() implies key_lt(
            #[trigger] s2[a].0@,
            #[trigger] s2[b].0@,
        ) by {
            assert(key_lt(s[a].0@, s[b].0@));
        }
    }
    let m1 = entries_view(s2);
    let m2 = entries_view(s).insert(e.0@, e.1@);
    assert forall|k: Seq<u8>| m1.contains_key(k) <==> m2.contains_key(k) by {
        if has_key(s, k) {
            let j = choose|j: int| 0 <= j < s.len() && #[trigger] s[j].0@ == k;
            assert(s2[j].0@ == k);
        }
        if has_key(s2, k) {
            let j = choose|j: int| 0 <= j < s2.len() && #[trigger] s2[j].0@ == k;
            assert(s[j].0@ == k);
        }
    }
    assert forall|k: Seq<u8>| #[trigger] m1.contains_key(k) implies m1[k] == m2[k] by {
        let j = choose|j: int| 0 <= j < s2.len() && #[trigger] s2[j].0@ == k;
        lemma_view_at(s2, j);
        if j != i {
            lemma_view_at(s, j);
        }
    }
    assert(m1 =~= m2);
}

pub proof fn lemma_view_insert(s: Seq<(Vec<u8>, Sensor)>, p: int, e: (Vec<u8>, Sensor))
    requires
        keys_sorted(s),
        0 <= p <= s.len(),
        forall|i: int| 0 <= i < p ==> key_lt(#[trigger] s[i].0@, e.0@),
        forall|i: int| p <= i < s.len() ==> key_lt(e.0@, #[trigger] s[i].0@),
    ensures
        keys_sorted(s.insert(p, e)),
        entries_view(s.insert(p, e)) == entries_view(s).insert(e.0@, e.1@),
{
    let s2 = s.insert(p, e);
    assert(keys_sorted(s2)) by {
        assert forall|a: int, b: int| 0 <= a < b < s2.len() implies key_lt(
            #[trigger] s2[a].0@,
            #[trigger] s2[b].0@,
        ) by {
            if b < p {
                assert(key_lt(s[a].0@, s[b].0@));
            } else if b == p {
            } else if a < p {
                assert(key_lt(s[a].0@, s[b - 1].0@));
            } else if a == p {
            } else {
                assert(key_lt(s[a - 1].0@, s[b - 1].0@));
            }
        }
    }
    let m1 = entries_view(s2);
    let m2 = entries_view(s).insert(e.0@, e.1@);
    assert forall|k: Seq<u8>| m1.contains_key(k) <==> m2.contains_key(k) by {
        if has_key(s, k) {
            let j = choose|j: int| 0 <= j < s.len() && #[trigger] s[j].0@ == k;
            if j < p {
                assert(s2[j].0@ == k);
            } else {
                assert(s2[j + 1].0@ == k);
            }
        }
        if k == e.0@ {
            assert(s2[p].0@ == k);
        }
        if has_key(s2, k) {
            let j = choose|j: int| 0 <= j < s2.len() && #[trigger] s2[j].0@ == k;
            if j < p {
                assert(s[j].0@ == k);
            } else if j > p {
                assert(s[j - 1].0@ == k);
            }
        }
    }
    assert forall|k: Seq<u8>| #[trigger] m1.contains_key(k) implies m1[k] == m2[k] by {
        let j = choose|j: int| 0 <= j < s2.len() && #[trigger] s2[j].0@ == k;
        lemma_view_at(s2, j);
        if j < p {
            lemma_view_at(s, j);
            lemma_key_lt_irreflexive(k);
        } else if j > p {
            lemma_view_at(s, j - 1);
            lemma_key_lt_irreflexive(k);
        }
    }
    assert(m1 =~= m2);
}

/// Statistics of each key seen, ordered by key.
pub struct SummaryMap {
    entries: Vec<(Vec<u8>, Sensor)>,
}

impl View for SummaryMap {
    type V = Map<Seq<u8>, Stats>;

    closed spec fn view(&self) -> Map<Seq<u8>, Stats> {
        entries_view(self.entries@)
    }
}

impl SummaryMap {
    /// Keys are ordered and unique; every sensor is well formed.
    pub closed spec fn wf(&self) -> bool {
        entries_wf(self.entries@)
    }

    /// The entries, in key order.
    pub closed spec fn entry_seq(&self) -> Seq<(Vec<u8>, Sensor)> {
        self.entries@
    }

    pub proof fn lemma_wf_view(&self)
        requires
            self.wf(),
        ensures
            entries_wf(self.entry_seq()),
            entries_view(self.entry_seq()) == self@,
            forall|k: Seq<u8>| #[trigger] self@.contains_key(k) ==> self@[k].cnt >= 1,
    {
        assert forall|k: Seq<u8>| #[trigger] self@.contains_key(k) implies self@[k].cnt >= 1 by {
            let j = choose|j: int| 0 <= j < self.entries@.len() && #[trigger] self.entries@[j].0@ == k;
            lemma_view_at(self.entries@, j);
        }
    }

    /// An empty map.
    pub fn new() -> (m: SummaryMap)
        ensures
            m.wf(),
            m@ == Map::<Seq<u8>, Stats>::empty(),
    {
        let m = SummaryMap { entries: Vec::new() };
        assert(m@ =~= Map::<Seq<u8>, Stats>::empty());
        m
    }

    /// Number of keys.
    pub fn len(&self) -> (n: usize)
        requires
            self.wf(),
        ensures
            n == self@.dom().len(),
    {
        proof {
            self.lemma_dom_len();
        }
        self.entries.len()
    }

    proof fn lemma_dom_len(&self)
        requires
            self.wf(),
        ensures
            self@.dom().len() == self.entries@.len(),
    {
        let s = self.entries@;
        let keys = Seq::new(s.len(), |i: int| s[i].0@);
        assert forall|i: int, j: int| 0 <= i < j < keys.len() implies keys[i] != keys[j] by {
            lemma_sorted_distinct(s, i, j);
        }
        keys.unique_seq_to_set();
        assert(self@.dom() =~= keys.to_set()) by {
            assert forall|k: Seq<u8>| self@.dom().contains(k) implies keys.to_set().contains(k) by {
                let j = choose|j: int| 0 <= j < s.len() && #[trigger] s[j].0@ == k;
                assert(keys[j] == k);
            }
            assert forall|k: Seq<u8>| keys.to_set().contains(k) implies self@.dom().contains(k) by {
                let j = choose|j: int| 0 <= j < keys.len() && keys[j] == k;
                assert(s[j].0@ == k);
            }
        }
    }

    /// Position of `key` (`Ok`), or where it would be inserted (`Err`).
    fn find(&self, key: &[u8]) -> (r: Result<usize, usize>)
        requires
            self.wf(),
        ensures
            r matches Ok(i) ==> i < self.entries@.len() && self.entries@[i as int].0@ == key@,
            r matches Err(p) ==> p <= self.entries@.len() && (forall|i: int|
                0 <= i < p ==> key_lt(#[trigger] self.entries@[i].0@, key@)) && (forall|i: int|
                p <= i < self.entries@.len() ==> key_lt(key@, #[trigger] self.entries@[i].0@)),
    {
        let ghost s = self.entries@;
        let mut lo: usize = 0;
        let mut hi: usize = self.entries.len();
        while lo < hi
            invariant
                s == self.entries@,
                keys_sorted(s),
                lo <= hi <= s.len(),
                forall|i: int| 0 <= i < lo ==> key_lt(#[trigger] s[i].0@, key@),
                forall|i: int| hi <= i < s.len() ==> key_lt(key@, #[trigger] s[i].0@),
            decreases hi - lo,
        {
            let mid = lo + (hi - lo) / 2;
            match compare_keys(self.entries[mid].0.as_slice(), key) {
                Ordering::Less => {
                    assert forall|i: int| 0 <= i <= mid implies key_lt(#[trigger] s[i].0@, key@) by {
                        if i < mid {
                            lemma_key_lt_transitive(s[i].0@, s[mid as int].0@, key@);
                        }
                    }
                    lo = mid + 1;
                },
                Ordering::Equal => {
                    return Ok(mid);
                },
                Ordering::Greater => {
                    assert forall|i: int| mid <= i < s.len() implies key_lt(key@, #[trigger] s[i].0@) by {
                        if i > mid {
                            lemma_key_lt_transitive(key@, s[mid as int].0@, s[i].0@);
                        }
                    }
                    hi = mid;
                },
            }
        }
        Err(lo)
    }

    /// The statistics of `key`, if it was seen.
    pub fn get(&self, key: &[u8]) -> (r: Option<Sensor>)
        requires
            self.wf(),
        ensures
            r matches Some(s) ==> self@.contains_key(key@) && self@[key@] == s@ && s.wf(),
            r is None ==> !self@.contains_key(key@),
    {
        match self.find(key) {
            Ok(i) => {
                proof {
                    lemma_view_at(self.entries@, i as int);
                }
                Some(self.entries[i].1)
            },
            Err(p) => {
                proof {
                    if self@.contains_key(key@) {
                        let s = self.entries@;
                        let j = choose|j: int| 0 <= j < s.len() && #[trigger] s[j].0@ == key@;
                        lemma_key_lt_irreflexive(key@);
                        if j < p {
                            assert(key_lt(s[j].0@, key@));
                        } else {
                            assert(key_lt(key@, s[j].0@));
                        }
                    }
                }
                None
            },
        }
    }

    /// Records one observation `temp` of `key`.
    pub fn record(&mut self, key: &[u8], temp: i64)
        requires
            old(self).wf(),
            old(self)@.contains_key(key@) ==> old(self)@[key@].cnt < usize::MAX,
        ensures
            final(self).wf(),
            final(self)@ == observe(old(self)@, key@, temp as int),
    {
        let ghost s = self.entries@;
        match self.find(key) {
            Ok(i) => {
                proof {
                    lemma_view_at(s, i as int);
                }
                let mut sensor = self.entries[i].1;
                sensor.add_temp(temp);
                let k = self.entries[i].0.clone();
                self.entries.set(i, (k, sensor));
                proof {
                    lemma_view_update(s, i as int, (k, sensor));
                }
            },
            Err(p) => {
                proof {
                    self.lemma_absent(key@, p as int);
                }
                let sensor = Sensor::new(temp);
                let k = copy_key(key);
                self.entries.insert(p, (k, sensor));
                proof {
                    lemma_view_insert(s, p as int, (k, sensor));
                }
            },
        }
    }

    proof fn lemma_absent(&self, key: Seq<u8>, p: int)
        requires
            keys_sorted(self.entries@),
            0 <= p <= self.entries@.len(),
            forall|i: int| 0 <= i < p ==> key_lt(#[trigger] self.entries@[i].0@, key),
            forall|i: int| p <= i < self.entries@.len() ==> key_lt(key, #[trigger] self.entries@[i].0@),
        ensures
            !self@.contains_key(key),
    {
        if self@.contains_key(key) {
            let s = self.entries@;
            let j = choose|j: int| 0 <= j < s.len() && #[trigger] s[j].0@ == key;
            lemma_key_lt_irreflexive(key);
            if j < p {
                assert(key_lt(s[j].0@, key));
            } else {
                assert(key_lt(key, s[j].0@));
            }
        }
    }

    /// Folds statistics `sensor` of `key` into the map. Returns `false`, and leaves the map
    /// unchanged, when the combined count would not fit in `usize`.
    pub fn absorb(&mut self, key: &[u8], sensor: &Sensor) -> (ok: bool)
        requires
            old(self).wf(),
            sensor.wf(),
        ensures
            final(self).wf(),
            ok == (old(self)@.contains_key(key@) ==> old(self)@[key@].cnt + sensor.cnt
                <= usize::MAX),
            ok ==> final(self)@ == absorb_entry(old(self)@, key@, sensor@),
            !ok ==> final(self)@ == old(self)@,
    {
        let ghost s = self.entries@;
        match self.find(key) {
            Ok(i) => {
                proof {
                    lemma_view_at(s, i as int);
                }
                let mut merged = self.entries[i].1;
                if merged.cnt > usize::MAX - sensor.cnt {
                    return false;
                }
                merged.merge(sensor);
                let k = self.entries[i].0.clone();
                self.entries.set(i, (k, merged));
                proof {
                    lemma_view_update(s, i as int, (k, merged));
                }
                true
            },
            Err(p) => {
                proof {
                    self.lemma_absent(key@, p as int);
                }
                let k = copy_key(key);
                self.entries.insert(p, (k, *sensor));
                proof {
                    lemma_view_insert(s, p as int, (k, *sensor));
                }
                true
            },
        }
    }

    /// Folds all of `other` into this map. Returns `false` when some key's combined count
    /// would not fit in `usize`; the map is then well formed but only partly merged.
    pub fn merge_from(&mut self, other: &SummaryMap) -> (ok: bool)
        requires
            old(self).wf(),
            other.wf(),
        ensures
            final(self).wf(),
            ok == (forall|k: Seq<u8>|
                old(self)@.contains_key(k) && #[trigger] other@.contains_key(k) ==> old(self)@[k].cnt
                    + other@[k].cnt <= usize::MAX),
            ok ==> final(self)@ == merge_maps(old(self)@, other@),
    {
        let entries = other.entries();
        let ghost e = entries@;
        let ghost before = self@;
        proof {
            assert(entries_view(e.subrange(0, 0)) =~= Map::<Seq<u8>, Stats>::empty());
            assert(merge_maps(before, Map::empty()) =~= before);
        }
        let mut t: usize = 0;
        while t < entries.len()
            invariant
                e == entries@,
                entries_wf(e),
                entries_view(e) == other@,
                before == old(self)@,
                t <= e.len(),
                self.wf(),
                self@ == merge_maps(before, entries_view(e.subrange(0, t as int))),
                forall|q: int|
                    0 <= q < t ==> (before.contains_key(#[trigger] e[q].0@) ==> before[e[q].0@].cnt
                        + e[q].1.cnt <= usize::MAX),
            decreases e.len() - t,
        {
            let ghost sub = e.subrange(0, t as int);
            let ghost k = e[t as int].0@;
            proof {
                assert(keys_sorted(sub));
                assert(e.subrange(0, t + 1) =~= sub.insert(t as int, e[t as int]));
                lemma_view_insert(sub, t as int, e[t as int]);
                if entries_view(sub).contains_key(k) {
                    let q = choose|q: int| 0 <= q < sub.len() && #[trigger] sub[q].0@ == k;
                    assert(e[q].0@ == k);
                    lemma_key_lt_irreflexive(k);
                }
                assert(merge_maps(before, entries_view(sub).insert(k, e[t as int].1@)) =~= absorb_entry(
                    merge_maps(before, entries_view(sub)),
                    k,
                    e[t as int].1@,
                ));
                lemma_view_at(e, t as int);
            }
            let ok = self.absorb(entries[t].0.as_slice(), &entries[t].1);
            if !ok {
                proof {
                    assert(!entries_view(sub).contains_key(k));
                    assert(before.contains_key(k) && other@.contains_key(k) && before[k].cnt
                        + other@[k].cnt > usize::MAX);
                    assert(before == old(self)@);
                }
                return false;
            }
            t = t + 1;
        }
        proof {
            assert(e.subrange(0, t as int) =~= e);
            assert forall|k: Seq<u8>|
                before.contains_key(k) && #[trigger] other@.contains_key(k) implies before[k].cnt
                + other@[k].cnt <= usize::MAX by {
                let q = choose|q: int| 0 <= q < e.len() && #[trigger] e[q].0@ == k;
                lemma_view_at(e, q);
            }
        }
        true
    }

    /// The entries, in ascending key order.
    pub fn into_entries(self) -> (r: Vec<(Vec<u8>, Sensor)>)
        requires
            self.wf(),
        ensures
            r@ == self.entry_seq(),
            entries_wf(r@),
            entries_view(r@) == self@,
    {
        self.entries
    }

    /// The entries, in ascending key order, without giving up the map.
    pub fn entries(&self) -> (r: &Vec<(Vec<u8>, Sensor)>)
        requires
            self.wf(),
        ensures
            r@ == self.entry_seq(),
            entries_wf(r@),
            entries_view(r@) == self@,
    {
        &self.entries
    }
}

} // verus!
