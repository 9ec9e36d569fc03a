//! Running statistics of one key. Values are kept in tenths: `-12.3` is `-123`.
use vstd::prelude::*;

verus! {

/// Bound on the magnitude of one value, in tenths.
pub const VALUE_BOUND: i128 = 0x8000_0000_0000_0000;

/// The mathematical content of a `Sensor`.
pub struct Stats {
    pub min: int,
    pub max: int,
    pub sum: int,
    pub cnt: nat,
}

/// The statistics of a key seen once, with value `v`.
pub open spec fn stats_new(v: int) -> Stats {
    Stats { min: v, max: v, sum: v, cnt: 1 }
}

/// `s` after one more observation `v`.
pub open spec fn stats_add(s: Stats, v: int) -> Stats {
    Stats {
        min: if v < s.min { v } else { s.min },
        max: if v > s.max { v } else { s.max },
        sum: s.sum + v,
        cnt: s.cnt + 1,
    }
}

/// The statistics of two disjoint sets of observations, combined.
pub open spec fn stats_merge(a: Stats, b: Stats) -> Stats {
    Stats {
        min: if b.min < a.min { b.min } else { a.min },
        max: if b.max > a.max { b.max } else { a.max },
        sum: a.sum + b.sum,
        cnt: a.cnt + b.cnt,
    }
}

/// Minimum, maximum, sum and count of the values seen for one key.
#[derive(Clone, Copy, Debug, PartialEq, Eq, Structural)]
pub struct Sensor {
    pub min: i64,
    pub max: i64,
    pub sum: i128,
    pub cnt: usize,
}

impl View for Sensor {
    type V = Stats;

    open spec fn view(&self) -> Stats {
        Stats { min: self.min as int, max: self.max as int, sum: self.sum as int, cnt: self.cnt as nat }
    }
}

impl Sensor {
    /// At least one observation, `min <= max`, and a sum that fits what the count allows.
    pub open spec fn wf(&self) -> bool {
        &&& self.cnt >= 1
        &&& self.min <= self.max
        &&& -(self.cnt * VALUE_BOUND) <= self.sum <= self.cnt * VALUE_BOUND
    }

    /// A sensor seeded with its first value.
    pub fn new(temp: i64) -> (s: Sensor)
        ensures
            s@ == stats_new(temp as int),
            s.wf(),
    {
        Sensor { min: temp, max: temp, sum: temp as i128, cnt: 1 }
    }

    /// Records one more value.
    pub fn add_temp(&mut self, temp: i64)
        requires
            old(self).wf(),
            old(self).cnt < usize::MAX,
        ensures
            final(self)@ == stats_add(old(self)@, temp as int),
            final(self).wf(),
    {
        if temp < self.min {
            self.min = temp;
        }
        if temp > self.max {
            self.max = temp;
        }
        self.sum = self.sum + temp as i128;
        self.cnt = self.cnt + 1;
    }

    /// Folds in the statistics of other observations of the same key.
    pub fn merge(&mut self, sensor: &Sensor)
        requires
            old(self).wf(),
            sensor.wf(),
            old(self).cnt + sensor.cnt <= usize::MAX,
        ensures
            final(self)@ == stats_merge(old(self)@, sensor@),
            final(self).wf(),
    {
        if self.min > sensor.min {
            self.min = sensor.min;
        }
        if self.max < sensor.max {
            self.max = sensor.max;
        }
        self.sum = self.sum + sensor.sum;
        self.cnt = self.cnt + sensor.cnt;
    }
}

} // verus!
