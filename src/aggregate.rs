//! One pass over a chunk's bytes: records `key;value\n` folded into per-key statistics.
use crate::chunker::{find_byte, lemma_next_byte_bounds, next_byte, LF};
use crate::stats::Stats;
use crate::summary::{observe, SummaryMap};
use crate::value::{parse_tenths, parse_value};
use vstd::prelude::*;

verus! {

/// Separator between key and value.
pub const SEMI: u8 = 59;

/// Why a line is not a record.
#[derive(Clone, Copy, Debug, PartialEq, Eq, Structural)]
pub enum LineError {
    /// A non-empty line without `;`.
    MissingSeparator,
    /// The text after the first `;` is not `['-'] digits '.' digit` within `i64` tenths.
    InvalidValue,
}

/// `r` put in front of the records of `rest`, or the error of `rest`.
pub open spec fn prepend(
    r: Seq<(Seq<u8>, int)>,
    rest: Result<Seq<(Seq<u8>, int)>, LineError>,
) -> Result<Seq<(Seq<u8>, int)>, LineError> {
    match rest {
        Ok(t) => Ok(r + t),
        Err(e) => Err(e),
    }
}

/// The records (key, value in tenths) of the lines of `d` from offset `i` on, or the error
/// of the first line that is not a record. Empty lines are skipped; a last line without a
/// line feed counts as a line.
pub open spec fn records_from(d: Seq<u8>, i: int) -> Result<Seq<(Seq<u8>, int)>, LineError>
    decreases d.len() - i,
{
    let e = next_byte(d, i, LF);
    if i >= d.len() || e < i {
        Ok(Seq::empty())
    } else {
        let rest = records_from(d, if e < d.len() { e + 1 } else { d.len() as int });
        let s = next_byte(d, i, SEMI);
        if e == i {
            rest
        } else if s >= e {
            Err(LineError::MissingSeparator)
        } else {
            match parse_tenths(d.subrange(s + 1, e)) {
                None => Err(LineError::InvalidValue),
                Some(v) => prepend(seq![(d.subrange(i, s), v)], rest),
            }
        }
    }
}

/// Statistics per key of records `r`, taken in order.
pub open spec fn tally(r: Seq<(Seq<u8>, int)>) -> Map<Seq<u8>, Stats>
    decreases r.len(),
{
    if r.len() == 0 {
        Map::empty()
    } else {
        observe(tally(r.drop_last()), r.last().0, r.last().1)
    }
}

/// What a chunk with bytes `d` aggregates to.
pub open spec fn summarize(d: Seq<u8>) -> Result<Map<Seq<u8>, Stats>, LineError> {
    match records_from(d, 0) {
        Ok(r) => Ok(tally(r)),
        Err(e) => Err(e),
    }
}

/// Aggregates the records of one chunk into per-key statistics.
pub fn process_chunk(data: &[u8]) -> (r: Result<SummaryMap, LineError>)
    ensures
        r matches Ok(m) ==> m.wf() && summarize(data@) == Ok::<_, LineError>(m@),
        r matches Ok(m) ==> forall|k: Seq<u8>| #[trigger] m@.contains_key(k) ==> m@[k].cnt <= data@.len(),
        r matches Err(e) ==> summarize(data@) == Err::<Map<Seq<u8>, Stats>, _>(e),
{
    let ghost d = data@;
    let len = data.len();
    let mut sensors = SummaryMap::new();
    let mut prev: usize = 0;
    let ghost mut done: Seq<(Seq<u8>, int)> = Seq::empty();
    proof {
        assert(done + Seq::<(Seq<u8>, int)>::empty() =~= done);
        match records_from(d, 0) {
            Ok(t) => assert(done + t =~= t),
            Err(_) => {},
        }
    }
    while prev < len
        invariant
            d == data@,
            len == d.len(),
            prev <= len,
            sensors.wf(),
            sensors@ == tally(done),
            done.len() <= prev,
            forall|k: Seq<u8>| #[trigger] sensors@.contains_key(k) ==> sensors@[k].cnt <= done.len(),
            records_from(d, 0) == prepend(done, records_from(d, prev as int)),
        decreases len - prev,
    {
        let e = find_byte(data, prev, LF);
        proof {
            lemma_next_byte_bounds(d, prev as int, LF);
        }
        if e == prev {
            prev = prev + 1;
            continue;
        }
        let s = find_byte(data, prev, SEMI);
        proof {
            lemma_next_byte_bounds(d, prev as int, SEMI);
        }
        if s >= e {
            return Err(LineError::MissingSeparator);
        }
        let value = parse_value(&data[s + 1..e]);
        match value {
            None => {
                return Err(LineError::InvalidValue);
            },
            Some(v) => {
                let key = &data[prev..s];
                let ghost rec = (key@, v as int);
                sensors.record(key, v);
                let next: usize = if e < len {
                    e + 1
                } else {
                    len
                };
                proof {
                    let old_done = done;
                    done = done.push(rec);
                    assert(done.drop_last() =~= old_done);
                    match records_from(d, next as int) {
                        Ok(t) => assert(old_done + (seq![rec] + t) =~= done + t),
                        Err(_) => {},
                    }
                }
                prev = next;
            },
        }
    }
    proof {
        assert(done + Seq::<(Seq<u8>, int)>::empty() =~= done);
    }
    Ok(sensors)
}

} // verus!
