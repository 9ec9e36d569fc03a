//! The report text: `{key=min/avg/max, ...}`, each number with one fractional digit.
use crate::stats::{Sensor, Stats};
use vstd::arithmetic::div_mod::{lemma_fundamental_div_mod, lemma_mod_pos_bound};
use vstd::prelude::*;

verus! {

/// Decimal digits of `n`, most significant first.
pub open spec fn decimal(n: nat) -> Seq<u8>
    decreases n,
{
    if n < 10 {
        seq![(48 + n) as u8]
    } else {
        decimal(n / 10).push((48 + n % 10) as u8)
    }
}

/// `mag` tenths written with one fractional digit, with a minus sign when `neg` and the
/// magnitude is not zero.
pub open spec fn tenths_text(neg: bool, mag: nat) -> Seq<u8> {
    (if neg && mag > 0 { seq![45u8] } else { Seq::empty() }) + decimal(mag / 10) + seq![
        46u8,
        (48 + mag % 10) as u8,
    ]
}

pub open spec fn abs(v: int) -> nat {
    if v < 0 { (-v) as nat } else { v as nat }
}

/// `v` tenths written with one fractional digit.
pub open spec fn value_text(v: int) -> Seq<u8> {
    tenths_text(v < 0, abs(v))
}

/// `a / b` rounded to the nearest whole number, halves away from zero.
pub open spec fn rounded_div(a: nat, b: nat) -> nat {
    if 2 * (a % b) >= b { a / b + 1 } else { a / b }
}

/// The average of `s`, in tenths, written with one fractional digit.
pub open spec fn avg_text(s: Stats) -> Seq<u8> {
    tenths_text(s.sum < 0, rounded_div(abs(s.sum), s.cnt))
}

/// `key=min/avg/max`.
pub open spec fn entry_text(k: Seq<u8>, s: Stats) -> Seq<u8> {
    k + seq![61u8] + value_text(s.min) + seq![47u8] + avg_text(s) + seq![47u8] + value_text(s.max)
}

/// The entries' texts joined by `, `.
pub open spec fn entries_text(es: Seq<(Vec<u8>, Sensor)>) -> Seq<u8>
    decreases es.len(),
{
    if es.len() == 0 {
        Seq::empty()
    } else if es.len() == 1 {
        entry_text(es[0].0@, es[0].1@)
    } else {
        entries_text(es.drop_last()) + seq![44u8, 32u8] + entry_text(es.last().0@, es.last().1@)
    }
}

/// The whole report: the entries' texts inside braces.
pub open spec fn report_text(es: Seq<(Vec<u8>, Sensor)>) -> Seq<u8> {
    seq![123u8] + entries_text(es) + seq![125u8]
}

fn push_decimal(out: &mut Vec<u8>, n: u64)
    ensures
        final(out)@ == old(out)@ + decimal(n as nat),
    decreases n,
{
    if n >= 10 {
        push_decimal(out, n / 10);
    }
    out.push(48u8 + (n % 10) as u8);
    proof {
        if n >= 10 {
            assert(old(out)@ + decimal(n as nat) =~= (old(out)@ + decimal((n / 10) as nat)).push(
                (48 + n % 10) as u8,
            ));
        } else {
            assert(old(out)@ + decimal(n as nat) =~= old(out)@.push((48 + n % 10) as u8));
        }
    }
}

fn push_tenths(out: &mut Vec<u8>, neg: bool, mag: u64)
    ensures
        final(out)@ == old(out)@ + tenths_text(neg, mag as nat),
{
    let ghost start = out@;
    if neg && mag > 0 {
        out.push(45u8);
    }
    let ghost signed = out@;
    push_decimal(out, mag / 10);
    out.push(46u8);
    out.push(48u8 + (mag % 10) as u8);
    proof {
        let sign: Seq<u8> = if neg && mag > 0 { seq![45u8] } else { Seq::empty() };
        assert(signed =~= start + sign);
        assert(out@ =~= start + tenths_text(neg, mag as nat));
    }
}

fn push_value(out: &mut Vec<u8>, v: i64)
    ensures
        final(out)@ == old(out)@ + value_text(v as int),
{
    let mag: u64 = if v < 0 {
        (-(v as i128)) as u64
    } else {
        v as u64
    };
    push_tenths(out, v < 0, mag);
}

fn push_avg(out: &mut Vec<u8>, s: &Sensor)
    requires
        s.wf(),
    ensures
        final(out)@ == old(out)@ + avg_text(s@),
{
    let a: u128 = if s.sum < 0 {
        (-s.sum) as u128
    } else {
        s.sum as u128
    };
    let c = s.cnt as u128;
    let q = a / c;
    let r = a % c;
    proof {
        let k: int = 0x8000_0000_0000_0000;
        lemma_fundamental_div_mod(a as int, c as int);
        lemma_mod_pos_bound(a as int, c as int);
        assert(a <= c * k);
        assert(q <= k && (q == k ==> r == 0)) by (nonlinear_arith)
            requires
                a == c * q + r,
                0 <= r < c,
                a <= c * k,
                c >= 1,
                q >= 0,
        ;
    }
    let mag: u64 = if 2 * r >= c {
        (q + 1) as u64
    } else {
        q as u64
    };
    push_tenths(out, s.sum < 0, mag);
}

fn push_entry(out: &mut Vec<u8>, key: &Vec<u8>, s: &Sensor)
    requires
        s.wf(),
    ensures
        final(out)@ == old(out)@ + entry_text(key@, s@),
{
    let ghost start = out@;
    let mut i: usize = 0;
    while i < key.len()
        invariant
            i <= key@.len(),
            out@ == start + key@.subrange(0, i as int),
        decreases key@.len() - i,
    {
        out.push(key[i]);
        i = i + 1;
        assert(out@ =~= start + key@.subrange(0, i as int));
    }
    assert(key@.subrange(0, i as int) =~= key@);
    out.push(61u8);
    push_value(out, s.min);
    out.push(47u8);
    push_avg(out, s);
    out.push(47u8);
    push_value(out, s.max);
    proof {
        assert(out@ =~= start + entry_text(key@, s@));
    }
}

/// Renders entries, in the order given, as `{key=min/avg/max, ...}`.
pub fn write_results(sensors: &[(Vec<u8>, Sensor)]) -> (text: Vec<u8>)
    requires
        forall|i: int| 0 <= i < sensors@.len() ==> (#[trigger] sensors@[i]).1.wf(),
    ensures
        text@ == report_text(sensors@),
{
    let mut out: Vec<u8> = Vec::new();
    out.push(123u8);
    let mut i: usize = 0;
    while i < sensors.len()
        invariant
            i <= sensors@.len(),
            forall|j: int| 0 <= j < sensors@.len() ==> (#[trigger] sensors@[j]).1.wf(),
            out@ == seq![123u8] + entries_text(sensors@.subrange(0, i as int)),
        decreases sensors@.len() - i,
    {
        let ghost before = out@;
        let ghost sub = sensors@.subrange(0, i + 1);
        assert(sub.drop_last() =~= sensors@.subrange(0, i as int));
        if i > 0 {
            out.push(44u8);
            out.push(32u8);
        }
        push_entry(&mut out, &sensors[i].0, &sensors[i].1);
        proof {
            if i > 0 {
                assert(out@ =~= seq![123u8] + entries_text(sub));
            } else {
                assert(out@ =~= seq![123u8] + entries_text(sub));
            }
        }
        i = i + 1;
    }
    assert(sensors@.subrange(0, i as int) =~= sensors@);
    out.push(125u8);
    out
}

} // verus!
