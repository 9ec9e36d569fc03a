//! Decimal values with exactly one fractional digit, read as a whole number of tenths.
use vstd::prelude::*;

verus! {

pub open spec fn is_digit(b: u8) -> bool {
    48 <= b <= 57
}

pub open spec fn all_digits(s: Seq<u8>) -> bool {
    forall|i: int| 0 <= i < s.len() ==> is_digit(#[trigger] s[i])
}

/// The number that decimal digits `s` spell (0 for none).
pub open spec fn digits_value(s: Seq<u8>) -> nat
    decreases s.len(),
{
    if s.len() == 0 {
        0
    } else {
        digits_value(s.drop_last()) * 10 + (s.last() - 48) as nat
    }
}

/// The magnitude, in tenths, that `s` spells as `digits '.' digit`.
pub open spec fn unsigned_tenths(s: Seq<u8>) -> Option<nat> {
    let n = s.len();
    if n >= 3 && s[n - 2] == 46 && all_digits(s.subrange(0, n - 2)) && is_digit(s[n - 1]) {
        Some(digits_value(s.subrange(0, n - 2)) * 10 + (s[n - 1] - 48) as nat)
    } else {
        None
    }
}

/// The value, in tenths, that `s` spells as `['-'] digits '.' digit`; `None` when `s` has
/// another shape or the magnitude exceeds `i64::MAX` tenths.
pub open spec fn parse_tenths(s: Seq<u8>) -> Option<int> {
    let neg = s.len() > 0 && s[0] == 45;
    let body = if neg { s.drop_first() } else { s };
    match unsigned_tenths(body) {
        Some(m) => if m <= i64::MAX {
            Some(if neg { -m } else { m as int })
        } else {
            None
        },
        None => None,
    }
}

proof fn lemma_digits_prefix_le(s: Seq<u8>, n: int)
    requires
        0 <= n <= s.len(),
    ensures
        digits_value(s.subrange(0, n)) <= digits_value(s),
    decreases s.len(),
{
    if n < s.len() {
        assert(s.drop_last().subrange(0, n) =~= s.subrange(0, n));
        lemma_digits_prefix_le(s.drop_last(), n);
    } else {
        assert(s.subrange(0, n) =~= s);
    }
}

/// Reads `s` as `['-'] digits '.' digit`, in tenths.
pub fn parse_value(s: &[u8]) -> (r: Option<i64>)
    ensures
        r matches Some(v) ==> parse_tenths(s@) == Some(v as int),
        r is None ==> parse_tenths(s@) is None,
{
    let n = s.len();
    let neg = n > 0 && s[0] == 45u8;
    let start: usize = if neg { 1 } else { 0 };
    let ghost body = if neg { s@.drop_first() } else { s@ };
    proof {
        assert(body =~= s@.subrange(start as int, n as int));
    }
    if n - start < 3 || s[n - 2] != 46u8 || !(48u8 <= s[n - 1] && s[n - 1] <= 57u8) {
        return None;
    }
    let dot = n - 2;
    let ghost int_part = body.subrange(0, body.len() - 2);
    let mut acc: i64 = 0;
    let mut i: usize = start;
    while i < dot
        invariant
            start <= i <= dot,
            dot == n - 2,
            n == s@.len(),
            body == s@.subrange(start as int, n as int),
            neg == (s@.len() > 0 && s@[0] == 45),
            body == (if neg { s@.drop_first() } else { s@ }),
            int_part == body.subrange(0, body.len() - 2),
            all_digits(s@.subrange(start as int, i as int)),
            acc == digits_value(s@.subrange(start as int, i as int)),
        decreases dot - i,
    {
        let b = s[i];
        if !(48u8 <= b && b <= 57u8) {
            proof {
                assert(int_part[i - start] == s@[i as int]);
                assert(!is_digit(int_part[i - start]));
                assert(!all_digits(int_part));
            }
            return None;
        }
        let d = (b - 48u8) as i64;
        let ghost prefix = s@.subrange(start as int, i + 1);
        proof {
            assert(prefix.drop_last() =~= s@.subrange(start as int, i as int));
        }
        if acc > (i64::MAX - d) / 10 {
            proof {
                assert(prefix =~= int_part.subrange(0, i + 1 - start));
                lemma_all_digits_extend(s@, start as int, i as int);
                lemma_digits_prefix_le(int_part, i + 1 - start);
                assert(digits_value(prefix) == acc * 10 + d);
                assert(acc * 10 + d > i64::MAX) by (nonlinear_arith)
                    requires
                        acc > (i64::MAX - d) / 10,
                        0 <= d <= 9,
                ;
            }
            return None;
        }
        acc = acc * 10 + d;
        proof {
            lemma_all_digits_extend(s@, start as int, i as int);
        }
        i = i + 1;
    }
    proof {
        assert(s@.subrange(start as int, i as int) =~= int_part);
    }
    let f = (s[n - 1] - 48u8) as i64;
    if acc > (i64::MAX - f) / 10 {
        return None;
    }
    let m = acc * 10 + f;
    if neg {
        Some(-m)
    } else {
        Some(m)
    }
}

proof fn lemma_all_digits_extend(s: Seq<u8>, a: int, i: int)
    requires
        0 <= a <= i < s.len(),
        all_digits(s.subrange(a, i)),
        is_digit(s[i]),
    ensures
        all_digits(s.subrange(a, i + 1)),
{
    assert forall|t: int| 0 <= t < i + 1 - a implies is_digit(#[trigger] s.subrange(a, i + 1)[t]) by {
        if t < i - a {
            assert(s.subrange(a, i + 1)[t] == s.subrange(a, i)[t]);
        }
    }
}

} // verus!
