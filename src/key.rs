//! Byte-wise lexicographic order on record keys.
use core::cmp::Ordering;
use vstd::prelude::*;

verus! {

/// `i` is where `a` and `b` first part, and `a` comes first there: either `a` ends at `i`
/// while `b` goes on, or both go on and `a`'s byte is the smaller.
pub open spec fn first_below_at(a: Seq<u8>, b: Seq<u8>, i: int) -> bool {
    &&& 0 <= i <= a.len()
    &&& i <= b.len()
    &&& a.subrange(0, i) == b.subrange(0, i)
    &&& if i < a.len() {
        i < b.len() && a[i] < b[i]
    } else {
        i < b.len()
    }
}

/// `a` sorts strictly before `b` in byte-wise lexicographic order.
pub open spec fn key_lt(a: Seq<u8>, b: Seq<u8>) -> bool {
    exists|i: int| #[trigger] first_below_at(a, b, i)
}

pub proof fn lemma_key_lt_irreflexive(a: Seq<u8>)
    ensures
        !key_lt(a, a),
{
    if key_lt(a, a) {
        let i = choose|i: int| #[trigger] first_below_at(a, a, i);
        assert(first_below_at(a, a, i));
    }
}

pub proof fn lemma_key_lt_transitive(a: Seq<u8>, b: Seq<u8>, c: Seq<u8>)
    requires
        key_lt(a, b),
        key_lt(b, c),
    ensures
        key_lt(a, c),
{
    let i = choose|i: int| #[trigger] first_below_at(a, b, i);
    let j = choose|j: int| #[trigger] first_below_at(b, c, j);
    let m = if i < j { i } else { j };
    assert forall|t: int| 0 <= t < m implies a[t] == c[t] by {
        assert(a.subrange(0, i)[t] == b.subrange(0, i)[t]);
        assert(b.subrange(0, j)[t] == c.subrange(0, j)[t]);
    }
    assert(a.subrange(0, m) =~= c.subrange(0, m));
    if i < j {
        assert(b.subrange(0, j)[i] == c.subrange(0, j)[i]);
    } else if j < i {
        assert(a.subrange(0, i)[j] == b.subrange(0, i)[j]);
    }
    assert(first_below_at(a, c, m));
}

/// Compares two keys byte by byte.
pub fn compare_keys(a: &[u8], b: &[u8]) -> (r: Ordering)
    ensures
        r == Ordering::Less ==> key_lt(a@, b@),
        r == Ordering::Equal ==> a@ == b@,
        r == Ordering::Greater ==> key_lt(b@, a@),
{
    let mut i: usize = 0;
    while i < a.len() && i < b.len()
        invariant
            i <= a@.len(),
            i <= b@.len(),
            a@.subrange(0, i as int) == b@.subrange(0, i as int),
        decreases a@.len() - i,
    {
        if a[i] != b[i] {
            if a[i] < b[i] {
                assert(first_below_at(a@, b@, i as int));
                return Ordering::Less;
            } else {
                assert(first_below_at(b@, a@, i as int));
                return Ordering::Greater;
            }
        }
        assert(a@.subrange(0, i + 1) =~= a@.subrange(0, i as int).push(a@[i as int]));
        assert(b@.subrange(0, i + 1) =~= b@.subrange(0, i as int).push(b@[i as int]));
        i = i + 1;
    }
    if a.len() == b.len() {
        assert(a@ =~= a@.subrange(0, i as int));
        assert(b@ =~= b@.subrange(0, i as int));
        Ordering::Equal
    } else if a.len() < b.len() {
        assert(first_below_at(a@, b@, i as int));
        Ordering::Less
    } else {
        assert(first_below_at(b@, a@, i as int));
        Ordering::Greater
    }
}

/// An owned copy of a key.
pub fn copy_key(key: &[u8]) -> (r: Vec<u8>)
    ensures
        r@ == key@,
{
    let mut r: Vec<u8> = Vec::with_capacity(key.len());
    let mut i: usize = 0;
    while i < key.len()
        invariant
            i <= key@.len(),
            r@ == key@.subrange(0, i as int),
        decreases key@.len() - i,
    {
        r.push(key[i]);
        i = i + 1;
        assert(r@ =~= key@.subrange(0, i as int));
    }
    assert(r@ =~= key@);
    r
}

} // verus!
