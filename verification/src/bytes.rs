//! Byte strings: equality and the lexicographic order.

use vstd::prelude::*;

verus! {

/// Whether two byte vectors hold the same bytes.
pub fn same_bytes(a: &Vec<u8>, b: &Vec<u8>) -> (same: bool)
    ensures
        same == (a@ == b@),
{
    if a.len() != b.len() {
        return false;
    }
    let mut i: usize = 0;
    while i < a.len()
        invariant
            i <= a.len(),
            a.len() == b.len(),
            forall|k: int| 0 <= k < i ==> a@[k] == b@[k],
        decreases a.len() - i,
    {
        if a[i] != b[i] {
            return false;
        }
        i += 1;
    }
    assert(a@ =~= b@);
    true
}

/// Whether `a` comes strictly before `b` in the lexicographic order of bytes:
/// at the first position where they differ `a` has the smaller byte, or `a`
/// is a proper prefix of `b`.
pub open spec fn lex_less(a: Seq<u8>, b: Seq<u8>) -> bool {
    exists|k: int| #[trigger] differs_first_at(a, b, k) && (k == a.len() || a[k] < b[k])
}

/// Whether `a` and `b` agree on their first `k` bytes and differ at position
/// `k`, where `b` has a byte and `a` may have come to its end.
pub open spec fn differs_first_at(a: Seq<u8>, b: Seq<u8>, k: int) -> bool {
    &&& 0 <= k <= a.len()
    &&& k < b.len()
    &&& a.subrange(0, k) == b.subrange(0, k)
    &&& (k < a.len() ==> a[k] != b[k])
}

/// Whether `a` comes strictly before `b` in the lexicographic order of bytes.
pub fn precedes(a: &Vec<u8>, b: &Vec<u8>) -> (less: bool)
    ensures
        less == lex_less(a@, b@),
{
    let mut i: usize = 0;
    while i < a.len() && i < b.len()
        invariant
            i <= a.len(),
            i <= b.len(),
            a@.subrange(0, i as int) == b@.subrange(0, i as int),
        decreases a.len() - i,
    {
        if a[i] != b[i] {
            proof {
                first_difference_decides(a@, b@, i as int);
            }
            return a[i] < b[i];
        }
        proof {
            assert(a@.subrange(0, i + 1) =~= a@.subrange(0, i as int).push(a@[i as int]));
            assert(b@.subrange(0, i + 1) =~= b@.subrange(0, i as int).push(b@[i as int]));
        }
        i += 1;
    }
    proof {
        first_difference_decides(a@, b@, i as int);
    }
    i < b.len()
}

/// Once `a` and `b` agree on their first `k` bytes and differ at `k` or one
/// of them ends there, that position alone decides their order.
pub proof fn first_difference_decides(a: Seq<u8>, b: Seq<u8>, k: int)
    requires
        0 <= k <= a.len(),
        k <= b.len(),
        a.subrange(0, k) == b.subrange(0, k),
        k == a.len() || k == b.len() || a[k] != b[k],
    ensures
        lex_less(a, b) <==> k < b.len() && (k == a.len() || a[k] < b[k]),
{
    if k < b.len() && (k == a.len() || a[k] < b[k]) {
        assert(differs_first_at(a, b, k));
    }
    if lex_less(a, b) {
        let j = choose|j: int| #[trigger] differs_first_at(a, b, j) && (j == a.len() || a[j] < b[j]);
        if j < k {
            assert(a.subrange(0, k)[j] == a[j]);
            assert(b.subrange(0, k)[j] == b[j]);
            assert(false);
        } else if j > k {
            assert(a.subrange(0, j)[k] == a[k]);
            assert(b.subrange(0, j)[k] == b[k]);
            assert(false);
        }
    }
}

/// Of two different byte strings one comes before the other.
pub proof fn lex_less_total(a: Seq<u8>, b: Seq<u8>)
    ensures
        a == b || lex_less(a, b) || lex_less(b, a),
        !(lex_less(a, b) && lex_less(b, a)),
{
    let k = agreement(a, b, 0);
    assert(a.subrange(0, 0) =~= b.subrange(0, 0));
    agreement_found(a, b, 0);
    first_difference_decides(a, b, k);
    first_difference_decides(b, a, k);
    if k == a.len() && k == b.len() {
        assert(a.subrange(0, k) =~= a);
        assert(b.subrange(0, k) =~= b);
    }
}

/// The first position from `from` on at which `a` and `b` differ or one ends.
pub open spec fn agreement(a: Seq<u8>, b: Seq<u8>, from: int) -> int
    decreases a.len() - from,
{
    if 0 <= from < a.len() && from < b.len() && a[from] == b[from] {
        agreement(a, b, from + 1)
    } else {
        from
    }
}

proof fn agreement_found(a: Seq<u8>, b: Seq<u8>, from: int)
    requires
        0 <= from <= a.len(),
        from <= b.len(),
        a.subrange(0, from) == b.subrange(0, from),
    ensures
        from <= agreement(a, b, from) <= a.len(),
        agreement(a, b, from) <= b.len(),
        a.subrange(0, agreement(a, b, from)) == b.subrange(0, agreement(a, b, from)),
        ({
            let k = agreement(a, b, from);
            k == a.len() || k == b.len() || a[k] != b[k]
        }),
    decreases a.len() - from,
{
    if from < a.len() && from < b.len() && a[from] == b[from] {
        assert(a.subrange(0, from + 1) =~= a.subrange(0, from).push(a[from]));
        assert(b.subrange(0, from + 1) =~= b.subrange(0, from).push(b[from]));
        agreement_found(a, b, from + 1);
    }
}

/// The order is transitive.
pub proof fn lex_less_transitive(a: Seq<u8>, b: Seq<u8>, c: Seq<u8>)
    requires
        lex_less(a, b),
        lex_less(b, c),
    ensures
        lex_less(a, c),
{
    let i = choose|i: int| #[trigger] differs_first_at(a, b, i) && (i == a.len() || a[i] < b[i]);
    let j = choose|j: int| #[trigger] differs_first_at(b, c, j) && (j == b.len() || b[j] < c[j]);
    let k = if i <= j { i } else { j };
    assert forall|n: int| 0 <= n < k implies a.subrange(0, k)[n] == c.subrange(0, k)[n] by {
        assert(a.subrange(0, i)[n] == b.subrange(0, i)[n]);
        assert(b.subrange(0, j)[n] == c.subrange(0, j)[n]);
    }
    assert(a.subrange(0, k) =~= c.subrange(0, k));
    if i < j {
        assert(b.subrange(0, j)[i] == c.subrange(0, j)[i]);
    } else if j < i {
        assert(a.subrange(0, i)[j] == b.subrange(0, i)[j]);
    }
    assert(differs_first_at(a, c, k));
}

} // verus!
