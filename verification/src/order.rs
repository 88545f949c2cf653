//! The order in which a listing shows the children of a directory: by the
//! bytes of their paths, as a dictionary orders words.

use vstd::prelude::*;

verus! {

/// Whether `a` and `b` hold the same bytes at every index below `k`.
pub open spec fn agree_below(a: Seq<u8>, b: Seq<u8>, k: int) -> bool {
    &&& 0 <= k <= a.len()
    &&& k <= b.len()
    &&& forall|j: int| 0 <= j < k ==> a[j] == b[j]
}

/// Whether `a` comes no later than `b`: either `a` is a prefix of `b`, or at
/// the first index where the two differ `a` holds the smaller byte.
pub open spec fn precedes(a: Seq<u8>, b: Seq<u8>) -> bool {
    exists|k: int| #[trigger]
        agree_below(a, b, k) && (k == a.len() || (k < b.len() && a[k] < b[k]))
}

/// Every byte string precedes itself.
pub proof fn lemma_precedes_reflexive(a: Seq<u8>)
    ensures
        precedes(a, a),
{
    assert(agree_below(a, a, a.len() as int));
}

proof fn lemma_total_from(a: Seq<u8>, b: Seq<u8>, k: int)
    requires
        agree_below(a, b, k),
    ensures
        precedes(a, b) || precedes(b, a),
    decreases a.len() - k,
{
    if k == a.len() {
    } else if k == b.len() {
        assert(agree_below(b, a, k));
    } else if a[k] < b[k] {
    } else if b[k] < a[k] {
        assert(agree_below(b, a, k));
    } else {
        assert(agree_below(a, b, k + 1));
        lemma_total_from(a, b, k + 1);
    }
}

/// Of two byte strings, one precedes the other.
pub proof fn lemma_precedes_total(a: Seq<u8>, b: Seq<u8>)
    ensures
        precedes(a, b) || precedes(b, a),
{
    assert(agree_below(a, b, 0));
    lemma_total_from(a, b, 0);
}

/// If `a` precedes `b` and `b` precedes `c`, then `a` precedes `c`.
pub proof fn lemma_precedes_transitive(a: Seq<u8>, b: Seq<u8>, c: Seq<u8>)
    requires
        precedes(a, b),
        precedes(b, c),
    ensures
        precedes(a, c),
{
    let k1 = choose|k: int| #[trigger]
        agree_below(a, b, k) && (k == a.len() || (k < b.len() && a[k] < b[k]));
    let k2 = choose|k: int| #[trigger]
        agree_below(b, c, k) && (k == b.len() || (k < c.len() && b[k] < c[k]));
    if k2 < k1 {
        assert(agree_below(a, c, k2));
    } else {
        assert(agree_below(a, c, k1));
    }
}

/// Two byte strings that precede each other are equal.
pub proof fn lemma_precedes_antisymmetric(a: Seq<u8>, b: Seq<u8>)
    requires
        precedes(a, b),
        precedes(b, a),
    ensures
        a == b,
{
    let k1 = choose|k: int| #[trigger]
        agree_below(a, b, k) && (k == a.len() || (k < b.len() && a[k] < b[k]));
    let k2 = choose|k: int| #[trigger]
        agree_below(b, a, k) && (k == b.len() || (k < a.len() && b[k] < a[k]));
    assert(a =~= b);
}

/// Decides whether `a` comes no later than `b`.
pub fn comes_first(a: &[u8], b: &[u8]) -> (r: bool)
    ensures
        r == precedes(a@, b@),
{
    let mut i: usize = 0;
    while i < a.len() && i < b.len()
        invariant
            agree_below(a@, b@, i as int),
        decreases a.len() - i,
    {
        if a[i] != b[i] {
            return a[i] < b[i];
        }
        i += 1;
    }
    i == a.len()
}

} // verus!
