//! Small helpers for byte strings.

use vstd::prelude::*;
use vstd::slice::{slice_subrange, slice_to_vec};

verus! {

/// The contents of a vector of byte strings, as a sequence of sequences.
pub open spec fn views(items: Seq<Vec<u8>>) -> Seq<Seq<u8>> {
    Seq::new(items.len(), |i: int| items[i]@)
}

/// Appends `extra` to `buf`.
pub fn append(buf: &mut Vec<u8>, extra: &[u8])
    ensures
        final(buf)@ == old(buf)@ + extra@,
{
    buf.extend_from_slice(extra);
}

/// Copies the bytes of `source` from `from` up to, not including, `to`.
pub fn copy_range(source: &[u8], from: usize, to: usize) -> (copy: Vec<u8>)
    requires
        from <= to <= source.len(),
    ensures
        copy@ == source@.subrange(from as int, to as int),
{
    slice_to_vec(slice_subrange(source, from, to))
}

/// Copies the bytes of `source`.
pub fn copy(source: &[u8]) -> (copy: Vec<u8>)
    ensures
        copy@ == source@,
{
    let copy = copy_range(source, 0, source.len());
    copy
}

/// Decides whether two byte strings hold the same bytes.
pub fn same_bytes(a: &[u8], b: &[u8]) -> (same: bool)
    ensures
        same == (a@ == b@),
{
    if a.len() != b.len() {
        return false;
    }
    let mut i: usize = 0;
    while i < a.len()
        invariant
            i <= a.len(),
            a.len() == b.len(),
            a@.take(i as int) == b@.take(i as int),
        decreases a.len() - i,
    {
        if a[i] != b[i] {
            return false;
        }
        i += 1;
    }
    assert(a@.take(i as int) == a@);
    assert(b@.take(i as int) == b@);
    true
}

} // verus!
