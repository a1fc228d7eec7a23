//! Fixed-length byte strings: copying them out of longer buffers and comparing them.

use vstd::prelude::*;

verus! {

/// The sequence of `n` zero bytes.
pub open spec fn zeros(n: nat) -> Seq<u8> {
    Seq::new(n, |i: int| 0u8)
}

/// Copies the `N` bytes of `source` that start at `start` into an array.
pub fn take<const N: usize>(source: &[u8], start: usize) -> (out: [u8; N])
    requires
        start + N <= source@.len(),
    ensures
        out@ == source@.subrange(start as int, start + N),
{
    let len: usize = source.len();
    let mut out: [u8; N] = [0u8; N];
    let mut i: usize = 0;
    while i < N
        invariant
            i <= N,
            len == source@.len(),
            start + N <= len,
            forall|j: int| 0 <= j < i ==> out@[j] == source@[start + j],
        decreases N - i,
    {
        out[i] = source[start + i];
        i += 1;
    }
    assert(out@ =~= source@.subrange(start as int, start + N));
    out
}

/// Whether two byte strings hold the same bytes.
pub fn same_bytes(a: &[u8], b: &[u8]) -> (same: bool)
    ensures
        same == (a@ == b@),
{
    if a.len() != b.len() {
        return false;
    }
    let mut i: usize = 0;
    while i < a.len()
        invariant
            i <= a@.len(),
            a@.len() == b@.len(),
            forall|j: int| 0 <= j < i ==> a@[j] == b@[j],
        decreases a@.len() - i,
    {
        if a[i] != b[i] {
            return false;
        }
        i += 1;
    }
    assert(a@ =~= b@);
    true
}

} // verus!
