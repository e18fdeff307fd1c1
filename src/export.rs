//! Byte alignment for binary mesh export.

use vstd::prelude::*;

verus! {

/// `n` rounded up to the next multiple of four.
pub open spec fn aligned4(n: int) -> int {
    (n + 3) / 4 * 4
}

/// Rounds `n` up to a multiple of four, as binary glTF chunks require.
pub fn align_to_multiple_of_four(n: &mut usize)
    requires
        *old(n) <= usize::MAX - 3,
    ensures
        *final(n) == aligned4(*old(n) as int),
        *final(n) % 4 == 0,
        *old(n) <= *final(n) < *old(n) + 4,
{
    *n = (*n + 3) / 4 * 4;
}

/// Pads `bytes` with zeros up to a multiple of four bytes.
pub fn pad_to_multiple_of_four(bytes: &mut Vec<u8>)
    requires
        old(bytes)@.len() <= usize::MAX - 3,
    ensures
        final(bytes)@.len() == aligned4(old(bytes)@.len() as int),
        final(bytes)@.subrange(0, old(bytes)@.len() as int) == old(bytes)@,
        forall|i: int|
            old(bytes)@.len() <= i < final(bytes)@.len() ==> #[trigger] final(bytes)@[i] == 0u8,
{
    let ghost start = bytes@;
    while bytes.len() % 4 != 0
        invariant
            start.len() <= bytes@.len() <= aligned4(start.len() as int),
            start.len() <= usize::MAX - 3,
            bytes@.subrange(0, start.len() as int) == start,
            forall|i: int| start.len() <= i < bytes@.len() ==> #[trigger] bytes@[i] == 0u8,
        decreases aligned4(start.len() as int) - bytes@.len(),
    {
        bytes.push(0);
        assert(bytes@.subrange(0, start.len() as int) =~= start);
    }
}

} // verus!
