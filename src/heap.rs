//! Heap footprints, in bytes, saturated at `usize::MAX`.
use vstd::prelude::*;

verus! {

/// `x`, or `usize::MAX` where `x` exceeds it.
pub open spec fn saturate(x: int) -> int {
    if x > usize::MAX {
        usize::MAX as int
    } else {
        x
    }
}

/// The heap footprint of a structure, in bytes.
pub trait HeapSize {
    /// The bytes the structure holds on the heap.
    spec fn heap_bytes(&self) -> nat;

    /// The heap footprint, saturated at `usize::MAX`.
    fn size(&self) -> (r: usize)
        ensures
            r as int == saturate(self.heap_bytes() as int),
    ;
}

/// `a + b`, saturated.
pub fn sat_add(a: usize, b: usize) -> (r: usize)
    ensures
        r as int == saturate(a + b),
{
    a.saturating_add(b)
}

/// `8 * a`, saturated: the bytes of `a` words of eight bytes.
pub fn sat_words(a: usize) -> (r: usize)
    ensures
        r as int == saturate(8 * a),
{
    if a > usize::MAX / 8 {
        usize::MAX
    } else {
        8 * a
    }
}

} // verus!
