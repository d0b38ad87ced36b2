//! Bit vectors with rank support, from vers-vecs: a `BitVec` is filled bit
//! by bit, then frozen into an `RsVec` that answers rank queries.
use crate::wavelet::rank_spec;
use vers_vecs::{BitVec, RsVec};
use vstd::prelude::*;

verus! {

#[verifier::external_type_specification]
#[verifier::external_body]
pub struct ExBitVec(BitVec);

#[verifier::external_type_specification]
#[verifier::external_body]
pub struct ExRsVec(RsVec);

/// The bits a growable bit vector holds.
pub uninterp spec fn bv_bits(b: BitVec) -> Seq<bool>;

/// The bits a rank-supporting bit vector holds.
pub uninterp spec fn rs_bits(r: RsVec) -> Seq<bool>;

/// The bytes a rank-supporting bit vector holds on the heap.
pub uninterp spec fn rs_heap_bytes(r: RsVec) -> nat;

/// Relies on `BitVec::new`: an empty bit vector.
#[verifier::external_body]
pub(crate) fn bv_new() -> (r: BitVec)
    ensures
        bv_bits(r) == Seq::<bool>::empty(),
{
    BitVec::new()
}

/// Relies on `BitVec::append`: one more bit at the end.
#[verifier::external_body]
pub(crate) fn bv_append(b: &mut BitVec, bit: bool)
    ensures
        bv_bits(*final(b)) == bv_bits(*old(b)).push(bit),
{
    b.append(bit)
}

/// Relies on `RsVec::from_bit_vec`: the same bits, with rank support.
#[verifier::external_body]
pub(crate) fn rs_from_bit_vec(b: BitVec) -> (r: RsVec)
    ensures
        rs_bits(r) == bv_bits(b),
{
    RsVec::from_bit_vec(b)
}

/// Relies on `RsVec::rank1`: the number of set bits before `pos`.
#[verifier::external_body]
pub(crate) fn rs_rank1(r: &RsVec, pos: usize) -> (k: usize)
    requires
        (pos as nat) <= rs_bits(*r).len(),
    ensures
        k as nat == rank_spec(rs_bits(*r), true, pos as int),
{
    r.rank1(pos)
}

/// Relies on `RsVec::get_unchecked`: the bit at `pos`, as `1` or `0`.
#[verifier::external_body]
pub(crate) fn rs_get(r: &RsVec, pos: usize) -> (b: u64)
    requires
        (pos as nat) < rs_bits(*r).len(),
    ensures
        b == if rs_bits(*r)[pos as int] {
            1u64
        } else {
            0u64
        },
{
    r.get_unchecked(pos)
}

/// Relies on `RsVec::heap_size`: the bytes it holds on the heap, which
/// depend on its contents alone.
#[verifier::external_body]
pub(crate) fn rs_heap_size(r: &RsVec) -> (k: usize)
    ensures
        k as nat == rs_heap_bytes(*r),
{
    r.heap_size()
}

} // verus!
