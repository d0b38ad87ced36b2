//! The wavelet matrix that stores the Burrows-Wheeler column, and the rank
//! and select counting that the index is specified with.
use vers_vecs::WaveletMatrix;
use vstd::arithmetic::power2::pow2;
use vstd::multiset::*;
use vstd::prelude::*;
use vstd::seq_lib::*;

verus! {

broadcast use {group_to_multiset_ensures, group_multiset_axioms, group_multiset_properties};

/// Number of occurrences of `c` among the first `i` elements of `s`.
pub open spec fn rank_spec<A>(s: Seq<A>, c: A, i: int) -> nat {
    s.subrange(0, i).to_multiset().count(c)
}

/// One more element counts one more occurrence exactly when it is `c`.
pub proof fn lemma_rank_step<A>(s: Seq<A>, c: A, i: int)
    requires
        0 <= i < s.len(),
    ensures
        rank_spec(s, c, i + 1) == rank_spec(s, c, i) + if s[i] == c {
            1nat
        } else {
            0nat
        },
{
    assert(s.subrange(0, i + 1) == s.subrange(0, i).push(s[i]));
    assert(s.subrange(0, i + 1).to_multiset() == s.subrange(0, i).to_multiset().insert(s[i]));
}

/// Rank grows with the position and never exceeds it.
pub proof fn lemma_rank_bounds<A>(s: Seq<A>, c: A, i: int, j: int)
    requires
        0 <= i <= j <= s.len(),
    ensures
        rank_spec(s, c, i) <= rank_spec(s, c, j),
        rank_spec(s, c, j) <= rank_spec(s, c, i) + (j - i),
        rank_spec(s, c, i) <= i,
    decreases j,
{
    if i == j {
        lemma_rank_le(s, c, i);
    } else {
        lemma_rank_bounds(s, c, i, j - 1);
        lemma_rank_step(s, c, j - 1);
    }
}

proof fn lemma_rank_le<A>(s: Seq<A>, c: A, i: int)
    requires
        0 <= i <= s.len(),
    ensures
        rank_spec(s, c, i) <= i,
    decreases i,
{
    if i > 0 {
        lemma_rank_le(s, c, i - 1);
        lemma_rank_step(s, c, i - 1);
    } else {
        assert(s.subrange(0, 0).to_multiset() =~= Multiset::empty());
    }
}

/// Rank over the whole sequence is the multiplicity of `c`.
pub proof fn lemma_rank_full<A>(s: Seq<A>, c: A)
    ensures
        rank_spec(s, c, s.len() as int) == s.to_multiset().count(c),
{
    assert(s.subrange(0, s.len() as int) == s);
}

/// Between two occurrences of `c` the rank strictly grows.
pub proof fn lemma_rank_strict<A>(s: Seq<A>, c: A, i: int, j: int)
    requires
        0 <= i < j <= s.len(),
        s[i] == c,
    ensures
        rank_spec(s, c, i) < rank_spec(s, c, j),
{
    lemma_rank_step(s, c, i);
    lemma_rank_bounds(s, c, i + 1, j);
}

/// An occurrence of `c` with `k` occurrences before it exists below `hi`
/// when more than `k` occur there.
pub proof fn lemma_select_exists<A>(s: Seq<A>, c: A, k: nat, hi: int)
    requires
        0 <= hi <= s.len(),
        k < rank_spec(s, c, hi),
    ensures
        exists|j: int| 0 <= j < hi && s[j] == c && rank_spec(s, c, j) == k,
    decreases hi,
{
    lemma_rank_bounds(s, c, hi, hi);
    lemma_rank_step(s, c, hi - 1);
    if k < rank_spec(s, c, hi - 1) {
        lemma_select_exists(s, c, k, hi - 1);
    } else {
        assert(s[hi - 1] == c && rank_spec(s, c, hi - 1) == k);
    }
}

/// At most one occurrence of `c` has exactly `k` occurrences before it.
pub proof fn lemma_select_unique<A>(s: Seq<A>, c: A, i: int, j: int)
    requires
        0 <= i < s.len(),
        0 <= j < s.len(),
        s[i] == c,
        s[j] == c,
        rank_spec(s, c, i) == rank_spec(s, c, j),
    ensures
        i == j,
{
    if i < j {
        lemma_rank_strict(s, c, i, j);
    } else if j < i {
        lemma_rank_strict(s, c, j, i);
    }
}

#[verifier::external_type_specification]
#[verifier::external_body]
pub struct ExWaveletMatrix(WaveletMatrix);

/// The sequence of symbols that a wavelet matrix stores.
pub uninterp spec fn wm_codes(w: WaveletMatrix) -> Seq<u64>;

/// The number of bits per symbol that a wavelet matrix was built with.
pub uninterp spec fn wm_bits(w: WaveletMatrix) -> nat;

/// Relies on `WaveletMatrix::from_slice`: it stores the low `bits` bits of
/// each element, so elements below `2^bits` are stored unchanged.
#[verifier::external_body]
pub(crate) fn wm_from_slice(seq: &Vec<u64>, bits: u16) -> (r: WaveletMatrix)
    requires
        1 <= bits <= 64,
        forall|i: int| 0 <= i < seq@.len() ==> (seq@[i] as nat) < pow2(bits as nat),
    ensures
        wm_codes(r) == seq@,
        wm_bits(r) == bits as nat,
{
    WaveletMatrix::from_slice(seq.as_slice(), bits)
}

/// Relies on `WaveletMatrix::len`: the number of stored elements.
#[verifier::external_body]
pub(crate) fn wm_len(w: &WaveletMatrix) -> (r: usize)
    ensures
        r as nat == wm_codes(*w).len(),
{
    w.len()
}

/// Relies on `WaveletMatrix::get_u64_unchecked`: the element at `i`.
#[verifier::external_body]
pub(crate) fn wm_get(w: &WaveletMatrix, i: usize) -> (r: u64)
    requires
        (i as nat) < wm_codes(*w).len(),
        1 <= wm_bits(*w) <= 64,
    ensures
        r == wm_codes(*w)[i as int],
{
    w.get_u64_unchecked(i)
}

/// Relies on `WaveletMatrix::rank_u64_unchecked`: the number of occurrences
/// of `c` before position `i`.
#[verifier::external_body]
pub(crate) fn wm_rank(w: &WaveletMatrix, i: usize, c: u64) -> (r: usize)
    requires
        (i as nat) <= wm_codes(*w).len(),
        1 <= wm_bits(*w) <= 64,
        (c as nat) < pow2(wm_bits(*w)),
    ensures
        r as nat == rank_spec(wm_codes(*w), c, i as int),
{
    w.rank_u64_unchecked(i, c)
}

/// Relies on `WaveletMatrix::select_u64_unchecked`: the position of the
/// occurrence of `c` that has `k` occurrences of `c` before it.
#[verifier::external_body]
pub(crate) fn wm_select(w: &WaveletMatrix, k: usize, c: u64) -> (r: usize)
    requires
        (k as nat) < rank_spec(wm_codes(*w), c, wm_codes(*w).len() as int),
        1 <= wm_bits(*w) <= 64,
        (c as nat) < pow2(wm_bits(*w)),
    ensures
        (r as nat) < wm_codes(*w).len(),
        wm_codes(*w)[r as int] == c,
        rank_spec(wm_codes(*w), c, r as int) == k as nat,
{
    w.select_u64_unchecked(k, c)
}

/// The bytes that a wavelet matrix holds on the heap.
pub uninterp spec fn wm_heap_bytes(w: WaveletMatrix) -> nat;

/// Relies on `WaveletMatrix::heap_size`: the bytes it holds on the heap, a
/// sum over its bit vectors that depends on the matrix alone.
#[verifier::external_body]
pub(crate) fn wm_heap_size(w: &WaveletMatrix) -> (r: usize)
    ensures
        r as nat == wm_heap_bytes(*w),
{
    w.heap_size()
}

} // verus!
