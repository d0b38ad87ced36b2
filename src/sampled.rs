//! The sampled suffix array: the suffix array entries that are multiples of
//! `2^level`, kept in row order, with a rank-supporting bit vector that marks
//! the rows that hold one.
use crate::bits::{bv_append, bv_bits, bv_new, rs_bits, rs_from_bit_vec, rs_get, rs_heap_bytes, rs_heap_size, rs_rank1};
use crate::wavelet::{lemma_rank_bounds, lemma_rank_step, rank_spec};
use vers_vecs::RsVec;
use vstd::arithmetic::power2::{lemma2_to64, lemma2_to64_rest, lemma_pow2_pos, lemma_pow2_strictly_increases, lemma_pow2_unfold, pow2};
use crate::heap::{sat_add, sat_words, saturate, HeapSize};
use vstd::prelude::*;

verus! {

pub struct SuffixOrderSampledArray {
    level: usize,
    step: u64,
    present: RsVec,
    values: Vec<u64>,
}

impl SuffixOrderSampledArray {
    pub closed spec fn level_spec(&self) -> nat {
        self.level as nat
    }

    /// The bytes the bit vector of sampled rows holds on the heap.
    pub closed spec fn present_bytes(&self) -> nat {
        rs_heap_bytes(self.present)
    }

    /// The number of stored entries.
    pub closed spec fn stored_spec(&self) -> nat {
        self.values@.len()
    }

    /// The number of rows.
    pub closed spec fn len_spec(&self) -> nat {
        rs_bits(self.present).len()
    }

    /// The stored entry of row `i`, if that row is sampled.
    pub closed spec fn get_spec(&self, i: int) -> Option<u64> {
        if rs_bits(self.present)[i] {
            Some(self.values@[rank_spec(rs_bits(self.present), true, i) as int])
        } else {
            None
        }
    }

    pub closed spec fn wf(&self) -> bool {
        &&& self.level < 64
        &&& self.step as nat == pow2(self.level as nat)
        &&& rs_bits(self.present).len() < u64::MAX
        &&& self.values@.len() == rank_spec(
            rs_bits(self.present),
            true,
            rs_bits(self.present).len() as int,
        )
    }

    /// Row `i` holds its suffix array entry exactly when that entry is a
    /// multiple of `2^level`.
    pub open spec fn samples(&self, sa: Seq<u64>) -> bool {
        &&& self.wf()
        &&& self.len_spec() == sa.len()
        &&& forall|i: int|
            0 <= i < sa.len() ==> #[trigger] self.get_spec(i) == if sa[i] as nat % pow2(
                self.level_spec(),
            ) == 0 {
                Some(sa[i])
            } else {
                None
            }
    }

    /// Keep the entries of `sa` that are multiples of `2^level`.
    pub fn sample(sa: &Vec<u64>, level: usize) -> (r: SuffixOrderSampledArray)
        requires
            level < 64,
            sa@.len() < u64::MAX,
            sa@.len() < usize::MAX,
        ensures
            r.samples(sa@),
            r.level_spec() == level,
    {
        let mut step: u64 = 1;
        let mut l: usize = 0;
        proof {
            lemma2_to64();
            lemma2_to64_rest();
            lemma_pow2_pos(level as nat);
        }
        while l < level
            invariant
                l <= level < 64,
                step as nat == pow2(l as nat),
                pow2(63) == 0x8000_0000_0000_0000,
            decreases level - l,
        {
            proof {
                lemma_pow2_unfold((l + 1) as nat);
                if l + 1 < 63 {
                    lemma_pow2_strictly_increases((l + 1) as nat, 63);
                }
            }
            step = step * 2;
            l = l + 1;
        }
        let n = sa.len();
        let mut bits = bv_new();
        let mut values: Vec<u64> = Vec::new();
        let mut i: usize = 0;
        proof {
            lemma_rank_bounds(bv_bits(bits), true, 0, 0);
        }
        while i < n
            invariant
                n == sa@.len(),
                n < u64::MAX,
                i <= n,
                step as nat == pow2(level as nat),
                step > 0,
                bv_bits(bits).len() == i,
                values@.len() == rank_spec(bv_bits(bits), true, i as int),
                forall|k: int| 0 <= k < i ==> bv_bits(bits)[k] == (sa@[k] % step == 0),
                forall|k: int|
                    0 <= k < i && bv_bits(bits)[k] ==> values@[rank_spec(bv_bits(bits), true, k) as int]
                        == sa@[k],
            decreases n - i,
        {
            let ghost before = bv_bits(bits);
            let ghost vbefore = values@;
            let v = sa[i];
            let keep = v % step == 0;
            bv_append(&mut bits, keep);
            if keep {
                values.push(v);
            }
            proof {
                assert forall|k: int| 0 <= k <= i implies rank_spec(bv_bits(bits), true, k) == rank_spec(
                    before,
                    true,
                    k,
                ) by {
                    assert(bv_bits(bits).subrange(0, k) == before.subrange(0, k));
                }
                lemma_rank_step(bv_bits(bits), true, i as int);
                assert forall|k: int|
                    0 <= k < i + 1 && bv_bits(bits)[k] implies values@[rank_spec(bv_bits(bits), true, k) as int]
                    == sa@[k] by {
                    if k < i {
                        lemma_rank_step(before, true, k);
                        lemma_rank_bounds(before, true, k + 1, i as int);
                        assert(values@[rank_spec(before, true, k) as int] == vbefore[rank_spec(
                            before,
                            true,
                            k,
                        ) as int]);
                    }
                }
            }
            i = i + 1;
        }
        let present = rs_from_bit_vec(bits);
        SuffixOrderSampledArray { level, step, present, values }
    }

    /// The stored entry of row `i`, if that row is sampled.
    pub fn get(&self, i: usize) -> (r: Option<u64>)
        requires
            self.wf(),
            i < self.len_spec(),
        ensures
            r == self.get_spec(i as int),
    {
        if rs_get(&self.present, i) == 1 {
            let k = rs_rank1(&self.present, i);
            proof {
                lemma_rank_step(rs_bits(self.present), true, i as int);
                lemma_rank_bounds(
                    rs_bits(self.present),
                    true,
                    (i + 1) as int,
                    rs_bits(self.present).len() as int,
                );
            }
            Some(self.values[k as usize])
        } else {
            None
        }
    }
}

impl HeapSize for SuffixOrderSampledArray {
    /// The bit vector of sampled rows, and eight bytes per stored entry.
    open spec fn heap_bytes(&self) -> nat {
        self.present_bytes() + 8 * self.stored_spec()
    }

    fn size(&self) -> (r: usize) {
        let a = rs_heap_size(&self.present);
        let c = sat_words(self.values.len());
        sat_add(a, c)
    }
}

} // verus!
