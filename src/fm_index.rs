//! The FM-index: the Burrows-Wheeler column in a wavelet matrix, the table
//! of where each code's rows start, and optionally a sampled suffix array,
//! with the LF and FL mappings between rows.
use crate::converter::Converter;
use crate::lf::{
    lemma_bwt_multiset, below_set, lemma_below_card, lemma_first_row, lemma_suffix_array_unique, lemma_lf_general, lemma_pat_occurrences, lemma_pat_step, lemma_row_of, occurrences,
    pat_before, pat_rows, prev_pos, row_of, next_pos, ahead, behind, lemma_pat_rows, starts_with, unique_sentinel,
};
use vstd::set_lib::{lemma_int_range, set_int_range};
use crate::iter::{BackwardIterator, ForwardIterator};
use crate::sampled::SuffixOrderSampledArray;
use crate::search::{FMIndexError, Search};
use crate::text::{
    bucket_starts, bwt_spec, count_below, lemma_count_zero, is_suffix_array, lemma_count_below_all,
    lemma_count_below_bounds, lemma_count_below_step, prepare_text, suffix_array, with_sentinel,
};
use crate::wavelet::{
    lemma_rank_bounds, lemma_rank_full, lemma_rank_strict, lemma_select_exists,
    lemma_select_unique, rank_spec, wm_bits, wm_codes, wm_from_slice, wm_get, wm_heap_bytes, wm_heap_size, wm_len,
    wm_rank, wm_select,
};
use vers_vecs::WaveletMatrix;
use vstd::arithmetic::power2::{
    lemma2_to64, lemma2_to64_rest, lemma_pow2_pos, lemma_pow2_strictly_increases, lemma_pow2_unfold, pow2,
};
use vstd::arithmetic::div_mod::lemma_small_mod;
use crate::heap::{sat_add, sat_words, saturate, HeapSize};
use vstd::prelude::*;

verus! {

/// The largest text length an index takes.
pub const MAX_TEXT_LEN: u64 = 0x3fff_ffff_ffff_ffff;

/// The codes of the symbols `p`.
pub open spec fn codes_of(conv: Converter, p: Seq<u64>) -> Seq<u64> {
    p.map_values(|x: u64| conv.convert_spec(x))
}

/// The position of the occurrence of `c` in `s` that has `k` before it.
pub open spec fn select_spec(s: Seq<u64>, c: u64, k: int) -> int {
    choose|j: int| 0 <= j < s.len() && s[j] == c && rank_spec(s, c, j) == k
}

/// The smallest `b >= 1` with `sigma <= 2^b`: `ceil(log2(sigma))`, and at
/// least one.
fn bits_for(sigma: u64) -> (r: u16)
    ensures
        1 <= r <= 64,
        sigma as nat <= pow2(r as nat),
        r == 1 || pow2((r - 1) as nat) < sigma,
{
    let mut bits: u16 = 1;
    let mut pow: u64 = 2;
    proof {
        lemma2_to64();
        lemma2_to64_rest();
    }
    while bits < 63 && pow < sigma
        invariant
            1 <= bits <= 63,
            pow as nat == pow2(bits as nat),
            bits == 1 || pow2((bits - 1) as nat) < sigma,
            pow2(63) == 0x8000_0000_0000_0000,
            pow2(64) == 0x1_0000_0000_0000_0000,
        decreases 63 - bits,
    {
        proof {
            lemma_pow2_unfold((bits + 1) as nat);
            if bits + 1 < 63 {
                lemma_pow2_strictly_increases((bits + 1) as nat, 63);
            }
        }
        pow = pow * 2;
        bits = bits + 1;
    }
    if pow < sigma {
        64
    } else {
        bits
    }
}

/// An FM-index over a text of codes that ends with the sentinel `0`.
pub struct FMIndexBackend {
    bw: WaveletMatrix,
    cs: Vec<u64>,
    converter: Converter,
    suffix_array: Option<SuffixOrderSampledArray>,
    text: Ghost<Seq<u64>>,
    sa: Ghost<Seq<u64>>,
}

impl FMIndexBackend {
    /// The indexed text as codes, sentinel included.
    pub closed spec fn codes(&self) -> Seq<u64> {
        self.text@
    }

    /// The suffix array of `codes()`.
    pub closed spec fn sa_spec(&self) -> Seq<u64> {
        self.sa@
    }

    pub closed spec fn converter_spec(&self) -> Converter {
        self.converter
    }

    /// `C`: the row where each code's block starts.
    pub closed spec fn cs_spec(&self) -> Seq<u64> {
        self.cs@
    }

    /// The number of bit levels of the wavelet matrix.
    pub closed spec fn height(&self) -> nat {
        wm_bits(self.bw)
    }

    /// The sampled suffix array, if the index keeps one.
    pub closed spec fn samples_spec(&self) -> Option<SuffixOrderSampledArray> {
        self.suffix_array
    }

    pub open spec fn n(&self) -> nat {
        self.codes().len()
    }

    pub open spec fn sigma(&self) -> nat {
        self.converter_spec().len_spec() as nat
    }

    /// The Burrows-Wheeler column, as codes.
    pub open spec fn bwt(&self) -> Seq<u64> {
        bwt_spec(self.codes(), self.sa_spec())
    }

    /// `C[c] + rank(c, i)`: the row reached from `i` by prepending `c`.
    pub open spec fn lf_with_spec(&self, c: u64, i: int) -> int {
        self.cs_spec()[c as int] + rank_spec(self.bwt(), c, i)
    }

    /// The LF mapping.
    pub open spec fn lf_spec(&self, i: int) -> int {
        self.lf_with_spec(self.bwt()[i], i)
    }

    /// The code in the first column of row `i`.
    pub open spec fn f_spec(&self, i: int) -> u64 {
        choose|c: u64|
            (c as nat) < self.sigma() && #[trigger] self.cs_spec()[c as int] <= i < self.cs_spec()[c + 1]
    }

    /// The row whose `c` in the last column is the one of row `i` in the first.
    pub open spec fn fl_with_spec(&self, c: u64, i: int) -> int {
        select_spec(self.bwt(), c, i - self.cs_spec()[c as int])
    }

    /// The FL mapping, inverse of LF.
    pub open spec fn fl_spec(&self, i: int) -> int {
        self.fl_with_spec(self.f_spec(i), i)
    }

    pub closed spec fn wf(&self) -> bool {
        let t = self.text@;
        let sigma = self.converter.len_spec();
        &&& 1 <= t.len() <= MAX_TEXT_LEN
        &&& t.len() < usize::MAX - 64
        &&& t.last() == 0
        &&& self.converter.wf()
        &&& sigma < usize::MAX - 1
        &&& forall|i: int| 0 <= i < t.len() ==> t[i] < sigma
        &&& is_suffix_array(t, self.sa@)
        &&& bwt_spec(t, self.sa@).to_multiset() == t.to_multiset()
        &&& wm_codes(self.bw) == bwt_spec(t, self.sa@)
        &&& 1 <= wm_bits(self.bw) <= 64
        &&& sigma as nat <= pow2(wm_bits(self.bw))
        &&& wm_bits(self.bw) == 1 || pow2((wm_bits(self.bw) - 1) as nat) < sigma
        &&& self.cs@.len() == sigma + 1
        &&& forall|c: int| 0 <= c <= sigma ==> self.cs@[c] == count_below(t, c)
        &&& match self.suffix_array {
            Some(s) => s.samples(self.sa@),
            None => true,
        }
    }

    /// Well-formedness, as callers see it.
    pub open spec fn valid(&self) -> bool {
        self.wf()
    }

    proof fn lemma_wf_facts(&self)
        requires
            self.wf(),
        ensures
            self.cs_spec()[0] == 0,
            self.cs_spec()[self.sigma() as int] == self.n(),
            forall|c: int, d: int|
                0 <= c <= d <= self.sigma() ==> self.cs_spec()[c] <= self.cs_spec()[d],
            forall|i: int| 0 <= i < self.n() ==> (#[trigger] self.bwt()[i] as nat) < self.sigma(),
            self.bwt().len() == self.n(),
    {
        lemma_count_below_all(self.text@, self.converter.len_spec() as int);
        lemma_count_below_bounds(self.text@, 0, 0);
        assert(count_below(self.text@, 0) == 0) by {
            lemma_count_zero(self.text@);
        }
        assert forall|c: int, d: int| 0 <= c <= d <= self.sigma() implies self.cs_spec()[c]
            <= self.cs_spec()[d] by {
            lemma_count_below_bounds(self.text@, c, d);
        }
        assert forall|i: int| 0 <= i < self.n() implies (#[trigger] self.bwt()[i] as nat)
            < self.sigma() by {
            let p = self.sa@[i] as int;
            if p > 0 {
                assert(self.text@[p - 1] < self.converter.len_spec());
            } else {
                assert(self.text@[self.n() - 1] < self.converter.len_spec());
            }
        }
    }

    /// The block of code `c` in the first column is as long as the number of
    /// `c` in the last column.
    proof fn lemma_counts(&self, c: u64)
        requires
            self.wf(),
            (c as nat) < self.sigma(),
        ensures
            rank_spec(self.bwt(), c, self.n() as int) == self.cs_spec()[c + 1]
                - self.cs_spec()[c as int],
    {
        lemma_rank_full(self.bwt(), c);
        lemma_count_below_step(self.text@, c as int);
    }

    /// The LF mapping by `c` is monotone and stays in the block of `c`.
    pub proof fn lemma_lf_with_bounds(&self, c: u64, i: int, j: int)
        requires
            self.wf(),
            (c as nat) < self.sigma(),
            0 <= i <= j <= self.n(),
        ensures
            self.cs_spec()[c as int] <= self.lf_with_spec(c, i) <= self.lf_with_spec(c, j),
            self.lf_with_spec(c, j) <= self.cs_spec()[c + 1] <= self.n(),
    {
        self.lemma_wf_facts();
        self.lemma_counts(c);
        lemma_rank_bounds(self.bwt(), c, i, j);
        lemma_rank_bounds(self.bwt(), c, j, self.n() as int);
    }

    proof fn lemma_f_unique(&self, c: u64, i: int)
        requires
            self.wf(),
            (c as nat) < self.sigma(),
            self.cs_spec()[c as int] <= i < self.cs_spec()[c + 1],
        ensures
            self.f_spec(i) == c,
    {
        self.lemma_wf_facts();
        let d = self.f_spec(i);
        assert((d as nat) < self.sigma() && self.cs_spec()[d as int] <= i < self.cs_spec()[d + 1]);
        if d < c {
            assert(self.cs_spec()[d + 1] <= self.cs_spec()[c as int]);
        } else if c < d {
            assert(self.cs_spec()[c + 1] <= self.cs_spec()[d as int]);
        }
    }

    proof fn lemma_f_exists(&self, i: int, hi: int)
        requires
            self.wf(),
            0 <= i,
            0 < hi <= self.sigma(),
            i < self.cs_spec()[hi],
        ensures
            (self.f_spec(i) as nat) < hi,
            self.cs_spec()[self.f_spec(i) as int] <= i < self.cs_spec()[self.f_spec(i) + 1],
        decreases hi,
    {
        self.lemma_wf_facts();
        if i < self.cs_spec()[hi - 1] {
            self.lemma_f_exists(i, hi - 1);
        } else {
            self.lemma_f_unique((hi - 1) as u64, i);
        }
    }

    proof fn lemma_select_is(&self, c: u64, k: int, j: int)
        requires
            self.wf(),
            0 <= j < self.n(),
            self.bwt()[j] == c,
            rank_spec(self.bwt(), c, j) == k,
        ensures
            select_spec(self.bwt(), c, k) == j,
    {
        self.lemma_wf_facts();
        let s = select_spec(self.bwt(), c, k);
        assert(0 <= s < self.bwt().len() && self.bwt()[s] == c && rank_spec(self.bwt(), c, s) == k);
        lemma_select_unique(self.bwt(), c, s, j);
    }


    /// Where the walk of locate ends from row `i`, having taken `steps` LF
    /// steps so far and being allowed `fuel` more: the first sampled row
    /// reached gives its entry plus the steps taken, modulo the length.
    pub open spec fn walk(&self, i: int, steps: nat, fuel: nat) -> Option<u64>
        decreases fuel,
    {
        match self.samples_spec() {
            None => None,
            Some(ssa) => match ssa.get_spec(i) {
                Some(v) => Some(((v + steps) % (self.n() as int)) as u64),
                None => if fuel == 0 {
                    None
                } else {
                    self.walk(self.lf_spec(i), steps + 1, (fuel - 1) as nat)
                },
            },
        }
    }

    /// Build the index of `text` (the sentinel appended if missing); keep the
    /// suffix array entries that are multiples of `2^level` if `level` is given.
    pub fn create(text: Vec<u64>, converter: Converter, level: Option<usize>) -> (r: Self)
        requires
            converter.wf(),
            converter.len_spec() < usize::MAX - 1,
            text@.len() < MAX_TEXT_LEN,
            text@.len() < usize::MAX - 128,
            forall|i: int| 0 <= i < text@.len() ==> converter.accepts(text@[i]),
            match level {
                Some(l) => l < 64,
                None => true,
            },
        ensures
            r.valid(),
            r.codes() == codes_of(converter, with_sentinel(text@)),
            r.converter_spec() == converter,
            r.samples_spec() is Some == level is Some,
            forall|l: usize| level == Some(l) ==> r.samples_spec().unwrap().level_spec() == l,
            r.samples_spec() matches Some(s) ==> s.samples(r.sa_spec()),
            is_suffix_array(r.codes(), r.sa_spec()),
            r.bwt() == bwt_spec(r.codes(), r.sa_spec()),
            1 <= r.height() <= 64,
            converter.len_spec() as nat <= pow2(r.height()),
            r.height() == 1 || pow2((r.height() - 1) as nat) < converter.len_spec(),
            r.cs_spec().len() == converter.len_spec() + 1,
            forall|c: int|
                0 <= c <= converter.len_spec() ==> r.cs_spec()[c] == count_below(r.codes(), c),
    {
        let text = prepare_text(text);
        let n = text.len();
        let mut codes: Vec<u64> = Vec::new();
        let mut k: usize = 0;
        while k < n
            invariant
                n == text@.len(),
                k <= n,
                converter.wf(),
                forall|i: int| 0 <= i < n ==> converter.accepts(text@[i]),
                codes@ == codes_of(converter, text@.subrange(0, k as int)),
                forall|i: int| 0 <= i < k ==> codes@[i] < converter.len_spec(),
            decreases n - k,
        {
            let c = converter.convert(text[k]);
            codes.push(c);
            assert(text@.subrange(0, k + 1) == text@.subrange(0, k as int).push(text@[k as int]));
            k = k + 1;
        }
        assert(text@.subrange(0, n as int) == text@);
        assert(codes@.last() == 0);
        let sigma = converter.len();
        let cs = bucket_starts(&codes, sigma);
        let sa = suffix_array(&codes);
        proof {
            lemma_bwt_multiset(codes@, sa@);
        }
        let bw = Self::wavelet_matrix(&codes, &sa, sigma);
        assert(wm_codes(bw) =~= bwt_spec(codes@, sa@));
        let suffix_array = match level {
            Some(l) => Some(SuffixOrderSampledArray::sample(&sa, l)),
            None => None,
        };
        FMIndexBackend {
            bw,
            cs,
            converter,
            suffix_array,
            text: Ghost(codes@),
            sa: Ghost(sa@),
        }
    }

    /// The wavelet matrix of the Burrows-Wheeler column of `codes`.
    fn wavelet_matrix(codes: &Vec<u64>, sa: &Vec<u64>, sigma: u64) -> (r: WaveletMatrix)
        requires
            1 <= codes@.len() < usize::MAX,
            is_suffix_array(codes@, sa@),
            forall|i: int| 0 <= i < codes@.len() ==> codes@[i] < sigma,
        ensures
            wm_codes(r).len() == codes@.len(),
            forall|j: int|
                0 <= j < codes@.len() ==> wm_codes(r)[j] == if sa@[j] > 0 {
                    codes@[sa@[j] - 1]
                } else {
                    0
                },
            1 <= wm_bits(r) <= 64,
            sigma as nat <= pow2(wm_bits(r)),
            wm_bits(r) == 1 || pow2((wm_bits(r) - 1) as nat) < sigma,
    {
        let n = codes.len();
        let mut bw: Vec<u64> = Vec::new();
        let mut i: usize = 0;
        while i < n
            invariant
                n == codes@.len(),
                i <= n,
                is_suffix_array(codes@, sa@),
                bw@.len() == i,
                forall|j: int|
                    0 <= j < i ==> bw@[j] == if sa@[j] > 0 {
                        codes@[sa@[j] - 1]
                    } else {
                        0
                    },
            decreases n - i,
        {
            let k = sa[i] as usize;
            if k > 0 {
                bw.push(codes[k - 1]);
            } else {
                bw.push(0);
            }
            i = i + 1;
        }
        let bits = bits_for(sigma);
        assert forall|i: int| 0 <= i < bw@.len() implies (bw@[i] as nat) < pow2(bits as nat) by {
            let p = sa@[i] as int;
            if p > 0 {
                assert(codes@[p - 1] < sigma);
            } else {
                lemma_pow2_pos(bits as nat);
            }
        }
        wm_from_slice(&bw, bits)
    }

    /// The length of the text, sentinel included.
    pub fn len(&self) -> (r: u64)
        requires
            self.valid(),
        ensures
            r == self.n(),
    {
        wm_len(&self.bw) as u64
    }

    /// Whether the text is empty; never, as it holds the sentinel.
    pub fn is_empty(&self) -> (r: bool)
        requires
            self.valid(),
        ensures
            r == (self.n() == 0),
            !r,
    {
        wm_len(&self.bw) == 0
    }

    /// The converter between symbols and codes.
    pub fn get_converter(&self) -> (r: &Converter)
        ensures
            *r == self.converter_spec(),
    {
        &self.converter
    }

    /// The code in the last column of row `i`.
    pub fn get_l_backward(&self, i: u64) -> (r: u64)
        requires
            self.valid(),
            i < self.n(),
        ensures
            r == self.bwt()[i as int],
    {
        wm_get(&self.bw, i as usize)
    }

    /// `C[c] + rank(c, i)` for the code `c`.
    fn lf_with(&self, c: u64, i: u64) -> (r: u64)
        requires
            self.valid(),
            (c as nat) < self.sigma(),
            i <= self.n(),
        ensures
            r == self.lf_with_spec(c, i as int),
            self.cs_spec()[c as int] <= r <= self.cs_spec()[c + 1] <= self.n(),
    {
        proof {
            self.lemma_lf_with_bounds(c, i as int, i as int);
        }
        self.cs[c as usize] + wm_rank(&self.bw, i as usize, c) as u64
    }

    /// The LF mapping: the row of the suffix one position earlier.
    pub fn lf_map_backward(&self, i: u64) -> (r: u64)
        requires
            self.valid(),
            i < self.n(),
        ensures
            r == self.lf_spec(i as int),
            r < self.n(),
    {
        proof {
            self.lemma_wf_facts();
            self.lemma_lf_fl_inverse(i as int);
        }
        let c = self.get_l_backward(i);
        self.lf_with(c, i)
    }

    /// The LF mapping by the symbol `c`, read from no row: extends a row
    /// boundary of backward search by `c`.
    pub fn lf_map2_backward(&self, c: u64, i: u64) -> (r: u64)
        requires
            self.valid(),
            self.converter_spec().accepts(c),
            i <= self.n(),
        ensures
            r == self.lf_with_spec(self.converter_spec().convert_spec(c), i as int),
            r <= self.n(),
    {
        let code = self.converter.convert(c);
        self.lf_with(code, i)
    }

    /// The code in the first column of row `i`, found by binary search in `C`.
    pub fn get_f_forward(&self, i: u64) -> (r: u64)
        requires
            self.valid(),
            i < self.n(),
        ensures
            r == self.f_spec(i as int),
            (r as nat) < self.sigma(),
            self.cs_spec()[r as int] <= i < self.cs_spec()[r + 1],
    {
        proof {
            self.lemma_wf_facts();
        }
        let mut s: usize = 0;
        let mut e: usize = self.cs.len() - 1;
        while e - s > 1
            invariant
                self.wf(),
                s < e <= self.sigma(),
                self.cs_spec()[s as int] <= i < self.cs_spec()[e as int],
            decreases e - s,
        {
            let m = s + (e - s) / 2;
            if self.cs[m] <= i {
                s = m;
            } else {
                e = m;
            }
        }
        proof {
            self.lemma_f_unique(s as u64, i as int);
        }
        s as u64
    }

    /// The FL mapping: the row of the suffix one position later.
    pub fn fl_map_forward(&self, i: u64) -> (r: u64)
        requires
            self.valid(),
            i < self.n(),
        ensures
            r == self.fl_spec(i as int),
            r < self.n(),
    {
        let c = self.get_f_forward(i);
        self.fl_with(c, i)
    }

    fn fl_with(&self, c: u64, i: u64) -> (r: u64)
        requires
            self.valid(),
            (c as nat) < self.sigma(),
            self.cs_spec()[c as int] <= i < self.cs_spec()[c + 1],
        ensures
            r == self.fl_with_spec(c, i as int),
            r < self.n(),
    {
        proof {
            self.lemma_wf_facts();
            self.lemma_counts(c);
        }
        let k = (i - self.cs[c as usize]) as usize;
        let r = wm_select(&self.bw, k, c);
        proof {
            self.lemma_select_is(c, k as int, r as int);
        }
        r as u64
    }

    /// The FL mapping by the symbol `c`, for a row `i` of its block.
    pub fn fl_map2_forward(&self, c: u64, i: u64) -> (r: u64)
        requires
            self.valid(),
            self.converter_spec().accepts(c),
            self.cs_spec()[self.converter_spec().convert_spec(c) as int] <= i
                < self.cs_spec()[self.converter_spec().convert_spec(c) + 1],
        ensures
            r == self.fl_with_spec(self.converter_spec().convert_spec(c), i as int),
            r < self.n(),
    {
        let code = self.converter.convert(c);
        self.fl_with(code, i)
    }

    /// The text position of row `i`: walk LF until a sampled row, then add
    /// the steps taken to its entry. `None` without a sampled suffix array,
    /// or when no sampled row comes within `n` steps.
    pub fn get_sa(&self, i: u64) -> (r: Option<u64>)
        requires
            self.valid(),
            i < self.n(),
        ensures
            r == self.walk(i as int, 0, self.n()),
            self.samples_spec() is Some && unique_sentinel(self.codes()) ==> r == Some(
                self.sa_spec()[i as int],
            ),
    {
        proof {
            if self.samples_spec() is Some && unique_sentinel(self.codes()) {
                self.lemma_walk_exact(i as int);
            }
        }
        self.walk_to_sample(i)
    }

    /// Walk LF from row `i` until a sampled row, at most `n` steps.
    fn walk_to_sample(&self, i: u64) -> (r: Option<u64>)
        requires
            self.valid(),
            i < self.n(),
        ensures
            r == self.walk(i as int, 0, self.n()),
    {
        let n = self.len();
        match &self.suffix_array {
            None => None,
            Some(ssa) => {
                let mut row = i;
                let mut steps: u64 = 0;
                while steps <= n
                    invariant
                        self.wf(),
                        n == self.n(),
                        self.suffix_array == Some(*ssa),
                        row < n,
                        steps <= n,
                        self.walk(i as int, 0, n as nat) == self.walk(
                            row as int,
                            steps as nat,
                            (n - steps) as nat,
                        ),
                    decreases n - steps,
                {
                    match ssa.get(row as usize) {
                        Some(v) => {
                            proof {
                                assert(v < n) by {
                                    assert(ssa.samples(self.sa@));
                                    assert(self.sa@[row as int] < n);
                                }
                            }
                            return Some((v + steps) % n);
                        },
                        None => {
                            if steps == n {
                                return None;
                            }
                            row = self.lf_map_backward(row);
                            steps = steps + 1;
                        },
                    }
                }
                None
            },
        }
    }

    /// With every entry sampled, the walk of locate gives the suffix array.
    pub proof fn lemma_level_zero(&self, i: int)
        requires
            self.valid(),
            self.samples_spec() is Some,
            self.samples_spec().unwrap().level_spec() == 0,
            0 <= i < self.n(),
        ensures
            self.walk(i, 0, self.n()) == Some(self.sa_spec()[i]),
    {
        lemma2_to64();
        let ssa = self.samples_spec().unwrap();
        assert(ssa.samples(self.sa@));
        assert(ssa.get_spec(i) == Some(self.sa@[i]));
        assert(self.sa@[i] < self.n());
        lemma_small_mod(self.sa@[i] as nat, self.n());
    }

    /// Rows `lo..hi` of the suffix array, as locate recovers them.
    pub fn locate_rows(&self, lo: u64, hi: u64) -> (r: Option<Vec<u64>>)
        requires
            self.valid(),
            lo <= hi <= self.n(),
        ensures
            (r is Some) == (forall|k: int| lo <= k < hi ==> self.walk(k, 0, self.n()) is Some),
            r matches Some(v) ==> v@.len() == hi - lo && forall|k: int|
                0 <= k < hi - lo ==> self.walk(lo + k, 0, self.n()) == Some(v@[k]),
    {
        let mut out: Vec<u64> = Vec::new();
        let mut k = lo;
        while k < hi
            invariant
                self.wf(),
                lo <= k <= hi <= self.n(),
                out@.len() == k - lo,
                forall|j: int| 0 <= j < k - lo ==> self.walk(lo + j, 0, self.n()) == Some(out@[j]),
            decreases hi - k,
        {
            match self.get_sa(k) {
                Some(p) => out.push(p),
                None => {
                    return None;
                },
            }
            k = k + 1;
        }
        assert forall|j: int| lo <= j < hi implies self.walk(j, 0, self.n()) is Some by {
            assert(self.walk(lo + (j - lo), 0, self.n()) == Some(out@[j - lo]));
        }
        Some(out)
    }


    /// The row range that backward search by the codes `p` reaches from the
    /// range `s..e`, the last code taken first.
    pub open spec fn backward(&self, p: Seq<u64>, s: int, e: int) -> (int, int)
        decreases p.len(),
    {
        if p.len() == 0 {
            (s, e)
        } else {
            let c = p.last();
            self.backward(p.drop_last(), self.lf_with_spec(c, s), self.lf_with_spec(c, e))
        }
    }

    /// The row range of the symbols `p`, searched from all rows.
    pub open spec fn range_of(&self, p: Seq<u64>) -> (int, int) {
        self.backward(codes_of(self.converter_spec(), p), 0, self.n() as int)
    }

    /// The number of matches of the symbols `p`.
    pub open spec fn count_spec(&self, p: Seq<u64>) -> int {
        self.range_of(p).1 - self.range_of(p).0
    }

    /// Backward search keeps a range inside the rows, and an empty one empty.
    pub proof fn lemma_backward_bounds(&self, p: Seq<u64>, s: int, e: int)
        requires
            self.valid(),
            forall|k: int| 0 <= k < p.len() ==> (p[k] as nat) < self.sigma(),
            0 <= s <= e <= self.n(),
        ensures
            0 <= self.backward(p, s, e).0 <= self.backward(p, s, e).1 <= self.n(),
            s == e ==> self.backward(p, s, e).0 == self.backward(p, s, e).1,
        decreases p.len(),
    {
        if p.len() > 0 {
            let c = p.last();
            self.lemma_lf_with_bounds(c, s, e);
            self.lemma_backward_bounds(p.drop_last(), self.lf_with_spec(c, s), self.lf_with_spec(c, e));
        }
    }

    /// Searching `p + q` is searching `q`, then extending the result by `p`.
    pub proof fn lemma_backward_concat(&self, p: Seq<u64>, q: Seq<u64>, s: int, e: int)
        ensures
            self.backward(p + q, s, e) == ({
                let r = self.backward(q, s, e);
                self.backward(p, r.0, r.1)
            }),
        decreases q.len(),
    {
        if q.len() == 0 {
            assert(p + q == p);
        } else {
            let c = q.last();
            assert((p + q).last() == c);
            assert((p + q).drop_last() == p + q.drop_last());
            self.lemma_backward_concat(
                p,
                q.drop_last(),
                self.lf_with_spec(c, s),
                self.lf_with_spec(c, e),
            );
        }
    }

    /// Counting `p` followed by `q` is counting the search for `q` extended by
    /// `p`.
    pub proof fn lemma_count_extend(&self, p: Seq<u64>, q: Seq<u64>)
        ensures
            self.range_of(p + q) == ({
                let r = self.range_of(q);
                self.backward(codes_of(self.converter_spec(), p), r.0, r.1)
            }),
            self.count_spec(p + q) == ({
                let r = self.range_of(q);
                let x = self.backward(codes_of(self.converter_spec(), p), r.0, r.1);
                x.1 - x.0
            }),
    {
        let conv = self.converter_spec();
        assert(codes_of(conv, p + q) == codes_of(conv, p) + codes_of(conv, q));
        self.lemma_backward_concat(codes_of(conv, p), codes_of(conv, q), 0, self.n() as int);
    }


    /// Whether the index keeps a sampled suffix array, so that locate works.
    pub fn has_positions(&self) -> (r: bool)
        ensures
            r == self.samples_spec() is Some,
    {
        self.suffix_array.is_some()
    }

    /// A valid index is not empty, its converter is valid, and the codes in
    /// its last column are codes of the alphabet.
    pub proof fn lemma_bwt_codes(&self)
        requires
            self.valid(),
        ensures
            self.n() >= 1,
            self.sa_spec().len() == self.n(),
            is_suffix_array(self.codes(), self.sa_spec()),
            forall|i: int| 0 <= i < self.n() ==> (#[trigger] self.bwt()[i] as nat) < self.sigma(),
            self.sigma() == self.converter_spec().len_spec(),
            self.converter_spec().wf(),
    {
        self.lemma_wf_facts();
    }

    /// Search for `pattern` in the text.
    pub fn search(&self, pattern: &[u64]) -> (r: Result<Search<'_>, FMIndexError>)
        requires
            self.valid(),
        ensures
            r is Err <==> exists|k: int|
                0 <= k < pattern@.len() && !self.converter_spec().accepts(pattern@[k]),
            r matches Err(e) ==> e == FMIndexError::AlphabetMismatch,
            r matches Ok(x) ==> x.valid() && x.index_spec() == *self && x.pattern_spec()
                == pattern@,
    {
        let r = Search::new(self).search(pattern);
        assert(pattern@ + Seq::<u64>::empty() == pattern@);
        r
    }

    /// Iterate the text forward from row `i`.
    pub fn iter_forward(&self, i: u64) -> (r: ForwardIterator<'_>)
        requires
            self.valid(),
            i < self.n(),
        ensures
            r.index_spec() == *self,
            r.row() == i,
    {
        ForwardIterator::new(self, i)
    }

    /// Iterate the text backward from row `i`.
    pub fn iter_backward(&self, i: u64) -> (r: BackwardIterator<'_>)
        requires
            self.valid(),
            i < self.n(),
        ensures
            r.index_spec() == *self,
            r.row() == i,
    {
        BackwardIterator::new(self, i)
    }


    /// Applying the LF mapping `k` times from row `i`.
    pub open spec fn lf_iter(&self, i: int, k: nat) -> int
        decreases k,
    {
        if k == 0 {
            i
        } else {
            self.lf_spec(self.lf_iter(i, (k - 1) as nat))
        }
    }

    /// With the sentinel only at the end, LF takes the row of position `p`
    /// to the row of position `p - 1` (cyclically).
    pub proof fn lemma_lf_property(&self, i: int)
        requires
            self.valid(),
            unique_sentinel(self.codes()),
            0 <= i < self.n(),
        ensures
            0 <= self.lf_spec(i) < self.n(),
            self.sa_spec()[self.lf_spec(i)] == prev_pos(self.n() as int, self.sa_spec()[i] as int),
    {
        self.lemma_wf_facts();
        lemma_lf_general(self.text@, self.sa@, i);
    }

    /// Starting at row 0 and applying LF visits every row once in `n` steps:
    /// step `k` reaches the row of position `n - 1 - k`, and step `n` is back
    /// at row 0.
    pub proof fn lemma_lf_cycle(&self)
        requires
            self.valid(),
            unique_sentinel(self.codes()),
        ensures
            forall|k: nat|
                k < self.n() ==> 0 <= #[trigger] self.lf_iter(0, k) < self.n()
                    && self.sa_spec()[self.lf_iter(0, k)] == self.n() - 1 - k,
            forall|j: nat, k: nat| j < k < self.n() ==> self.lf_iter(0, j) != self.lf_iter(0, k),
            forall|r: int|
                0 <= r < self.n() ==> self.lf_iter(0, (self.n() - 1 - self.sa_spec()[r]) as nat)
                    == r,
            self.lf_iter(0, self.n()) == 0,
    {
        let n = self.n();
        lemma_first_row(self.text@, self.sa@);
        assert forall|k: nat| k < n implies 0 <= #[trigger] self.lf_iter(0, k) < n
            && self.sa_spec()[self.lf_iter(0, k)] == n - 1 - k by {
            self.lemma_cycle_step(k);
        }
        assert forall|j: nat, k: nat| j < k < n implies self.lf_iter(0, j) != self.lf_iter(0, k) by {
            assert(self.sa_spec()[self.lf_iter(0, j)] == n - 1 - j);
            assert(self.sa_spec()[self.lf_iter(0, k)] == n - 1 - k);
        }
        assert forall|r: int| 0 <= r < n implies self.lf_iter(0, (n - 1 - self.sa_spec()[r]) as nat)
            == r by {
            let k = (n - 1 - self.sa_spec()[r]) as nat;
            assert(0 <= self.lf_iter(0, k) < n);
            assert(self.sa_spec()[self.lf_iter(0, k)] == self.sa_spec()[r]);
        }
        self.lemma_cycle_step((n - 1) as nat);
        self.lemma_lf_property(self.lf_iter(0, (n - 1) as nat));
        lemma_row_of(self.sa@, n, n - 1);
    }

    proof fn lemma_cycle_step(&self, k: nat)
        requires
            self.valid(),
            unique_sentinel(self.codes()),
            k < self.n(),
        ensures
            0 <= self.lf_iter(0, k) < self.n(),
            self.sa_spec()[self.lf_iter(0, k)] == self.n() - 1 - k,
        decreases k,
    {
        if k == 0 {
            lemma_first_row(self.text@, self.sa@);
        } else {
            self.lemma_cycle_step((k - 1) as nat);
            self.lemma_lf_property(self.lf_iter(0, (k - 1) as nat));
        }
    }

    proof fn lemma_walk_reaches(&self, row: int, steps: nat, fuel: nat)
        requires
            self.valid(),
            unique_sentinel(self.codes()),
            self.samples_spec() is Some,
            0 <= row < self.n(),
            self.sa_spec()[row] + steps < self.n(),
            fuel >= self.sa_spec()[row],
        ensures
            self.walk(row, steps, fuel) == Some((self.sa_spec()[row] + steps) as u64),
        decreases self.sa_spec()[row],
    {
        let ssa = self.samples_spec().unwrap();
        assert(ssa.samples(self.sa@));
        assert(ssa.get_spec(row) == if self.sa@[row] as nat % pow2(ssa.level_spec()) == 0 {
            Some(self.sa@[row])
        } else {
            None
        });
        lemma_pow2_pos(ssa.level_spec());
        if self.sa@[row] as nat % pow2(ssa.level_spec()) == 0 {
            lemma_small_mod((self.sa@[row] + steps) as nat, self.n());
        } else {
            assert(self.sa@[row] != 0) by {
                lemma_small_mod(0, pow2(ssa.level_spec()));
            }
            self.lemma_lf_property(row);
            self.lemma_walk_reaches(self.lf_spec(row), steps + 1, (fuel - 1) as nat);
        }
    }

    /// With the sentinel only at the end, locate's walk from any row gives
    /// that row's suffix array entry, whatever the sampling level.
    pub proof fn lemma_walk_exact(&self, i: int)
        requires
            self.valid(),
            unique_sentinel(self.codes()),
            self.samples_spec() is Some,
            0 <= i < self.n(),
        ensures
            self.walk(i, 0, self.n()) == Some(self.sa_spec()[i]),
    {
        self.lemma_wf_facts();
        self.lemma_walk_reaches(i, 0, self.n());
    }


    /// The boundary rows of the pattern codes `q`: the rows whose suffix
    /// sorts before `q`, and those that sort before it or start with it.
    pub open spec fn pattern_bounds(&self, q: Seq<u64>) -> (int, int) {
        (
            pat_rows(self.codes(), self.sa_spec(), q, true).len() as int,
            pat_rows(self.codes(), self.sa_spec(), q, false).len() as int,
        )
    }

    proof fn lemma_backward_rows(&self, a: Seq<u64>, q: Seq<u64>)
        requires
            self.valid(),
            unique_sentinel(self.codes()),
            forall|k: int| 0 <= k < a.len() ==> a[k] != 0 && (a[k] as nat) < self.sigma(),
        ensures
            self.backward(a, self.pattern_bounds(q).0, self.pattern_bounds(q).1)
                == self.pattern_bounds(a + q),
        decreases a.len(),
    {
        if a.len() == 0 {
            assert(a + q == q);
        } else {
            let c = a.last();
            lemma_pat_step(self.text@, self.sa@, c, q, true);
            lemma_pat_step(self.text@, self.sa@, c, q, false);
            self.lemma_backward_rows(a.drop_last(), seq![c] + q);
            assert(a.drop_last() + (seq![c] + q) == a + q);
        }
    }


    /// The sentinel alone: backward search gives the one row of the suffix
    /// that is the sentinel.
    proof fn lemma_sentinel_rows(&self)
        requires
            self.valid(),
            unique_sentinel(self.codes()),
        ensures
            self.pattern_bounds(seq![0u64]) == self.backward(seq![0u64], 0, self.n() as int),
    {
        let t = self.text@;
        let sa = self.sa@;
        let n = t.len() as int;
        let z = seq![0u64];
        self.lemma_wf_facts();
        lemma_first_row(t, sa);
        assert(z.drop_first() =~= Seq::<u64>::empty());
        assert(z.len() == 1 && z[0] == 0);
        lemma_row_of(sa, n as nat, n - 1);
        assert forall|k: int| 0 <= k < n implies !pat_before(t, sa[k] as int, z, true) && (
        pat_before(t, sa[k] as int, z, false) == (k == 0)) by {
            let x = sa[k] as int;
            assert(x < n);
            assert(pat_before(t, x + 1, z.drop_first(), true) == false);
            assert(pat_before(t, x + 1, z.drop_first(), false) == true);
            if x == n - 1 {
                assert(t[x] == 0);
                assert(k == row_of(sa, n - 1));
                assert(k == 0);
            } else {
                assert(t[x] != 0);
                assert(k != 0);
            }
        }
        assert(pat_rows(t, sa, z, true) =~= Set::empty());
        assert(pat_rows(t, sa, z, false) =~= set![0int]);
        self.lemma_counts(0);
        lemma_rank_bounds(self.bwt(), 0, 0, 0);
        lemma_below_card(t, 1);
        assert(below_set(t, 1) =~= set![n - 1]);
        assert(z.last() == 0 && z.drop_last() =~= Seq::<u64>::empty());
        assert(self.lf_with_spec(0, 0) == 0);
        assert(self.lf_with_spec(0, n) == 1);
        assert(self.backward(z, 0, n) == self.backward(z.drop_last(), 0, 1));
        assert(set![0int].len() == 1);
    }

    /// With the sentinel only at the end, the rows that backward search gives
    /// for a pattern of symbols other than the sentinel are exactly the rows
    /// whose suffix starts with it; their number is the number of its
    /// occurrences, and their positions are those occurrences.
    pub proof fn lemma_search_finds_occurrences(&self, p: Seq<u64>)
        requires
            self.valid(),
            unique_sentinel(self.codes()),
            forall|k: int| 0 <= k < p.len() ==> self.converter_spec().accepts(p[k]),
            forall|k: int| 0 <= k < p.len() - 1 ==> p[k] != 0,
        ensures
            ({
                let q = codes_of(self.converter_spec(), p);
                let r = self.range_of(p);
                &&& 0 <= r.0 <= r.1 <= self.n()
                &&& forall|k: int|
                    0 <= k < self.n() ==> (r.0 <= k < r.1 <==> starts_with(
                        self.codes(),
                        self.sa_spec()[k] as int,
                        q,
                    ))
                &&& self.count_spec(p) == occurrences(self.codes(), q).len()
                &&& forall|x: int| #[trigger]
                    occurrences(self.codes(), q).contains(x) <==> exists|k: int|
                        r.0 <= k < r.1 && self.sa_spec()[k] == x
            }),
    {
        let q = codes_of(self.converter_spec(), p);
        let t = self.text@;
        let n = t.len() as int;
        self.lemma_wf_facts();
        assert forall|k: int| 0 <= k < q.len() implies (k < q.len() - 1 ==> q[k] != 0) && (
        q[k] as nat) < self.sigma() by {
            self.converter.lemma_round_trip(p[k]);
        }
        let e = Seq::<u64>::empty();
        assert(pat_rows(t, self.sa@, e, true) =~= Set::empty());
        assert(pat_rows(t, self.sa@, e, false) =~= set_int_range(0, n));
        lemma_int_range(0, n);
        if q.len() > 0 && q.last() == 0 {
            let a = q.drop_last();
            let z = seq![0u64];
            assert(a + z == q);
            self.lemma_sentinel_rows();
            self.lemma_backward_concat(a, z, 0, n);
            self.lemma_backward_rows(a, z);
        } else {
            self.lemma_backward_rows(q, e);
            assert(q + e == q);
        }
        lemma_pat_occurrences(t, self.sa@, q);
    }


    /// Applying the FL mapping `k` times from row `i`.
    pub open spec fn fl_iter(&self, i: int, k: nat) -> int
        decreases k,
    {
        if k == 0 {
            i
        } else {
            self.fl_spec(self.fl_iter(i, (k - 1) as nat))
        }
    }

    /// With the sentinel only at the end, the first column of a row holds
    /// the code at the start of its suffix.
    pub proof fn lemma_first_column(&self, i: int)
        requires
            self.valid(),
            unique_sentinel(self.codes()),
            0 <= i < self.n(),
        ensures
            self.f_spec(i) == self.codes()[self.sa_spec()[i] as int],
    {
        let t = self.text@;
        let sa = self.sa@;
        let n = t.len() as int;
        self.lemma_wf_facts();
        let x = sa[i] as int;
        let c = t[x];
        assert(c < self.converter.len_spec());
        if c == 0 {
            lemma_first_row(t, sa);
            lemma_row_of(sa, n as nat, n - 1);
            assert(i == 0);
            lemma_below_card(t, 1);
            assert(below_set(t, 1) =~= set![n - 1]);
            self.lemma_f_unique(0, 0);
        } else {
            let e = Seq::<u64>::empty();
            let z = seq![c];
            assert(z + e == z);
            assert(z.drop_first() =~= e);
            assert(pat_rows(t, sa, e, true) =~= Set::empty());
            assert(pat_rows(t, sa, e, false) =~= set_int_range(0, n));
            lemma_int_range(0, n);
            lemma_pat_step(t, sa, c, e, true);
            lemma_pat_step(t, sa, c, e, false);
            lemma_pat_rows(t, sa, z, true);
            lemma_pat_rows(t, sa, z, false);
            lemma_rank_bounds(self.bwt(), c, 0, 0);
            self.lemma_counts(c);
            assert(!pat_before(t, x, z, true) && pat_before(t, x, z, false)) by {
                assert(pat_before(t, x + 1, e, true) == false);
                assert(pat_before(t, x + 1, e, false) == true);
            }
            assert(!pat_rows(t, sa, z, true).contains(i));
            assert(pat_rows(t, sa, z, false).contains(i));
            self.lemma_f_unique(c, i);
        }
    }

    /// With the sentinel only at the end, FL takes the row of position `p`
    /// to the row of position `p + 1` (cyclically).
    pub proof fn lemma_fl_property(&self, i: int)
        requires
            self.valid(),
            unique_sentinel(self.codes()),
            0 <= i < self.n(),
        ensures
            0 <= self.fl_spec(i) < self.n(),
            self.sa_spec()[self.fl_spec(i)] == next_pos(self.n() as int, self.sa_spec()[i] as int),
    {
        self.lemma_wf_facts();
        self.lemma_lf_fl_inverse(i);
        self.lemma_lf_property(self.fl_spec(i));
    }

    /// With the sentinel only at the end, iterating forward from row `i`
    /// reads the text from the position of row `i` on, cyclically: step `k`
    /// is at the row of position `k` after it and reads the code there.
    pub proof fn lemma_forward_reads_text(&self, i: int, k: nat)
        requires
            self.valid(),
            unique_sentinel(self.codes()),
            0 <= i < self.n(),
        ensures
            0 <= self.fl_iter(i, k) < self.n(),
            self.sa_spec()[self.fl_iter(i, k)] == ahead(self.n() as int, self.sa_spec()[i] as int, k),
            self.f_spec(self.fl_iter(i, k)) == self.codes()[ahead(
                self.n() as int,
                self.sa_spec()[i] as int,
                k,
            )],
        decreases k,
    {
        if k > 0 {
            self.lemma_forward_reads_text(i, (k - 1) as nat);
            self.lemma_fl_property(self.fl_iter(i, (k - 1) as nat));
        }
        self.lemma_first_column(self.fl_iter(i, k));
    }

    /// With the sentinel only at the end, iterating backward from row `i`
    /// reads the text before the position of row `i`, cyclically: step `k`
    /// reads the code `k + 1` positions before it.
    pub proof fn lemma_backward_reads_text(&self, i: int, k: nat)
        requires
            self.valid(),
            unique_sentinel(self.codes()),
            0 <= i < self.n(),
        ensures
            0 <= self.lf_iter(i, k) < self.n(),
            self.sa_spec()[self.lf_iter(i, k)] == behind(self.n() as int, self.sa_spec()[i] as int, k),
            self.bwt()[self.lf_iter(i, k)] == self.codes()[behind(
                self.n() as int,
                self.sa_spec()[i] as int,
                k + 1,
            )],
        decreases k,
    {
        self.lemma_wf_facts();
        if k > 0 {
            self.lemma_backward_reads_text(i, (k - 1) as nat);
            self.lemma_lf_property(self.lf_iter(i, (k - 1) as nat));
        }
        let j = self.lf_iter(i, k);
        assert((((k + 1) as nat) - 1) as nat == k);
        assert(behind(self.n() as int, self.sa_spec()[i] as int, (k + 1) as nat) == prev_pos(
            self.n() as int,
            behind(self.n() as int, self.sa_spec()[i] as int, k),
        ));
        assert(behind(self.n() as int, self.sa_spec()[i] as int, k + 1) == prev_pos(
            self.n() as int,
            self.sa_spec()[j] as int,
        ));
    }


    proof fn lemma_backward_same(&self, other: &FMIndexBackend, p: Seq<u64>, s: int, e: int)
        requires
            self.bwt() == other.bwt(),
            forall|c: int| 0 <= c < p.len() ==> self.cs_spec()[p[c] as int] == other.cs_spec()[p[c] as int],
        ensures
            self.backward(p, s, e) == other.backward(p, s, e),
        decreases p.len(),
    {
        if p.len() > 0 {
            let c = p.last();
            assert(self.cs_spec()[c as int] == other.cs_spec()[c as int]);
            self.lemma_backward_same(other, p.drop_last(), self.lf_with_spec(c, s), self.lf_with_spec(c, e));
        }
    }

    /// Two indexes of one text with one converter, whatever their sampling
    /// levels, have the same suffix array and give every pattern the same
    /// rows; so locate answers alike on both.
    pub proof fn lemma_same_text(&self, other: &FMIndexBackend, p: Seq<u64>)
        requires
            self.valid(),
            other.valid(),
            self.codes() == other.codes(),
            self.converter_spec() == other.converter_spec(),
            forall|k: int| 0 <= k < p.len() ==> self.converter_spec().accepts(p[k]),
        ensures
            self.sa_spec() == other.sa_spec(),
            self.bwt() == other.bwt(),
            self.range_of(p) == other.range_of(p),
    {
        lemma_suffix_array_unique(self.text@, self.sa@, other.sa@);
        let q = codes_of(self.converter_spec(), p);
        assert forall|c: int| 0 <= c < q.len() implies self.cs_spec()[q[c] as int] == other.cs_spec()[q[c] as int] by {
            self.converter.lemma_round_trip(p[c]);
            let d = q[c] as int;
            assert(d == self.converter.convert_spec(p[c]));
            assert(0 <= d <= self.converter.len_spec());
            assert(self.cs@[d] == count_below(self.text@, d));
            assert(other.cs@[d] == count_below(other.text@, d));
        }
        self.lemma_backward_same(other, q, 0, self.n() as int);
    }

    /// The LF and FL mappings are inverse to each other on every row.
    pub proof fn lemma_lf_fl_inverse(&self, i: int)
        requires
            self.valid(),
            0 <= i < self.n(),
        ensures
            0 <= self.lf_spec(i) < self.n(),
            0 <= self.fl_spec(i) < self.n(),
            self.fl_spec(self.lf_spec(i)) == i,
            self.lf_spec(self.fl_spec(i)) == i,
    {
        self.lemma_wf_facts();
        let c = self.bwt()[i];
        self.lemma_counts(c);
        lemma_rank_strict(self.bwt(), c, i, self.n() as int);
        let j = self.lf_spec(i);
        self.lemma_f_unique(c, j);
        self.lemma_select_is(c, rank_spec(self.bwt(), c, i) as int, i);
        self.lemma_f_exists(i, self.sigma() as int);
        let d = self.f_spec(i);
        self.lemma_counts(d);
        lemma_select_exists(self.bwt(), d, (i - self.cs_spec()[d as int]) as nat, self.n() as int);
        let w = choose|w: int|
            0 <= w < self.n() && self.bwt()[w] == d && rank_spec(self.bwt(), d, w) == i
                - self.cs_spec()[d as int];
        self.lemma_select_is(d, i - self.cs_spec()[d as int], w);
    }
}

impl FMIndexBackend {
    /// The bytes the wavelet matrix holds on the heap.
    pub closed spec fn matrix_bytes(&self) -> nat {
        wm_heap_bytes(self.bw)
    }

    /// The heap footprint: the wavelet matrix, eight bytes per entry of `C`,
    /// and the sampled suffix array if there is one.
    pub open spec fn heap_bytes_spec(&self) -> nat {
        self.matrix_bytes() + 8 * self.cs_spec().len() + match self.samples_spec() {
            Some(s) => s.heap_bytes(),
            None => 0,
        }
    }

    /// The heap footprint in bytes, saturated at `usize::MAX`.
    pub fn size(&self) -> (r: usize)
        ensures
            r as int == saturate(self.heap_bytes_spec() as int),
    {
        let w = wm_heap_size(&self.bw);
        let c = sat_words(self.cs.len());
        let s = match &self.suffix_array {
            Some(ssa) => ssa.size(),
            None => 0,
        };
        sat_add(sat_add(w, c), s)
    }
}

impl HeapSize for FMIndexBackend {
    open spec fn heap_bytes(&self) -> nat {
        self.heap_bytes_spec()
    }

    fn size(&self) -> (r: usize) {
        FMIndexBackend::size(self)
    }
}

} // verus!
