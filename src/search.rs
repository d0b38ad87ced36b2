//! Backward search: a cursor over the rows whose suffixes start with the
//! pattern searched so far.
use crate::fm_index::{codes_of, FMIndexBackend};
use crate::lf::{occurrences, unique_sentinel};
use crate::iter::{BackwardIterator, ForwardIterator};
use vstd::prelude::*;

verus! {

/// Why a query could not be answered.
#[derive(Clone, Copy, Debug, PartialEq, Eq, Structural)]
pub enum FMIndexError {
    /// A pattern symbol lies outside the converter's alphabet.
    AlphabetMismatch,
    /// Locate was asked of an index built without a sampled suffix array.
    NoSuffixArray,
    /// No sampled row was reached from a matching row within the length of
    /// the text; this needs a text with the sentinel inside it.
    MissingSample,
}

/// The rows of an index whose suffixes start with `pattern`.
pub struct Search<'a> {
    index: &'a FMIndexBackend,
    s: u64,
    e: u64,
    pattern: Vec<u64>,
}

impl<'a> Search<'a> {
    pub closed spec fn index_spec(&self) -> FMIndexBackend {
        *self.index
    }

    /// The symbols searched so far.
    pub closed spec fn pattern_spec(&self) -> Seq<u64> {
        self.pattern@
    }

    /// The rows of the match, `s..e`.
    pub closed spec fn range_spec(&self) -> (int, int) {
        (self.s as int, self.e as int)
    }

    pub closed spec fn wf(&self) -> bool {
        let idx = *self.index;
        let r = idx.range_of(self.pattern@);
        &&& idx.valid()
        &&& self.s <= self.e <= idx.n()
        &&& forall|k: int|
            0 <= k < self.pattern@.len() ==> idx.converter_spec().accepts(self.pattern@[k])
        &&& 0 <= r.0 <= r.1 <= idx.n()
        &&& r.0 < r.1 ==> self.s == r.0 && self.e == r.1
        &&& r.0 == r.1 ==> self.s == self.e
    }

    /// Well-formedness, as callers see it.
    pub open spec fn valid(&self) -> bool {
        &&& self.wf()
        &&& self.index_spec().valid()
        &&& 0 <= self.range_spec().0 <= self.range_spec().1 <= self.index_spec().n()
        &&& forall|k: int|
            0 <= k < self.pattern_spec().len() ==> self.index_spec().converter_spec().accepts(
                self.pattern_spec()[k],
            )
    }

    /// The search for the empty pattern: all rows.
    pub fn new(index: &'a FMIndexBackend) -> (r: Search<'a>)
        requires
            index.valid(),
        ensures
            r.valid(),
            r.index_spec() == *index,
            r.pattern_spec() == Seq::<u64>::empty(),
            r.range_spec() == (0int, index.n() as int),
    {
        let e = index.len();
        Search { index, s: 0, e, pattern: Vec::new() }
    }

    /// Refine the search: look for `pattern` followed by what was searched so far.
    pub fn search(&self, pattern: &[u64]) -> (r: Result<Search<'a>, FMIndexError>)
        requires
            self.valid(),
        ensures
            r is Err <==> exists|k: int|
                0 <= k < pattern@.len() && !self.index_spec().converter_spec().accepts(
                    pattern@[k],
                ),
            r matches Err(e) ==> e == FMIndexError::AlphabetMismatch,
            r matches Ok(x) ==> x.valid() && x.index_spec() == self.index_spec()
                && x.pattern_spec() == pattern@ + self.pattern_spec(),
    {
        let idx = self.index;
        let conv = idx.get_converter();
        let m = pattern.len();
        let mut k: usize = 0;
        while k < m
            invariant
                k <= m,
                m == pattern@.len(),
                *conv == idx.converter_spec(),
                idx == self.index,
                forall|j: int| 0 <= j < k ==> idx.converter_spec().accepts(pattern@[j]),
            decreases m - k,
        {
            if !conv.is_valid(pattern[k]) {
                assert(!self.index_spec().converter_spec().accepts(pattern@[k as int]));
                return Err(FMIndexError::AlphabetMismatch);
            }
            k = k + 1;
        }
        let ghost p = codes_of(idx.converter_spec(), pattern@);
        let ghost r0 = idx.range_of(self.pattern@);
        proof {
            idx.lemma_bwt_codes();
            idx.lemma_count_extend(pattern@, self.pattern@);
            assert forall|j: int| 0 <= j < p.len() implies (p[j] as nat) < idx.sigma() by {
                idx.converter_spec().lemma_round_trip(pattern@[j]);
            }
            idx.lemma_backward_bounds(p, r0.0, r0.1);
            assert(p.subrange(0, m as int) == p);
            idx.lemma_backward_bounds(p, self.s as int, self.e as int);
        }
        let mut s = self.s;
        let mut e = self.e;
        let mut j = m;
        while j > 0
            invariant
                self.wf(),
                idx == self.index,
                m == pattern@.len(),
                j <= m,
                p == codes_of(idx.converter_spec(), pattern@),
                forall|q: int| 0 <= q < m ==> idx.converter_spec().accepts(pattern@[q]),
                forall|q: int| 0 <= q < p.len() ==> (p[q] as nat) < idx.sigma(),
                s <= e <= idx.n(),
                ({
                    let x = idx.backward(p.subrange(0, j as int), s as int, e as int);
                    let y = idx.backward(p, r0.0, r0.1);
                    (y.0 < y.1 ==> x == y) && (y.0 == y.1 ==> x.0 == x.1)
                }),
            ensures
                j == 0 || s == e,
                s <= e <= idx.n(),
                ({
                    let x = idx.backward(p.subrange(0, j as int), s as int, e as int);
                    let y = idx.backward(p, r0.0, r0.1);
                    (y.0 < y.1 ==> x == y) && (y.0 == y.1 ==> x.0 == x.1)
                }),
            decreases j,
        {
            let c = pattern[j - 1];
            let ghost ps = p.subrange(0, j as int);
            assert(ps.last() == p[j - 1]);
            assert(ps.drop_last() == p.subrange(0, j - 1));
            proof {
                idx.lemma_bwt_codes();
                idx.converter_spec().lemma_round_trip(c);
                idx.lemma_lf_with_bounds(idx.converter_spec().convert_spec(c), s as int, e as int);
            }
            s = idx.lf_map2_backward(c, s);
            e = idx.lf_map2_backward(c, e);
            j = j - 1;
            if s == e {
                proof {
                    idx.lemma_backward_bounds(p.subrange(0, j as int), s as int, e as int);
                }
                break;
            }
        }
        proof {
            assert(p.subrange(0, 0) == Seq::<u64>::empty());
            if j > 0 {
                idx.lemma_backward_bounds(p.subrange(0, j as int), s as int, e as int);
            }
        }
        let mut full: Vec<u64> = Vec::new();
        let mut q: usize = 0;
        while q < m
            invariant
                q <= m,
                m == pattern@.len(),
                full@ == pattern@.subrange(0, q as int),
            decreases m - q,
        {
            full.push(pattern[q]);
            q = q + 1;
        }
        let n2 = self.pattern.len();
        let mut q: usize = 0;
        while q < n2
            invariant
                q <= n2,
                n2 == self.pattern@.len(),
                full@ == pattern@ + self.pattern@.subrange(0, q as int),
            decreases n2 - q,
        {
            full.push(self.pattern[q]);
            assert(self.pattern@.subrange(0, q + 1) == self.pattern@.subrange(0, q as int).push(
                self.pattern@[q as int],
            ));
            q = q + 1;
        }
        assert(self.pattern@.subrange(0, n2 as int) == self.pattern@);
        assert(pattern@.subrange(0, m as int) == pattern@);
        proof {
            let y = idx.backward(p, r0.0, r0.1);
            assert(codes_of(idx.converter_spec(), full@) == codes_of(
                idx.converter_spec(),
                pattern@ + self.pattern@,
            ));
            assert(idx.range_of(full@) == y);
            let x = idx.backward(p.subrange(0, j as int), s as int, e as int);
            if j == 0 {
                assert(x == (s as int, e as int));
            } else {
                assert(s == e);
                assert(x.0 == x.1);
            }
            assert(y.0 < y.1 ==> s == y.0 && e == y.1);
            assert(y.0 == y.1 ==> s == e);
            assert forall|q: int| 0 <= q < full@.len() implies idx.converter_spec().accepts(
                full@[q],
            ) by {
                if q < m {
                    assert(full@[q] == pattern@[q]);
                } else {
                    assert(full@[q] == self.pattern@[q - m]);
                }
            }
        }
        Ok(Search { index: idx, s, e, pattern: full })
    }

    /// The number of matches.
    pub fn count(&self) -> (r: u64)
        requires
            self.valid(),
        ensures
            r == self.index_spec().count_spec(self.pattern_spec()),
            unique_sentinel(self.index_spec().codes()) && (forall|k: int|
                0 <= k < self.pattern_spec().len() - 1 ==> self.pattern_spec()[k] != 0) ==> r
                == occurrences(
                self.index_spec().codes(),
                codes_of(self.index_spec().converter_spec(), self.pattern_spec()),
            ).len(),
    {
        proof {
            if unique_sentinel(self.index_spec().codes()) && (forall|k: int|
                0 <= k < self.pattern_spec().len() - 1 ==> self.pattern_spec()[k] != 0) {
                self.lemma_rows_are_occurrences();
            }
        }
        self.e - self.s
    }

    /// The rows of the match.
    pub fn range(&self) -> (r: (u64, u64))
        requires
            self.valid(),
        ensures
            r.0 == self.range_spec().0 && r.1 == self.range_spec().1,
            r.0 <= r.1 <= self.index_spec().n(),
            r.1 - r.0 == self.index_spec().count_spec(self.pattern_spec()),
            self.index_spec().count_spec(self.pattern_spec()) > 0 ==> (r.0 as int, r.1 as int)
                == self.index_spec().range_of(self.pattern_spec()),
    {
        (self.s, self.e)
    }

    /// The position that locate recovers for match `k` of this search.
    pub open spec fn position_of(&self, k: int) -> Option<u64> {
        self.index_spec().walk(self.range_spec().0 + k, 0, self.index_spec().n())
    }

    /// What locate answers: an error without a sampled suffix array, or when
    /// a match's walk reaches no sampled row; else the positions of the
    /// matches in row order.
    pub open spec fn locate_result(&self, r: Result<Vec<u64>, FMIndexError>) -> bool {
        let m = self.range_spec().1 - self.range_spec().0;
        if self.index_spec().samples_spec() is None {
            r == Err::<Vec<u64>, FMIndexError>(FMIndexError::NoSuffixArray)
        } else if exists|k: int| 0 <= k < m && self.position_of(k) is None {
            r == Err::<Vec<u64>, FMIndexError>(FMIndexError::MissingSample)
        } else {
            r matches Ok(v) && v@.len() == m && forall|k: int|
                0 <= k < m ==> self.position_of(k) == Some(v@[k])
        }
    }


    /// With the sentinel only at the end of the text and nowhere in the
    /// pattern but possibly at its end, the rows
    /// of this search hold exactly the positions where the pattern occurs,
    /// and their number is the number of occurrences.
    pub proof fn lemma_rows_are_occurrences(&self)
        requires
            self.valid(),
            unique_sentinel(self.index_spec().codes()),
            forall|k: int| 0 <= k < self.pattern_spec().len() - 1 ==> self.pattern_spec()[k] != 0,
        ensures
            ({
                let idx = self.index_spec();
                let q = codes_of(idx.converter_spec(), self.pattern_spec());
                &&& idx.count_spec(self.pattern_spec()) == occurrences(idx.codes(), q).len()
                &&& forall|j: int, k: int|
                    self.range_spec().0 <= j < k < self.range_spec().1 ==> idx.sa_spec()[j]
                        != idx.sa_spec()[k]
                &&& forall|x: int| #[trigger]
                    occurrences(idx.codes(), q).contains(x) <==> exists|k: int|
                        self.range_spec().0 <= k < self.range_spec().1 && idx.sa_spec()[k] == x
            }),
    {
        let idx = self.index_spec();
        let q = codes_of(idx.converter_spec(), self.pattern_spec());
        idx.lemma_bwt_codes();
        idx.lemma_search_finds_occurrences(self.pattern_spec());
        let r = idx.range_of(self.pattern_spec());
        assert forall|x: int| #[trigger]
            occurrences(idx.codes(), q).contains(x) <==> exists|k: int|
                self.range_spec().0 <= k < self.range_spec().1 && idx.sa_spec()[k] == x by {
            if r.0 == r.1 {
                if occurrences(idx.codes(), q).contains(x) {
                    let k = choose|k: int| r.0 <= k < r.1 && idx.sa_spec()[k] == x;
                }
            }
        }
    }

    /// The text positions of all matches, in row order.
    pub fn locate(&self) -> (r: Result<Vec<u64>, FMIndexError>)
        requires
            self.valid(),
        ensures
            self.locate_result(r),
            r matches Ok(v) ==> v@.len() == self.index_spec().count_spec(self.pattern_spec()),
            self.index_spec().samples_spec() is Some && unique_sentinel(self.index_spec().codes())
                ==> (r matches Ok(v) && v@ == self.index_spec().sa_spec().subrange(
                self.range_spec().0,
                self.range_spec().1,
            )),
    {
        if !self.index.has_positions() {
            return Err(FMIndexError::NoSuffixArray);
        }
        let r = self.index.locate_rows(self.s, self.e);
        proof {
            if unique_sentinel(self.index_spec().codes()) {
                assert forall|k: int| self.s <= k < self.e implies self.index_spec().walk(
                    k,
                    0,
                    self.index_spec().n(),
                ) == Some(self.index_spec().sa_spec()[k]) by {
                    self.index_spec().lemma_walk_exact(k);
                }
                if r is Some {
                    self.index_spec().lemma_bwt_codes();
                    let v = r.unwrap()@;
                    assert forall|j: int| 0 <= j < v.len() implies v[j] == self.index_spec().sa_spec()[
                        self.s + j] by {
                        assert(self.index_spec().walk(self.s + j, 0, self.index_spec().n()) == Some(
                            v[j],
                        ));
                    }
                    assert(r.unwrap()@ =~= self.index_spec().sa_spec().subrange(
                        self.s as int,
                        self.e as int,
                    ));
                }
            }
            let m = self.range_spec().1 - self.range_spec().0;
            if r is None {
                let k0 = choose|k: int|
                    self.s <= k < self.e && !(self.index_spec().walk(
                        k,
                        0,
                        self.index_spec().n(),
                    ) is Some);
                assert(self.position_of(k0 - self.s) is None);
            } else {
                assert forall|k: int| 0 <= k < m implies !(self.position_of(k) is None) by {
                    assert(self.index_spec().walk(self.s + k, 0, self.index_spec().n()) is Some);
                }
            }
        }
        match r {
            Some(v) => Ok(v),
            None => Err(FMIndexError::MissingSample),
        }
    }

    /// Iterate the text backward from the match `i` of this search.
    pub fn iter_backward(&self, i: u64) -> (r: BackwardIterator<'a>)
        requires
            self.valid(),
            i < self.range_spec().1 - self.range_spec().0,
        ensures
            r.index_spec() == self.index_spec(),
            r.row() == self.range_spec().0 + i,
    {
        BackwardIterator::new(self.index, self.s + i)
    }

    /// Iterate the text forward from the match `i` of this search.
    pub fn iter_forward(&self, i: u64) -> (r: ForwardIterator<'a>)
        requires
            self.valid(),
            i < self.range_spec().1 - self.range_spec().0,
        ensures
            r.index_spec() == self.index_spec(),
            r.row() == self.range_spec().0 + i,
    {
        ForwardIterator::new(self.index, self.s + i)
    }
}

} // verus!
