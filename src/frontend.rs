//! The index as most callers use it: built count-only or with positions,
//! searched by symbol patterns.
use crate::character::{to_values, values_of, Character};
use crate::converter::Converter;
use crate::fm_index::{codes_of, FMIndexBackend, MAX_TEXT_LEN};
use crate::heap::{saturate, HeapSize};
use crate::lf::{occurrences, unique_sentinel};
use crate::search::{FMIndexError, Search};
use crate::text::with_sentinel;
use vstd::prelude::*;

verus! {

/// A full-text index over a text of unsigned integer symbols.
pub struct FMIndex<T: Character> {
    backend: FMIndexBackend,
    text: Ghost<Seq<T>>,
}

/// What building an index asks of its text and converter.
pub open spec fn buildable(text: Seq<u64>, converter: Converter) -> bool {
    &&& converter.wf()
    &&& converter.len_spec() < usize::MAX - 1
    &&& text.len() < MAX_TEXT_LEN
    &&& text.len() < usize::MAX - 128
    &&& forall|i: int| 0 <= i < text.len() ==> converter.accepts(text[i])
}

/// A text free of the sentinel symbol `0` gives an index whose only
/// sentinel is the one at the end.
pub proof fn lemma_sentinel_free_text(text: Seq<u64>, converter: Converter)
    requires
        converter.wf(),
        forall|i: int| 0 <= i < text.len() ==> converter.accepts(text[i]) && text[i] != 0,
    ensures
        unique_sentinel(codes_of(converter, with_sentinel(text))),
{
    let w = with_sentinel(text);
    assert(w == text.push(0));
    assert forall|k: int| 0 <= k < w.len() - 1 implies codes_of(converter, w)[k] != 0 by {
        assert(w[k] == text[k]);
    }
}

proof fn lemma_values_reject<T: Character>(p: Seq<T>, conv: Converter)
    ensures
        (exists|k: int| 0 <= k < p.len() && !conv.accepts(p[k].value())) == (exists|k: int|
            0 <= k < values_of(p).len() && !conv.accepts(values_of(p)[k])),
{
    if exists|k: int| 0 <= k < p.len() && !conv.accepts(p[k].value()) {
        let k = choose|k: int| 0 <= k < p.len() && !conv.accepts(p[k].value());
        assert(!conv.accepts(values_of(p)[k]));
    }
    if exists|k: int| 0 <= k < values_of(p).len() && !conv.accepts(values_of(p)[k]) {
        let k = choose|k: int| 0 <= k < values_of(p).len() && !conv.accepts(values_of(p)[k]);
        assert(!conv.accepts(p[k].value()));
    }
}

impl<T: Character> FMIndex<T> {
    pub closed spec fn backend_spec(&self) -> FMIndexBackend {
        self.backend
    }

    /// The text the index was built from, without the sentinel it added.
    pub closed spec fn text_spec(&self) -> Seq<T> {
        self.text@
    }

    pub open spec fn valid(&self) -> bool {
        self.backend_spec().valid()
    }

    /// An index that counts matches but cannot locate them.
    pub fn count_only(text: Vec<T>, converter: Converter) -> (r: Self)
        requires
            buildable(values_of(text@), converter),
        ensures
            r.valid(),
            r.text_spec() == text@,
            r.backend_spec().codes() == codes_of(converter, with_sentinel(values_of(text@))),
            r.backend_spec().converter_spec() == converter,
            r.backend_spec().samples_spec() is None,
    {
        let values = to_values(text.as_slice());
        FMIndex { backend: FMIndexBackend::create(values, converter, None), text: Ghost(text@) }
    }

    /// An index that counts and locates matches, keeping the suffix array
    /// entries that are multiples of `2^level`.
    pub fn new(text: Vec<T>, converter: Converter, level: usize) -> (r: Self)
        requires
            buildable(values_of(text@), converter),
            level < 64,
        ensures
            r.valid(),
            r.text_spec() == text@,
            r.backend_spec().codes() == codes_of(converter, with_sentinel(values_of(text@))),
            r.backend_spec().converter_spec() == converter,
            r.backend_spec().samples_spec() is Some,
            r.backend_spec().samples_spec().unwrap().level_spec() == level,
    {
        let values = to_values(text.as_slice());
        FMIndex {
            backend: FMIndexBackend::create(values, converter, Some(level)),
            text: Ghost(text@),
        }
    }

    /// Search for `pattern` in the text.
    pub fn search(&self, pattern: &[T]) -> (r: Result<FMIndexSearch<'_, T>, FMIndexError>)
        requires
            self.valid(),
        ensures
            r is Err <==> exists|k: int|
                0 <= k < pattern@.len() && !self.backend_spec().converter_spec().accepts(
                    pattern@[k].value(),
                ),
            r matches Err(e) ==> e == FMIndexError::AlphabetMismatch,
            r matches Ok(x) ==> x.valid() && x.backend_spec().index_spec() == self.backend_spec()
                && x.pattern_spec() == pattern@ && x.backend_spec().pattern_spec() == values_of(
                pattern@,
            ),
    {
        let values = to_values(pattern);
        proof {
            lemma_values_reject(pattern@, self.backend_spec().converter_spec());
        }
        match self.backend.search(values.as_slice()) {
            Ok(s) => Ok(FMIndexSearch { search_backend: s, pattern: Ghost(pattern@) }),
            Err(e) => Err(e),
        }
    }

    /// The length of the text, sentinel included.
    pub fn len(&self) -> (r: u64)
        requires
            self.valid(),
        ensures
            r == self.backend_spec().n(),
    {
        self.backend.len()
    }

    /// The index underneath, for its mappings and iterators.
    pub fn backend(&self) -> (r: &FMIndexBackend)
        ensures
            *r == self.backend_spec(),
    {
        &self.backend
    }
}

impl<T: Character> FMIndex<T> {
    /// The heap footprint in bytes, saturated at `usize::MAX`.
    pub fn size(&self) -> (r: usize)
        ensures
            r as int == saturate(self.backend_spec().heap_bytes_spec() as int),
    {
        self.backend.size()
    }
}

impl<T: Character> HeapSize for FMIndex<T> {
    open spec fn heap_bytes(&self) -> nat {
        self.backend_spec().heap_bytes_spec()
    }

    fn size(&self) -> (r: usize) {
        FMIndex::size(self)
    }
}

/// The result of a search in an [`FMIndex`].
pub struct FMIndexSearch<'a, T: Character> {
    search_backend: Search<'a>,
    pattern: Ghost<Seq<T>>,
}

impl<'a, T: Character> FMIndexSearch<'a, T> {
    pub closed spec fn backend_spec(&self) -> Search<'a> {
        self.search_backend
    }

    /// The symbols searched so far.
    pub closed spec fn pattern_spec(&self) -> Seq<T> {
        self.pattern@
    }

    pub open spec fn valid(&self) -> bool {
        &&& self.backend_spec().valid()
        &&& self.backend_spec().pattern_spec() == values_of(self.pattern_spec())
    }

    /// Refine the search: look for `pattern` followed by what was searched so far.
    pub fn search(&self, pattern: &[T]) -> (r: Result<Self, FMIndexError>)
        requires
            self.valid(),
        ensures
            r is Err <==> exists|k: int|
                0 <= k < pattern@.len()
                    && !self.backend_spec().index_spec().converter_spec().accepts(
                    pattern@[k].value(),
                ),
            r matches Err(e) ==> e == FMIndexError::AlphabetMismatch,
            r matches Ok(x) ==> x.valid() && x.backend_spec().index_spec()
                == self.backend_spec().index_spec() && x.pattern_spec() == pattern@
                + self.pattern_spec(),
    {
        let values = to_values(pattern);
        proof {
            lemma_values_reject(pattern@, self.backend_spec().index_spec().converter_spec());
        }
        match self.search_backend.search(values.as_slice()) {
            Ok(s) => {
                assert(values_of(pattern@ + self.pattern_spec()) == values_of(pattern@) + values_of(
                    self.pattern_spec(),
                ));
                Ok(FMIndexSearch { search_backend: s, pattern: Ghost(pattern@ + self.pattern@) })
            },
            Err(e) => Err(e),
        }
    }

    /// The number of matches.
    pub fn count(&self) -> (r: u64)
        requires
            self.valid(),
        ensures
            r == self.backend_spec().index_spec().count_spec(self.backend_spec().pattern_spec()),
            unique_sentinel(self.backend_spec().index_spec().codes()) && (forall|k: int|
                0 <= k < self.pattern_spec().len() - 1 ==> self.pattern_spec()[k].value() != 0)
                ==> r == occurrences(
                self.backend_spec().index_spec().codes(),
                codes_of(
                    self.backend_spec().index_spec().converter_spec(),
                    values_of(self.pattern_spec()),
                ),
            ).len(),
    {
        self.search_backend.count()
    }

    /// The text positions of all matches, in row order.
    pub fn locate(&self) -> (r: Result<Vec<u64>, FMIndexError>)
        requires
            self.valid(),
        ensures
            self.backend_spec().locate_result(r),
            r matches Ok(v) ==> v@.len() == self.backend_spec().index_spec().count_spec(
                self.backend_spec().pattern_spec(),
            ),
            self.backend_spec().index_spec().samples_spec() is Some && unique_sentinel(
                self.backend_spec().index_spec().codes(),
            ) ==> (r matches Ok(v) && v@ == self.backend_spec().index_spec().sa_spec().subrange(
                self.backend_spec().range_spec().0,
                self.backend_spec().range_spec().1,
            )),
    {
        self.search_backend.locate()
    }

    /// The search underneath, for its range and iterators.
    pub fn backend(&self) -> (r: &Search<'a>)
        ensures
            *r == self.backend_spec(),
    {
        &self.search_backend
    }
}

} // verus!
