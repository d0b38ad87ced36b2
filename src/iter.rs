//! Walking the indexed text from a row, forward by FL or backward by LF.
use crate::fm_index::FMIndexBackend;
use vstd::prelude::*;

verus! {

/// Yields the text backward, starting with the symbol before the row's suffix.
pub struct BackwardIterator<'a> {
    index: &'a FMIndexBackend,
    i: u64,
}

/// Yields the text forward, starting with the first symbol of the row's suffix.
pub struct ForwardIterator<'a> {
    index: &'a FMIndexBackend,
    i: u64,
}

impl<'a> BackwardIterator<'a> {
    pub closed spec fn index_spec(&self) -> FMIndexBackend {
        *self.index
    }

    /// The row the next symbol is read from.
    pub closed spec fn row(&self) -> int {
        self.i as int
    }

    pub fn new(index: &'a FMIndexBackend, i: u64) -> (r: Self)
        ensures
            r.index_spec() == *index,
            r.row() == i,
    {
        BackwardIterator { index, i }
    }

    /// The symbol in the last column of the current row; moves to its LF row.
    pub fn next(&mut self) -> (r: Option<u64>)
        requires
            old(self).index_spec().valid(),
            0 <= old(self).row() < old(self).index_spec().n(),
        ensures
            final(self).index_spec() == old(self).index_spec(),
            final(self).row() == old(self).index_spec().lf_spec(old(self).row()),
            0 <= final(self).row() < old(self).index_spec().n(),
            r == Some(
                old(self).index_spec().converter_spec().convert_inv_spec(
                    old(self).index_spec().bwt()[old(self).row()],
                ),
            ),
    {
        let idx = self.index;
        proof {
            idx.lemma_lf_fl_inverse(self.i as int);
            idx.lemma_bwt_codes();
        }
        let c = idx.get_l_backward(self.i);
        self.i = idx.lf_map_backward(self.i);
        Some(idx.get_converter().convert_inv(c))
    }
}

impl<'a> ForwardIterator<'a> {
    pub closed spec fn index_spec(&self) -> FMIndexBackend {
        *self.index
    }

    /// The row the next symbol is read from.
    pub closed spec fn row(&self) -> int {
        self.i as int
    }

    pub fn new(index: &'a FMIndexBackend, i: u64) -> (r: Self)
        ensures
            r.index_spec() == *index,
            r.row() == i,
    {
        ForwardIterator { index, i }
    }

    /// The symbol in the first column of the current row; moves to its FL row.
    pub fn next(&mut self) -> (r: Option<u64>)
        requires
            old(self).index_spec().valid(),
            0 <= old(self).row() < old(self).index_spec().n(),
        ensures
            final(self).index_spec() == old(self).index_spec(),
            final(self).row() == old(self).index_spec().fl_spec(old(self).row()),
            0 <= final(self).row() < old(self).index_spec().n(),
            r == Some(
                old(self).index_spec().converter_spec().convert_inv_spec(
                    old(self).index_spec().f_spec(old(self).row()),
                ),
            ),
    {
        let idx = self.index;
        proof {
            idx.lemma_bwt_codes();
        }
        let c = idx.get_f_forward(self.i);
        self.i = idx.fl_map_forward(self.i);
        Some(idx.get_converter().convert_inv(c))
    }
}

} // verus!
