//! A pass over the dimensions of a sparse vector.
use crate::sp_vec::SpVector;
use crate::sparse_iter::SpVecIter;
use vstd::prelude::*;

verus! {

/// The dimensions of the entries of `s`, in order.
pub open spec fn dimensions_of<W>(s: Seq<(u32, W)>) -> Seq<usize> {
    s.map_values(|e: (u32, W)| e.0 as usize)
}

/// A pass over the dimensions of a vector, in the order they are stored.
pub struct DimIter<'a, W> {
    iter: SpVecIter<'a, W>,
}

impl<'a, W> DimIter<'a, W> {
    /// The dimensions that the pass has yet to hand out, in order.
    pub closed spec fn remaining(&self) -> Seq<usize> {
        self.iter.remaining().map_values(|t: (usize, W)| t.0)
    }

    /// A pass that begins at the first entry of `vec`.
    pub fn new(vec: &'a SpVector<W>) -> (r: Self)
        ensures
            r.remaining() == dimensions_of(vec@),
    {
        let iter = SpVecIter::new(vec);
        let r = DimIter { iter };
        assert(r.remaining() =~= dimensions_of(vec@));
        r
    }
}

impl<'a, W: Copy> DimIter<'a, W> {
    /// Hands out the next dimension, or `None` once all have been handed out.
    pub fn next(&mut self) -> (r: Option<usize>)
        ensures
            r == if old(self).remaining().len() > 0 {
                Some(old(self).remaining()[0])
            } else {
                None
            },
            final(self).remaining() == if old(self).remaining().len() > 0 {
                old(self).remaining().skip(1)
            } else {
                old(self).remaining()
            },
    {
        let r = match self.iter.next() {
            Some(t) => Some(t.0),
            None => None,
        };
        assert(final(self).remaining() =~= if old(self).remaining().len() > 0 {
            old(self).remaining().skip(1)
        } else {
            old(self).remaining()
        });
        r
    }
}

} // verus!
