//! A pass over the weights of a sparse vector.
use crate::sp_vec::SpVector;
use crate::sparse_iter::SpVecIter;
use vstd::prelude::*;

verus! {

/// The weights of the entries of `s`, in order.
pub open spec fn weights_in<W>(s: Seq<(u32, W)>) -> Seq<W> {
    s.map_values(|e: (u32, W)| e.1)
}

/// A pass over the weights of a vector, in the order of their dimensions
/// as stored.
pub struct WeightIter<'a, W> {
    iter: SpVecIter<'a, W>,
}

impl<'a, W> WeightIter<'a, W> {
    /// The weights that the pass has yet to hand out, in order.
    pub closed spec fn remaining(&self) -> Seq<W> {
        self.iter.remaining().map_values(|t: (usize, W)| t.1)
    }

    /// A pass that begins at the first entry of `vec`.
    pub fn new(vec: &'a SpVector<W>) -> (r: Self)
        ensures
            r.remaining() == weights_in(vec@),
    {
        let iter = SpVecIter::new(vec);
        let r = WeightIter { iter };
        assert(r.remaining() =~= weights_in(vec@));
        r
    }
}

impl<'a, W: Copy> WeightIter<'a, W> {
    /// Hands out the next weight, or `None` once all have been handed out.
    pub fn next(&mut self) -> (r: Option<W>)
        ensures
            r == if old(self).remaining().len() > 0 {
                Some(old(self).remaining()[0])
            } else {
                None
            },
            final(self).remaining() == if old(self).remaining().len() > 0 {
                old(self).remaining().skip(1)
            } else {
                old(self).remaining()
            },
    {
        let r = match self.iter.next() {
            Some(t) => Some(t.1),
            None => None,
        };
        assert(final(self).remaining() =~= if old(self).remaining().len() > 0 {
            old(self).remaining().skip(1)
        } else {
            old(self).remaining()
        });
        r
    }
}

} // verus!
