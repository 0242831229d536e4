//! A pass over the entries of a sparse vector, in the order they are stored.
use crate::sp_vec::SpVector;
use vstd::prelude::*;

verus! {

/// The entries of `s` as a pass hands them out, with the dimension as a `usize`.
pub open spec fn items<W>(s: Seq<(u32, W)>) -> Seq<(usize, W)> {
    s.map_values(|e: (u32, W)| (e.0 as usize, e.1))
}

/// A pass over the (dimension, weight) pairs of a vector. It borrows the
/// vector, so the vector cannot change while the pass lasts.
pub struct SpVecIter<'a, W> {
    vec: &'a SpVector<W>,
    pos: usize,
}

impl<'a, W> SpVecIter<'a, W> {
    /// What the pass has yet to hand out, in order.
    pub closed spec fn remaining(&self) -> Seq<(usize, W)> {
        if self.pos <= self.vec@.len() {
            items(self.vec@).skip(self.pos as int)
        } else {
            Seq::empty()
        }
    }

    /// A pass that begins at the first entry of `vec`.
    pub fn new(vec: &'a SpVector<W>) -> (r: Self)
        ensures
            r.remaining() == items(vec@),
    {
        let r = SpVecIter { vec, pos: 0 };
        assert(r.remaining() =~= items(vec@));
        r
    }
}

impl<'a, W: Copy> SpVecIter<'a, W> {
    /// Hands out the next pair, or `None` once all have been handed out.
    pub fn next(&mut self) -> (r: Option<(usize, W)>)
        ensures
            r == if old(self).remaining().len() > 0 {
                Some(old(self).remaining()[0])
            } else {
                None
            },
            final(self).remaining() == if old(self).remaining().len() > 0 {
                old(self).remaining().skip(1)
            } else {
                old(self).remaining()
            },
    {
        let entries = self.vec.as_vec();
        if self.pos < entries.len() {
            let e = entries[self.pos];
            self.pos += 1;
            assert(final(self).remaining() =~= old(self).remaining().skip(1));
            Some((e.0 as usize, e.1))
        } else {
            None
        }
    }
}

} // verus!
