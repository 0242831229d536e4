//! The sparse vector: an entry list with the cached sum of its squared weights.
use crate::arith::{
    can_dot, can_sum_squares, dot_sum, dot_sum_permitted, exact, has_zero, is_cosine, is_dot_sum,
    is_product, is_quotient, is_square_sum, is_sum, is_zero, square_sum, square_sum_permitted,
    sum_products, sum_squares, sums_exact, sums_total, total, zero, zero_weight,
};
use crate::entries::{
    ascending, is_ascending, lemma_lower_bound, lemma_normalized, lemma_normalized_ascending,
    lemma_upsert, lemma_weights_ascending, lemma_weights_domain, lower_bound_index, normalize,
    normalized, set_entry, upsert, weight_at, weights_of,
};
use crate::join::{
    join, join_items, lemma_join_nonempty, merge_join, overlap, ranges_meet, share_dimension,
};
use crate::dim_iter::{dimensions_of, DimIter};
use crate::sparse_iter::{items, SpVecIter};
use crate::weight_iter::{weights_in, WeightIter};
use std::ops::{Add, Div, Mul};
use vstd::prelude::*;
use vstd::std_specs::cmp::{PartialEqSpec, PartialEqSpecImpl};
use vstd::std_specs::ops::{AddSpec, DivSpec, MulSpec};

verus! {

/// A vector over dimensions `0 ..= u32::MAX` that stores only the dimensions
/// it was given a weight for.
///
/// Its view is the list of its entries, (dimension, weight) pairs. The
/// guarded operations keep that list ascending by dimension and keep
/// `length` equal to the sum of the squared weights. `new_raw` and
/// `as_vec_mut` hand the list to the caller and check nothing; `update`
/// restores both.
#[derive(Debug)]
pub struct SpVector<W> {
    /// The entries, by dimension.
    inner: Vec<(u32, W)>,
    /// The sum of the squared weights, as of the last `update`.
    length: W,
}

/// `r` is a list that adding the weights of `b` to those of `a`, place by
/// place, may give: the dimensions of `a`, each with a sum of the two weights.
pub open spec fn is_added<W: Add<Output = W>>(
    a: Seq<(u32, W)>,
    b: Seq<(u32, W)>,
    r: Seq<(u32, W)>,
) -> bool {
    &&& r.len() == a.len()
    &&& forall|i: int|
        0 <= i < a.len() && i < b.len() ==> (#[trigger] r[i]).0 == a[i].0 && is_sum(
            a[i].1,
            b[i].1,
            r[i].1,
        )
}

/// `a` with the weight of each entry of `b` added to the weight of the
/// entry of `a` at the same place.
pub open spec fn added<W: Add<Output = W>>(a: Seq<(u32, W)>, b: Seq<(u32, W)>) -> Seq<(u32, W)> {
    Seq::new(a.len(), |i: int| (a[i].0, a[i].1.add_spec(b[i].1)))
}

/// The two lists are equally long and agree place by place: the same
/// dimension, and weights that `==` takes for equal.
pub open spec fn same_entries<W: PartialEq>(a: Seq<(u32, W)>, b: Seq<(u32, W)>) -> bool {
    &&& a.len() == b.len()
    &&& forall|i: int|
        0 <= i < a.len() ==> (#[trigger] a[i]).0 == b[i].0 && a[i].1.eq_spec(&b[i].1)
}

impl<W> View for SpVector<W> {
    type V = Seq<(u32, W)>;

    closed spec fn view(&self) -> Seq<(u32, W)> {
        self.inner@
    }
}

impl<W> SpVector<W> {
    /// The cached length.
    pub closed spec fn length(&self) -> W {
        self.length
    }

    /// The weight that the vector holds for dimension `d`, if it holds one.
    pub open spec fn weight(&self, d: u32) -> Option<W> {
        weight_at(self@, d)
    }

    /// The index of the entry of dimension `dim`, found by bisection.
    ///
    /// Dimensions are stored in 32 bits: of a larger `dim` the low 32 bits count.
    pub fn dim_index(&self, dim: usize) -> (r: Option<usize>)
        ensures
            r matches Some(i) ==> i < self@.len() && self@[i as int].0 == dim as u32,
            ascending(self@) && r is None ==> forall|i: int|
                0 <= i < self@.len() ==> (#[trigger] self@[i]).0 != dim as u32,
    {
        let d = #[verifier::truncate]
        (dim as u32);
        let p = lower_bound_index(&self.inner, d);
        proof {
            lemma_lower_bound(self@, d);
        }
        if p < self.inner.len() && self.inner[p].0 == d {
            Some(p)
        } else {
            None
        }
    }
}

impl<W: Copy> SpVector<W> {
    /// Brings the entries into ascending order of dimension, each dimension
    /// once. Of several entries of one dimension the last one stays.
    pub fn sort(&mut self)
        ensures
            final(self)@ == normalized(old(self)@),
            ascending(final(self)@),
            weights_of(final(self)@) == weights_of(old(self)@),
            final(self)@.len() <= old(self)@.len(),
            ascending(old(self)@) ==> final(self)@ == old(self)@,
            final(self).length() == old(self).length(),
    {
        proof {
            lemma_normalized(self@);
            if ascending(self@) {
                lemma_normalized_ascending(self@);
            }
        }
        if !is_ascending(&self.inner) {
            self.inner = normalize(&self.inner);
        }
    }

    /// A vector of the given entries and cached length, taken as they are.
    /// The caller answers for the entries being ascending and for `length`
    /// being the sum of their squared weights; nothing is checked.
    pub fn new_raw(sparse: Vec<(u32, W)>, length: W) -> (r: Self)
        ensures
            r@ == sparse@,
            r.length() == length,
    {
        SpVector { inner: sparse, length }
    }

    /// The cached length: the sum of the squared weights as of the last `update`.
    pub fn get_length(&self) -> (r: W)
        ensures
            r == self.length(),
    {
        self.length
    }

    /// Whether the vector holds no entry at all.
    pub fn is_empty(&self) -> (r: bool)
        ensures
            r == (self@.len() == 0),
    {
        self.dim_count() == 0
    }

    /// The entry list, for changes that bypass `set_dim`. After a change the
    /// list need not be ascending and the cached length need not fit:
    /// `update` puts both right.
    pub fn as_vec_mut(&mut self) -> (r: &mut Vec<(u32, W)>)
        ensures
            r@ == old(self)@,
            final(self)@ == final(r)@,
            final(self).length() == old(self).length(),
    {
        &mut self.inner
    }

    /// The entry list.
    pub fn as_vec(&self) -> (r: &Vec<(u32, W)>)
        ensures
            r@ == self@,
    {
        &self.inner
    }

    /// The number of entries, those of weight zero included.
    pub fn dim_count(&self) -> (r: usize)
        ensures
            r == self@.len(),
    {
        self.inner.len()
    }

    /// The weight of dimension `dim`, if the vector holds one.
    pub fn get_dim(&self, dim: usize) -> (r: Option<W>)
        ensures
            r matches Some(w) ==> self@.contains((dim as u32, w)),
            ascending(self@) ==> r == self.weight(dim as u32),
    {
        proof {
            lemma_weights_domain(self@);
            if ascending(self@) {
                lemma_weights_ascending(self@);
            }
        }
        match self.dim_index(dim) {
            Some(i) => {
                let e = self.inner[i];
                assert(self@[i as int] == (dim as u32, e.1));
                Some(e.1)
            },
            None => None,
        }
    }

    /// Whether the vector holds a weight for dimension `dim`.
    pub fn has_dim(&self, dim: usize) -> (r: bool)
        ensures
            r ==> weights_of(self@).contains_key(dim as u32),
            ascending(self@) ==> r == weights_of(self@).contains_key(dim as u32),
    {
        proof {
            lemma_weights_domain(self@);
        }
        self.dim_index(dim).is_some()
    }

    /// A pass over the (dimension, weight) pairs, in the order they are stored.
    pub fn iter(&self) -> (r: SpVecIter<'_, W>)
        ensures
            r.remaining() == items(self@),
    {
        SpVecIter::new(self)
    }

    /// A pass over the dimensions, in the order they are stored.
    pub fn dimensions(&self) -> (r: DimIter<'_, W>)
        ensures
            r.remaining() == dimensions_of(self@),
    {
        DimIter::new(self)
    }

    /// A pass over the weights, in the order of their dimensions as stored.
    pub fn weights(&self) -> (r: WeightIter<'_, W>)
        ensures
            r.remaining() == weights_in(self@),
    {
        WeightIter::new(self)
    }

    /// The greatest dimension of an ascending vector: that of its last entry.
    pub fn last_dim(&self) -> (r: Option<usize>)
        ensures
            r == if self@.len() > 0 {
                Some(self@.last().0 as usize)
            } else {
                None
            },
    {
        let n = self.inner.len();
        if n > 0 {
            Some(self.inner[n - 1].0 as usize)
        } else {
            None
        }
    }

    /// The smallest dimension of an ascending vector: that of its first entry.
    pub fn first_dim(&self) -> (r: Option<usize>)
        ensures
            r == if self@.len() > 0 {
                Some(self@[0].0 as usize)
            } else {
                None
            },
    {
        if self.inner.len() > 0 {
            Some(self.inner[0].0 as usize)
        } else {
            None
        }
    }

    /// A quick test that never misses an overlap: `false` where one vector
    /// is empty or begins after the other has ended, `true` otherwise, also
    /// where the two share no dimension.
    pub fn could_overlap(&self, other: &SpVector<W>) -> (r: bool)
        ensures
            r == ranges_meet(self@, other@),
    {
        let n = self.inner.len();
        let m = other.inner.len();
        if n == 0 || m == 0 {
            return false;
        }
        !(self.inner[0].0 > other.inner[m - 1].0 || self.inner[n - 1].0 < other.inner[0].0)
    }

    /// Whether the merge of the two vectors yields anything: for ascending
    /// vectors, whether they share a dimension.
    pub fn overlaps_with(&self, other: &SpVector<W>) -> (r: bool)
        ensures
            r == overlap(self@, other@),
            ascending(self@) && ascending(other@) ==> r == share_dimension(self@, other@),
    {
        proof {
            if ascending(self@) && ascending(other@) {
                lemma_join_nonempty(self@, other@);
            }
        }
        if !self.could_overlap(other) {
            return false;
        }
        merge_join(&self.inner, &other.inner).len() > 0
    }

    /// The merge of the two vectors: for ascending vectors, each dimension
    /// that both hold, in ascending order, with the weight in `self` and the
    /// weight in `other`.
    pub fn intersect_iter(&self, other: &SpVector<W>) -> (r: Vec<(usize, W, W)>)
        ensures
            r@ == join_items(self@, other@),
    {
        let pairs = merge_join(&self.inner, &other.inner);
        let mut out: Vec<(usize, W, W)> = Vec::with_capacity(pairs.len());
        let mut k: usize = 0;
        while k < pairs.len()
            invariant
                k <= pairs.len(),
                pairs@ == join(self@, other@),
                out@ == join_items(self@, other@).take(k as int),
            decreases pairs.len() - k,
        {
            let t = pairs[k];
            out.push((t.0 as usize, t.1, t.2));
            assert(out@ =~= join_items(self@, other@).take(k + 1));
            k += 1;
        }
        assert(out@ =~= join_items(self@, other@));
        out
    }
}

impl<W: Copy + Default + Add<Output = W> + Mul<Output = W>> SpVector<W> {
    /// The vector is in its normal form: the entries ascend by dimension,
    /// so that each dimension occurs once, and the cached length is a sum
    /// of their squared weights. The constructors but `new_raw` establish
    /// this and the guarded operations keep it; `new_raw`, `as_vec_mut` and
    /// `sort` may leave a vector that is not in normal form.
    pub open spec fn is_normal(&self) -> bool {
        ascending(self@) && is_square_sum(self@, self.length())
    }

    /// The sum of the squared weights of the entries.
    pub fn calc_len(&self) -> (r: W)
        requires
            can_sum_squares(self@),
        ensures
            is_square_sum(self@, r),
            has_zero::<W>(),
            sums_exact::<W>() ==> r == square_sum(self@),
    {
        sum_squares(&self.inner)
    }

    /// A vector of the given entries, in any order. The entries are brought
    /// into ascending order, of several entries of one dimension the last
    /// one stays, and the length is computed.
    pub fn create_new_raw(sparse: Vec<(u32, W)>) -> (r: Self)
        requires
            can_sum_squares(normalized(sparse@)),
        ensures
            r@ == normalized(sparse@),
            r.is_normal(),
            weights_of(r@) == weights_of(sparse@),
            r@.len() <= sparse@.len(),
            has_zero::<W>(),
            sums_exact::<W>() ==> r.length() == square_sum(r@),
    {
        let mut vec = SpVector { inner: sparse, length: zero_weight::<W>() };
        vec.update();
        vec
    }

    /// The vector without entries, of length zero.
    pub fn empty() -> (r: Self)
        ensures
            r@ == Seq::<(u32, W)>::empty(),
            r.is_normal(),
            has_zero::<W>(),
            sums_exact::<W>() ==> r.length() == zero::<W>(),
    {
        SpVector { inner: Vec::new(), length: zero_weight::<W>() }
    }

    /// Sets the weight of dimension `dim` to `val`: the entry is appended
    /// and the vector brought back into its normal form, so that `val`
    /// replaces the weight that the dimension had, if it had one.
    ///
    /// Dimensions are stored in 32 bits: of a larger `dim` the low 32 bits count.
    pub fn set_dim(&mut self, dim: usize, val: W)
        requires
            can_sum_squares(normalized(old(self)@.push((dim as u32, val)))),
        ensures
            final(self)@ == normalized(old(self)@.push((dim as u32, val))),
            ascending(old(self)@) ==> final(self)@ == upsert(old(self)@, dim as u32, val),
            final(self).is_normal(),
            weights_of(final(self)@) == weights_of(old(self)@).insert(dim as u32, val),
            has_zero::<W>(),
            sums_exact::<W>() ==> final(self).length() == square_sum(final(self)@),
    {
        let d = #[verifier::truncate]
        (dim as u32);
        proof {
            let pushed = self@.push((d, val));
            assert(pushed.drop_last() =~= self@);
            lemma_normalized(self@);
            lemma_upsert(normalized(self@), d, val);
            if ascending(self@) {
                lemma_normalized_ascending(self@);
            }
        }
        self.sort();
        set_entry(&mut self.inner, d, val);
        self.length = sum_squares(&self.inner);
    }

    /// Brings the vector into its normal form after a change to the entry
    /// list: the entries ascending, each dimension once with the weight of
    /// its last entry, and the length computed anew.
    pub fn update(&mut self)
        requires
            can_sum_squares(normalized(old(self)@)),
        ensures
            final(self)@ == normalized(old(self)@),
            final(self).is_normal(),
            weights_of(final(self)@) == weights_of(old(self)@),
            final(self)@.len() <= old(self)@.len(),
            ascending(old(self)@) ==> final(self)@ == old(self)@,
            has_zero::<W>(),
            sums_exact::<W>() ==> final(self).length() == square_sum(final(self)@),
    {
        self.sort();
        self.length = self.calc_len();
    }

    /// Sets the weight of dimension `dim` to zero. The entry stays in the
    /// vector: the dimension still counts in `dim_count`, and `has_dim`
    /// still finds it.
    pub fn delete_dim(&mut self, dim: usize)
        requires
            forall|z: W| is_zero(z) ==> can_sum_squares(
                normalized(old(self)@.push((dim as u32, z))),
            ),
        ensures
            weights_of(final(self)@).contains_key(dim as u32),
            is_zero(weights_of(final(self)@)[dim as u32]),
            final(self)@ == normalized(
                old(self)@.push((dim as u32, weights_of(final(self)@)[dim as u32])),
            ),
            final(self).is_normal(),
            weights_of(final(self)@) == weights_of(old(self)@).insert(
                dim as u32,
                weights_of(final(self)@)[dim as u32],
            ),
            sums_exact::<W>() ==> weights_of(final(self)@)[dim as u32] == zero::<W>(),
            has_zero::<W>(),
            sums_exact::<W>() ==> final(self).length() == square_sum(final(self)@),
    {
        self.set_dim(dim, zero_weight::<W>());
    }

    /// The scalar product of the two vectors: the sum, over the merge of
    /// the two, of the weight in `self` times the weight in `other`. Zero
    /// where the merge yields nothing.
    pub fn scalar(&self, other: &SpVector<W>) -> (r: W)
        requires
            can_dot(join(self@, other@)),
        ensures
            is_dot_sum(join(self@, other@), r),
            has_zero::<W>(),
            sums_exact::<W>() ==> r == dot_sum(join(self@, other@)),
    {
        let pairs = merge_join(&self.inner, &other.inner);
        sum_products(&pairs)
    }

    /// The entries of `self` can take the weights of `rhs`, place by place,
    /// and the length of the result can be computed.
    pub open spec fn can_add(&self, rhs: &SpVector<W>) -> bool {
        sums_total::<W>() || {
            &&& sums_exact::<W>()
            &&& forall|i: int|
                0 <= i < self@.len() && i < rhs@.len() ==> (#[trigger] self@[i]).1.add_req(
                    rhs@[i].1,
                )
            &&& has_zero::<W>() ==> square_sum_permitted(normalized(added(self@, rhs@)))
        }
    }

    /// Adds the weights of `rhs` to those of `self` by place in the entry
    /// list, the first to the first and so on, not by dimension: the sum of
    /// the two vectors only where both hold the same dimensions. The
    /// dimensions of `self` stay; the vector is then brought into its
    /// normal form.
    pub fn add_assign(&mut self, rhs: &SpVector<W>)
        requires
            old(self)@.len() == rhs@.len(),
            old(self).can_add(rhs),
        ensures
            exists|sums: Seq<(u32, W)>|
                #[trigger] is_added(old(self)@, rhs@, sums) && final(self)@ == normalized(sums),
            sums_exact::<W>() ==> final(self)@ == normalized(added(old(self)@, rhs@)),
            final(self).is_normal(),
            final(self)@.len() <= old(self)@.len(),
            forall|d: u32|
                weights_of(final(self)@).contains_key(d) <==> weights_of(old(self)@).contains_key(
                    d,
                ),
            has_zero::<W>(),
            sums_exact::<W>() ==> final(self).length() == square_sum(final(self)@),
    {
        let ghost before = self@;
        let n = self.inner.len();
        let mut i: usize = 0;
        while i < n
            invariant
                i <= n,
                n == before.len(),
                n == rhs@.len(),
                self@.len() == n,
                before == old(self)@,
                old(self).can_add(rhs),
                forall|j: int| 0 <= j < n ==> (#[trigger] self@[j]).0 == before[j].0,
                forall|j: int| i <= j < n ==> (#[trigger] self@[j]) == before[j],
                forall|j: int|
                    0 <= j < i ==> is_sum(before[j].1, rhs@[j].1, (#[trigger] self@[j]).1),
                sums_exact::<W>() ==> forall|j: int|
                    0 <= j < i ==> (#[trigger] self@[j]).1 == before[j].1.add_spec(rhs@[j].1),
            decreases n - i,
        {
            let e = self.inner[i];
            let o = rhs.inner[i];
            assert(e == before[i as int]);
            let sum = e.1 + o.1;
            assert(is_sum(e.1, o.1, sum));
            self.inner[i] = (e.0, sum);
            i += 1;
        }
        proof {
            assert(is_added(before, rhs@, self@));
            if sums_exact::<W>() {
                assert(self@ =~= added(before, rhs@));
            }
            lemma_weights_domain(self@);
            lemma_weights_domain(before);
            assert forall|d: u32|
                weights_of(self@).contains_key(d) <==> weights_of(before).contains_key(d) by {
                if weights_of(self@).contains_key(d) {
                    let j = choose|j: int| 0 <= j < self@.len() && (#[trigger] self@[j]).0 == d;
                    assert(before[j].0 == d);
                }
                if weights_of(before).contains_key(d) {
                    let j = choose|j: int| 0 <= j < before.len() && (#[trigger] before[j]).0 == d;
                    assert(self@[j].0 == d);
                }
            }
        }
        self.update();
    }
}

impl<W: Copy + Default + Add<Output = W> + Mul<Output = W> + Div<Output = W>> SpVector<W> {
    /// The quotient that `cosine` forms can be formed: either the arithmetic
    /// never fails, or it is exact and each step is accepted.
    pub open spec fn can_cosine(&self, other: &SpVector<W>) -> bool {
        total::<W>() || (exact::<W>() && (has_zero::<W>() && ranges_meet(self@, other@) ==> {
            &&& dot_sum_permitted(join(self@, other@))
            &&& self.length().mul_req(other.length())
            &&& dot_sum(join(self@, other@)).div_req(self.length().mul_spec(other.length()))
        }))
    }

    /// The cosine similarity of the two vectors: the scalar product divided
    /// by the product of the two cached lengths. Zero, with nothing
    /// divided, where `could_overlap` is false.
    pub fn cosine(&self, other: &SpVector<W>) -> (r: W)
        requires
            self.can_cosine(other),
        ensures
            has_zero::<W>(),
            !ranges_meet(self@, other@) ==> is_zero(r),
            ranges_meet(self@, other@) ==> is_cosine(
                join(self@, other@),
                self.length(),
                other.length(),
                r,
            ),
            exact::<W>() && ranges_meet(self@, other@) ==> r == dot_sum(
                join(self@, other@),
            ).div_spec(self.length().mul_spec(other.length())),
    {
        if !self.could_overlap(other) {
            return zero_weight::<W>();
        }
        let sc = self.scalar(other);
        let lengths = self.get_length() * other.get_length();
        let r = sc / lengths;
        proof {
            assert(is_product(self.length(), other.length(), lengths));
            assert(is_quotient(sc, lengths, r));
        }
        r
    }
}

impl<W: Default> Default for SpVector<W> {
    fn default() -> (r: Self)
        ensures
            r@ == Seq::<(u32, W)>::empty(),
            is_zero(r.length()),
            has_zero::<W>(),
    {
        let length = W::default();
        assert(is_zero(length));
        SpVector { inner: Vec::new(), length }
    }
}

/// A clone holds the same dimensions in the same order, each with a clone
/// of its weight, and a clone of the cached length.
impl<W: Clone> Clone for SpVector<W> {
    fn clone(&self) -> (r: Self)
        ensures
            r@.len() == self@.len(),
            forall|i: int|
                0 <= i < self@.len() ==> (#[trigger] r@[i]).0 == self@[i].0 && cloned::<W>(
                    self@[i].1,
                    r@[i].1,
                ),
            cloned::<W>(self.length(), r.length()),
    {
        let mut inner: Vec<(u32, W)> = Vec::with_capacity(self.inner.len());
        let mut i: usize = 0;
        while i < self.inner.len()
            invariant
                i <= self.inner.len(),
                inner@.len() == i,
                forall|j: int|
                    0 <= j < i ==> (#[trigger] inner@[j]).0 == self@[j].0 && cloned::<W>(
                        self@[j].1,
                        inner@[j].1,
                    ),
            decreases self.inner.len() - i,
        {
            let d = self.inner[i].0;
            let w = self.inner[i].1.clone();
            inner.push((d, w));
            i += 1;
        }
        SpVector { inner, length: self.length.clone() }
    }
}

/// Two vectors are equal where their entry lists are; the cached lengths
/// are not compared.
impl<W: PartialEq> PartialEq for SpVector<W> {
    fn eq(&self, other: &Self) -> (r: bool) {
        let n = self.inner.len();
        if n != other.inner.len() {
            return false;
        }
        let mut i: usize = 0;
        while i < n
            invariant
                i <= n,
                n == self@.len(),
                n == other@.len(),
                W::obeys_eq_spec() ==> forall|j: int|
                    0 <= j < i ==> (#[trigger] self@[j]).0 == other@[j].0 && self@[j].1.eq_spec(
                        &other@[j].1,
                    ),
            decreases n - i,
        {
            if self.inner[i].0 != other.inner[i].0 || self.inner[i].1 != other.inner[i].1 {
                assert(W::obeys_eq_spec() ==> !(self@[i as int].0 == other@[i as int].0
                    && self@[i as int].1.eq_spec(&other@[i as int].1)));
                return false;
            }
            i += 1;
        }
        true
    }
}

impl<W: PartialEq> PartialEqSpecImpl for SpVector<W> {
    open spec fn obeys_eq_spec() -> bool {
        W::obeys_eq_spec()
    }

    open spec fn eq_spec(&self, other: &Self) -> bool {
        same_entries(self@, other@)
    }
}

impl<W: Eq> Eq for SpVector<W> {

}

} // verus!
