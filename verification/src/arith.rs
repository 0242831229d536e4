//! What the library asks of a weight type, and the sums it forms of weights.
//!
//! A weight is any `Copy` type with `Default`, `+` and `*`, and with `/`
//! where a cosine is asked for. The library performs these operations and
//! nothing else on weights, and says of every result in which order it
//! applied them to which operands (`is_square_sum`, `is_dot_sum`,
//! `is_cosine`). That holds of every weight type, also of the floating-point
//! types, whose operators are not known to be functions of their operands.
//! Where they are such functions (`sums_exact`, `exact`), the result is the
//! value that `square_sum` or `dot_sum` builds from `add_spec`, `mul_spec`
//! and `div_spec`.
use std::ops::{Add, Div, Mul};
use vstd::prelude::*;
use vstd::std_specs::ops::{AddSpec, DivSpec, MulSpec};

verus! {

/// `z` is a value that `W::default()` may return: a zero of the weight type.
pub open spec fn is_zero<W: Default>(z: W) -> bool {
    call_ensures(W::default, (), z)
}

/// The zero of the weight type, where `W::default()` has only one value.
pub open spec fn zero<W: Default>() -> W {
    choose|z: W| is_zero(z)
}

/// `W::default()` has a value. Every function of the library that needs a
/// zero calls `W::default()`, and says so by ensuring `has_zero`.
pub open spec fn has_zero<W: Default>() -> bool {
    is_zero(zero::<W>())
}

/// `r` is a value that `x + y` may have.
pub open spec fn is_sum<W: Add<Output = W>>(x: W, y: W, r: W) -> bool {
    call_ensures(<W as Add>::add, (x, y), r)
}

/// `r` is a value that `x * y` may have.
pub open spec fn is_product<W: Mul<Output = W>>(x: W, y: W, r: W) -> bool {
    call_ensures(<W as Mul>::mul, (x, y), r)
}

/// `r` is a value that `x / y` may have.
pub open spec fn is_quotient<W: Div<Output = W>>(x: W, y: W, r: W) -> bool {
    call_ensures(<W as Div>::div, (x, y), r)
}

/// `+` and `*` accept every pair of weights; neither can overflow or
/// otherwise fail. Floating-point arithmetic is of this kind.
pub open spec fn sums_total<W: Add<Output = W> + Mul<Output = W>>() -> bool {
    &&& forall|x: W, y: W| #[trigger] x.add_req(y)
    &&& forall|x: W, y: W| #[trigger] x.mul_req(y)
}

/// `+`, `*` and `/` accept every pair of weights.
pub open spec fn total<W: Add<Output = W> + Mul<Output = W> + Div<Output = W>>() -> bool {
    &&& sums_total::<W>()
    &&& forall|x: W, y: W| #[trigger] x.div_req(y)
}

/// `+`, `*` and `default()` are functions: the same operands always give
/// the same result, the one that `add_spec`, `mul_spec` and `zero` name.
pub open spec fn sums_exact<W: Default + Add<Output = W> + Mul<Output = W>>() -> bool {
    &&& W::obeys_add_spec()
    &&& W::obeys_mul_spec()
    &&& forall|y: W, z: W| is_zero(y) && is_zero(z) ==> y == z
}

/// `+`, `*`, `/` and `default()` are functions: `sums_exact`, and `/`
/// gives the result that `div_spec` names.
pub open spec fn exact<W: Default + Add<Output = W> + Mul<Output = W> + Div<Output = W>>() -> bool {
    &&& sums_exact::<W>()
    &&& W::obeys_div_spec()
}

/// The sum of the squared weights of `s`, added up from the first entry to
/// the last, starting at zero.
pub open spec fn square_sum<W: Default + Add<Output = W> + Mul<Output = W>>(s: Seq<(u32, W)>) -> W
    decreases s.len(),
{
    if s.len() == 0 {
        zero::<W>()
    } else {
        square_sum(s.drop_last()).add_spec(s.last().1.mul_spec(s.last().1))
    }
}

/// `r` is a value that summing the squared weights of `s` may give: a zero
/// for the empty list, and else a sum of what the entries but the last may
/// give and a product of the last weight with itself.
pub open spec fn is_square_sum<W: Default + Add<Output = W> + Mul<Output = W>>(
    s: Seq<(u32, W)>,
    r: W,
) -> bool
    decreases s.len(),
{
    if s.len() == 0 {
        is_zero(r)
    } else {
        exists|acc: W, sq: W|
            {
                &&& is_square_sum(s.drop_last(), acc)
                &&& #[trigger] is_product(s.last().1, s.last().1, sq)
                &&& #[trigger] is_sum(acc, sq, r)
            }
    }
}

/// Every multiplication and addition that `square_sum` performs on `s` is
/// one that the weight type accepts.
pub open spec fn square_sum_permitted<W: Default + Add<Output = W> + Mul<Output = W>>(
    s: Seq<(u32, W)>,
) -> bool
    decreases s.len(),
{
    s.len() == 0 || {
        &&& square_sum_permitted(s.drop_last())
        &&& s.last().1.mul_req(s.last().1)
        &&& square_sum(s.drop_last()).add_req(s.last().1.mul_spec(s.last().1))
    }
}

/// The squared weights of `s` can be summed: either the arithmetic never
/// fails, or it is exact and each step of this sum, begun at the zero that
/// `W::default()` gives, is accepted.
pub open spec fn can_sum_squares<W: Default + Add<Output = W> + Mul<Output = W>>(
    s: Seq<(u32, W)>,
) -> bool {
    sums_total::<W>() || (sums_exact::<W>() && (has_zero::<W>() ==> square_sum_permitted(s)))
}

/// The sum of the products of the two weights of each triple, added up from
/// the first triple to the last, starting at zero.
pub open spec fn dot_sum<W: Default + Add<Output = W> + Mul<Output = W>>(
    pairs: Seq<(u32, W, W)>,
) -> W
    decreases pairs.len(),
{
    if pairs.len() == 0 {
        zero::<W>()
    } else {
        dot_sum(pairs.drop_last()).add_spec(pairs.last().1.mul_spec(pairs.last().2))
    }
}

/// `r` is a value that summing the products of `pairs` may give: a zero for
/// the empty list, and else a sum of what the triples but the last may give
/// and a product of the two weights of the last.
pub open spec fn is_dot_sum<W: Default + Add<Output = W> + Mul<Output = W>>(
    pairs: Seq<(u32, W, W)>,
    r: W,
) -> bool
    decreases pairs.len(),
{
    if pairs.len() == 0 {
        is_zero(r)
    } else {
        exists|acc: W, prod: W|
            {
                &&& is_dot_sum(pairs.drop_last(), acc)
                &&& #[trigger] is_product(pairs.last().1, pairs.last().2, prod)
                &&& #[trigger] is_sum(acc, prod, r)
            }
    }
}

/// `r` is a value that dividing a sum of the products of `pairs` by a
/// product of the two lengths may give.
pub open spec fn is_cosine<W: Default + Add<Output = W> + Mul<Output = W> + Div<Output = W>>(
    pairs: Seq<(u32, W, W)>,
    length: W,
    other_length: W,
    r: W,
) -> bool {
    exists|dot: W, lengths: W|
        {
            &&& is_dot_sum(pairs, dot)
            &&& #[trigger] is_product(length, other_length, lengths)
            &&& #[trigger] is_quotient(dot, lengths, r)
        }
}

/// Every multiplication and addition that `dot_sum` performs on `pairs` is
/// one that the weight type accepts.
pub open spec fn dot_sum_permitted<W: Default + Add<Output = W> + Mul<Output = W>>(
    pairs: Seq<(u32, W, W)>,
) -> bool
    decreases pairs.len(),
{
    pairs.len() == 0 || {
        &&& dot_sum_permitted(pairs.drop_last())
        &&& pairs.last().1.mul_req(pairs.last().2)
        &&& dot_sum(pairs.drop_last()).add_req(pairs.last().1.mul_spec(pairs.last().2))
    }
}

/// The products of `pairs` can be summed: either the arithmetic never fails,
/// or it is exact and each step of this sum, begun at the zero that
/// `W::default()` gives, is accepted.
pub open spec fn can_dot<W: Default + Add<Output = W> + Mul<Output = W>>(
    pairs: Seq<(u32, W, W)>,
) -> bool {
    sums_total::<W>() || (sums_exact::<W>() && (has_zero::<W>() ==> dot_sum_permitted(pairs)))
}

/// Where a sum of squares is permitted, so is the sum over each prefix.
pub proof fn lemma_square_sum_prefix<W: Default + Add<Output = W> + Mul<Output = W>>(
    s: Seq<(u32, W)>,
    n: int,
)
    requires
        square_sum_permitted(s),
        0 <= n <= s.len(),
    ensures
        square_sum_permitted(s.take(n)),
    decreases s.len(),
{
    if n == s.len() {
        assert(s.take(n) =~= s);
    } else {
        lemma_square_sum_prefix(s.drop_last(), n);
        assert(s.drop_last().take(n) =~= s.take(n));
    }
}

/// Where a sum of products is permitted, so is the sum over each prefix.
pub proof fn lemma_dot_sum_prefix<W: Default + Add<Output = W> + Mul<Output = W>>(
    pairs: Seq<(u32, W, W)>,
    n: int,
)
    requires
        dot_sum_permitted(pairs),
        0 <= n <= pairs.len(),
    ensures
        dot_sum_permitted(pairs.take(n)),
    decreases pairs.len(),
{
    if n == pairs.len() {
        assert(pairs.take(n) =~= pairs);
    } else {
        lemma_dot_sum_prefix(pairs.drop_last(), n);
        assert(pairs.drop_last().take(n) =~= pairs.take(n));
    }
}

/// A zero of the weight type.
pub fn zero_weight<W: Default + Add<Output = W> + Mul<Output = W>>() -> (r: W)
    ensures
        is_zero(r),
        has_zero::<W>(),
        sums_exact::<W>() ==> r == zero::<W>(),
{
    let r = W::default();
    proof {
        assert(is_zero(r));
    }
    r
}

/// The sum of the squared weights of `entries`.
pub fn sum_squares<W: Copy + Default + Add<Output = W> + Mul<Output = W>>(
    entries: &Vec<(u32, W)>,
) -> (r: W)
    requires
        can_sum_squares(entries@),
    ensures
        is_square_sum(entries@, r),
        has_zero::<W>(),
        sums_exact::<W>() ==> r == square_sum(entries@),
{
    let mut acc = zero_weight::<W>();
    let mut i: usize = 0;
    while i < entries.len()
        invariant
            i <= entries.len(),
            can_sum_squares(entries@),
            has_zero::<W>(),
            is_square_sum(entries@.take(i as int), acc),
            sums_exact::<W>() ==> acc == square_sum(entries@.take(i as int)),
        decreases entries.len() - i,
    {
        let w = entries[i].1;
        proof {
            let s = entries@.take(i + 1);
            assert(s.drop_last() =~= entries@.take(i as int));
            assert(s.last() == entries@[i as int]);
            if !sums_total::<W>() {
                lemma_square_sum_prefix(entries@, i + 1);
            }
        }
        let sq = w * w;
        let sum = acc + sq;
        proof {
            assert(is_product(w, w, sq));
            assert(is_sum(acc, sq, sum));
        }
        acc = sum;
        i += 1;
    }
    proof {
        assert(entries@.take(i as int) =~= entries@);
    }
    acc
}

/// The sum of the products of the two weights of each triple of `pairs`.
pub fn sum_products<W: Copy + Default + Add<Output = W> + Mul<Output = W>>(
    pairs: &Vec<(u32, W, W)>,
) -> (r: W)
    requires
        can_dot(pairs@),
    ensures
        is_dot_sum(pairs@, r),
        has_zero::<W>(),
        sums_exact::<W>() ==> r == dot_sum(pairs@),
{
    let mut acc = zero_weight::<W>();
    let mut i: usize = 0;
    while i < pairs.len()
        invariant
            i <= pairs.len(),
            can_dot(pairs@),
            has_zero::<W>(),
            is_dot_sum(pairs@.take(i as int), acc),
            sums_exact::<W>() ==> acc == dot_sum(pairs@.take(i as int)),
        decreases pairs.len() - i,
    {
        let x = pairs[i].1;
        let y = pairs[i].2;
        proof {
            let s = pairs@.take(i + 1);
            assert(s.drop_last() =~= pairs@.take(i as int));
            assert(s.last() == pairs@[i as int]);
            if !sums_total::<W>() {
                lemma_dot_sum_prefix(pairs@, i + 1);
            }
        }
        let prod = x * y;
        let sum = acc + prod;
        proof {
            assert(is_product(x, y, prod));
            assert(is_sum(acc, prod, sum));
        }
        acc = sum;
        i += 1;
    }
    proof {
        assert(pairs@.take(i as int) =~= pairs@);
    }
    acc
}

} // verus!
