//! What holds of the operations of a sparse vector taken together, stated
//! over the entry lists that the operations' contracts speak of.
use crate::arith::{dot_sum, square_sum, zero};
use crate::entries::{
    ascending, lemma_normalized, lemma_normalized_ascending, lemma_weights_ascending,
    lemma_weights_domain, normalized, weight_at, weights_of,
};
use crate::sp_vec::added;
use crate::join::{
    join, lemma_join_complete, lemma_join_nonempty, lemma_join_order, lemma_join_sound,
    lemma_join_swap, overlap, ranges_meet, share_dimension,
};
use std::ops::{Add, Mul};
use vstd::prelude::*;
use vstd::std_specs::ops::{AddSpec, MulSpec};

verus! {

/// Bringing a vector into its normal form a second time changes nothing:
/// the entries stay as the first time left them, and so does the length
/// computed from them.
pub proof fn update_is_idempotent<W: Default + Add<Output = W> + Mul<Output = W>>(
    s: Seq<(u32, W)>,
)
    ensures
        normalized(normalized(s)) == normalized(s),
        square_sum(normalized(normalized(s))) == square_sum(normalized(s)),
{
    lemma_normalized(s);
    lemma_normalized_ascending(normalized(s));
}

/// After dimension `d` was set to `w`, the vector is ascending and the
/// weight of `d` is `w`, whether `d` had a weight before or not; every other
/// dimension has the weight, or the lack of one, that it had.
pub proof fn get_after_set<W>(s: Seq<(u32, W)>, d: u32, w: W)
    ensures
        ascending(normalized(s.push((d, w)))),
        weight_at(normalized(s.push((d, w))), d) == Some(w),
        forall|e: u32| e != d ==> weight_at(normalized(s.push((d, w))), e) == weight_at(s, e),
{
    let pushed = s.push((d, w));
    lemma_normalized(pushed);
    assert(pushed.drop_last() =~= s);
}

/// Where the triples of `q` are those of `p` with the two weights
/// exchanged, and `*` does not depend on the order of its operands, the two
/// sums of products are the same.
proof fn lemma_dot_swap<W: Default + Add<Output = W> + Mul<Output = W>>(
    p: Seq<(u32, W, W)>,
    q: Seq<(u32, W, W)>,
)
    requires
        forall|x: W, y: W| #[trigger] x.mul_spec(y) == y.mul_spec(x),
        p.len() == q.len(),
        forall|k: int| 0 <= k < p.len() ==> (#[trigger] q[k]) == (p[k].0, p[k].2, p[k].1),
    ensures
        dot_sum(p) == dot_sum(q),
    decreases p.len(),
{
    if p.len() > 0 {
        let p_rest = p.drop_last();
        let q_rest = q.drop_last();
        assert forall|k: int| 0 <= k < p_rest.len() implies (#[trigger] q_rest[k]) == (
            p_rest[k].0,
            p_rest[k].2,
            p_rest[k].1,
        ) by {
            assert(q_rest[k] == q[k]);
        }
        lemma_dot_swap(p_rest, q_rest);
        assert(q[q.len() - 1] == (p.last().0, p.last().2, p.last().1));
    }
}

/// The scalar product does not depend on the order of the two vectors,
/// for a weight type whose `*` does not depend on the order of its operands.
pub proof fn scalar_is_symmetric<W: Default + Add<Output = W> + Mul<Output = W>>(
    a: Seq<(u32, W)>,
    b: Seq<(u32, W)>,
)
    requires
        forall|x: W, y: W| #[trigger] x.mul_spec(y) == y.mul_spec(x),
    ensures
        dot_sum(join(a, b)) == dot_sum(join(b, a)),
{
    lemma_join_swap(a, b);
    lemma_dot_swap(join(a, b), join(b, a));
}

/// Whether two vectors overlap, and whether they could, does not depend on
/// the order of the two.
pub proof fn overlap_is_symmetric<W>(a: Seq<(u32, W)>, b: Seq<(u32, W)>)
    ensures
        ranges_meet(a, b) == ranges_meet(b, a),
        overlap(a, b) == overlap(b, a),
{
    lemma_join_swap(a, b);
}

/// The quick test never misses an overlap: where two vectors overlap, their
/// ranges meet; and two ascending vectors overlap exactly if they share a
/// dimension.
pub proof fn could_overlap_never_misses<W>(a: Seq<(u32, W)>, b: Seq<(u32, W)>)
    ensures
        overlap(a, b) ==> ranges_meet(a, b),
        ascending(a) && ascending(b) ==> (share_dimension(a, b) ==> ranges_meet(a, b)),
        ascending(a) && ascending(b) ==> overlap(a, b) == share_dimension(a, b),
{
    if ascending(a) && ascending(b) {
        lemma_join_nonempty(a, b);
    }
}

/// What going through the dimensions below `n` one by one finds: each
/// dimension that has a weight in both lists, with the two weights.
pub open spec fn shared<W>(a: Seq<(u32, W)>, b: Seq<(u32, W)>, n: nat) -> Seq<(u32, W, W)>
    decreases n,
{
    if n == 0 {
        Seq::empty()
    } else {
        let d = (n - 1) as u32;
        let below = shared(a, b, (n - 1) as nat);
        if weights_of(a).contains_key(d) && weights_of(b).contains_key(d) {
            below.push((d, weights_of(a)[d], weights_of(b)[d]))
        } else {
            below
        }
    }
}

/// `shared` holds the dimensions below `n` that both lists hold, each once,
/// in ascending order.
proof fn lemma_shared<W>(a: Seq<(u32, W)>, b: Seq<(u32, W)>, n: nat)
    requires
        n <= 0x1_0000_0000,
    ensures
        forall|k: int|
            0 <= k < shared(a, b, n).len() ==> {
                let t = #[trigger] shared(a, b, n)[k];
                &&& t.0 < n
                &&& weights_of(a).contains_key(t.0)
                &&& weights_of(b).contains_key(t.0)
                &&& t.1 == weights_of(a)[t.0]
                &&& t.2 == weights_of(b)[t.0]
            },
        forall|d: u32|
            d < n && weights_of(a).contains_key(d) && weights_of(b).contains_key(d) ==> shared(
                a,
                b,
                n,
            ).contains((d, #[trigger] weights_of(a)[d], weights_of(b)[d])),
        forall|k: int, l: int|
            0 <= k < l < shared(a, b, n).len() ==> (#[trigger] shared(a, b, n)[k]).0 < (
            #[trigger] shared(a, b, n)[l]).0,
    decreases n,
{
    if n > 0 {
        let m = (n - 1) as nat;
        let d0 = m as u32;
        let below = shared(a, b, m);
        let r = shared(a, b, n);
        lemma_shared(a, b, m);
        assert forall|d: u32|
            d < n && weights_of(a).contains_key(d) && weights_of(b).contains_key(d) implies r.contains(
            (d, #[trigger] weights_of(a)[d], weights_of(b)[d]),
        ) by {
            let t = (d, weights_of(a)[d], weights_of(b)[d]);
            if d == d0 {
                assert(r[r.len() - 1] == t);
            } else {
                assert(below.contains(t));
                let k = choose|k: int| 0 <= k < below.len() && below[k] == t;
                assert(r[k] == t);
            }
        }
    }
}

/// Two lists of triples, each ascending by dimension, that hold the same
/// triples are the same list.
proof fn lemma_same_triples<W>(p: Seq<(u32, W, W)>, q: Seq<(u32, W, W)>)
    requires
        forall|k: int, l: int| 0 <= k < l < p.len() ==> (#[trigger] p[k]).0 < (#[trigger] p[l]).0,
        forall|k: int, l: int| 0 <= k < l < q.len() ==> (#[trigger] q[k]).0 < (#[trigger] q[l]).0,
        forall|k: int| 0 <= k < p.len() ==> q.contains(#[trigger] p[k]),
        forall|l: int| 0 <= l < q.len() ==> p.contains(#[trigger] q[l]),
    ensures
        p == q,
    decreases p.len(),
{
    if p.len() == 0 {
        if q.len() > 0 {
            assert(p.contains(q[0]));
        }
        assert(p =~= q);
    } else {
        let lp = p.len() - 1;
        assert(q.contains(p[lp]));
        let l = choose|l: int| 0 <= l < q.len() && q[l] == p[lp];
        let lq = q.len() - 1;
        assert(p.contains(q[lq]));
        let k = choose|k: int| 0 <= k < p.len() && p[k] == q[lq];
        assert(p[k].0 <= p[lp].0);
        assert(q[l].0 <= q[lq].0);
        assert(k == lp && l == lq);
        let p_rest = p.drop_last();
        let q_rest = q.drop_last();
        assert forall|i: int| 0 <= i < p_rest.len() implies q_rest.contains(#[trigger] p_rest[i]) by {
            assert(p_rest[i] == p[i]);
            assert(q.contains(p[i]));
            let j = choose|j: int| 0 <= j < q.len() && q[j] == p[i];
            assert(p[i].0 < p[lp].0);
            assert(q_rest[j] == p_rest[i]);
        }
        assert forall|j: int| 0 <= j < q_rest.len() implies p_rest.contains(#[trigger] q_rest[j]) by {
            assert(q_rest[j] == q[j]);
            assert(p.contains(q[j]));
            let i = choose|i: int| 0 <= i < p.len() && p[i] == q[j];
            assert(q[j].0 < q[lq].0);
            assert(p_rest[i] == q_rest[j]);
        }
        assert forall|i: int, j: int| 0 <= i < j < p_rest.len() implies (#[trigger] p_rest[i]).0 < (
        #[trigger] p_rest[j]).0 by {
            assert(p_rest[i] == p[i] && p_rest[j] == p[j]);
        }
        assert forall|i: int, j: int| 0 <= i < j < q_rest.len() implies (#[trigger] q_rest[i]).0 < (
        #[trigger] q_rest[j]).0 by {
            assert(q_rest[i] == q[i] && q_rest[j] == q[j]);
        }
        lemma_same_triples(p_rest, q_rest);
        assert(p =~= p_rest.push(p[lp]));
        assert(q =~= q_rest.push(q[lq]));
    }
}

/// The merge against the plain way: of two ascending vectors the merge
/// yields what going through all dimensions one by one and looking each up
/// in both vectors finds, so the scalar product is the sum, over the
/// dimensions in ascending order, of the product of the two weights of each
/// dimension that both vectors hold.
pub proof fn scalar_is_sum_over_dimensions<W: Default + Add<Output = W> + Mul<Output = W>>(
    a: Seq<(u32, W)>,
    b: Seq<(u32, W)>,
)
    requires
        ascending(a),
        ascending(b),
    ensures
        join(a, b) == shared(a, b, 0x1_0000_0000),
        dot_sum(join(a, b)) == dot_sum(shared(a, b, 0x1_0000_0000)),
{
    let p = join(a, b);
    let q = shared(a, b, 0x1_0000_0000);
    lemma_shared(a, b, 0x1_0000_0000);
    lemma_weights_domain(a);
    lemma_weights_domain(b);
    lemma_weights_ascending(a);
    lemma_weights_ascending(b);
    assert forall|k: int, l: int| 0 <= k < l < p.len() implies (#[trigger] p[k]).0 < (
    #[trigger] p[l]).0 by {
        lemma_join_order(a, b, k, l);
    }
    assert forall|k: int| 0 <= k < p.len() implies q.contains(#[trigger] p[k]) by {
        let t = p[k];
        lemma_join_sound(a, b, k);
        let i = choose|i: int| 0 <= i < a.len() && a[i] == (t.0, t.1);
        let j = choose|j: int| 0 <= j < b.len() && b[j] == (t.0, t.2);
        assert(a[i].0 == t.0 && b[j].0 == t.0);
        assert(weights_of(a)[t.0] == t.1 && weights_of(b)[t.0] == t.2);
    }
    assert forall|l: int| 0 <= l < q.len() implies p.contains(#[trigger] q[l]) by {
        let t = q[l];
        let i = choose|i: int| 0 <= i < a.len() && (#[trigger] a[i]).0 == t.0;
        let j = choose|j: int| 0 <= j < b.len() && (#[trigger] b[j]).0 == t.0;
        lemma_join_complete(a, b, i, j);
    }
    lemma_same_triples(p, q);
}

/// The weight of dimension `d` as a dense vector holds it: zero where the
/// sparse vector holds none.
pub open spec fn weight_or_zero<W: Default>(s: Seq<(u32, W)>, d: u32) -> W {
    if weights_of(s).contains_key(d) {
        weights_of(s)[d]
    } else {
        zero::<W>()
    }
}

/// The scalar product of the two vectors taken as dense vectors over the
/// dimensions below `n`: the sum, one dimension after the other, of the
/// product of the two weights of the dimension.
pub open spec fn dense_dot<W: Default + Add<Output = W> + Mul<Output = W>>(
    a: Seq<(u32, W)>,
    b: Seq<(u32, W)>,
    n: nat,
) -> W
    decreases n,
{
    if n == 0 {
        zero::<W>()
    } else {
        dense_dot(a, b, (n - 1) as nat).add_spec(
            weight_or_zero(a, (n - 1) as u32).mul_spec(weight_or_zero(b, (n - 1) as u32)),
        )
    }
}

/// Zero times anything is zero, and adding zero changes nothing.
pub open spec fn zero_vanishes<W: Default + Add<Output = W> + Mul<Output = W>>() -> bool {
    &&& forall|x: W| #[trigger] x.mul_spec(zero::<W>()) == zero::<W>()
    &&& forall|x: W| #[trigger] zero::<W>().mul_spec(x) == zero::<W>()
    &&& forall|x: W| #[trigger] x.add_spec(zero::<W>()) == x
}

/// Summing the products over the shared dimensions gives what summing them
/// over all dimensions below `n` gives, where zero vanishes.
proof fn lemma_dense_dot<W: Default + Add<Output = W> + Mul<Output = W>>(
    a: Seq<(u32, W)>,
    b: Seq<(u32, W)>,
    n: nat,
)
    requires
        zero_vanishes::<W>(),
    ensures
        dot_sum(shared(a, b, n)) == dense_dot(a, b, n),
    decreases n,
{
    if n > 0 {
        let d = (n - 1) as u32;
        let below = shared(a, b, (n - 1) as nat);
        lemma_dense_dot(a, b, (n - 1) as nat);
        if weights_of(a).contains_key(d) && weights_of(b).contains_key(d) {
            let t = (d, weights_of(a)[d], weights_of(b)[d]);
            assert(below.push(t).drop_last() =~= below);
            assert(below.push(t).last() == t);
        }
    }
}

/// The scalar product against a dense reference: for ascending vectors,
/// and a weight type in which zero vanishes, the sum over the merge is the
/// sum over all dimensions of the product of the two weights, a vector's
/// weight being zero where it holds none.
pub proof fn scalar_is_dense_sum<W: Default + Add<Output = W> + Mul<Output = W>>(
    a: Seq<(u32, W)>,
    b: Seq<(u32, W)>,
)
    requires
        ascending(a),
        ascending(b),
        zero_vanishes::<W>(),
    ensures
        dot_sum(join(a, b)) == dense_dot(a, b, 0x1_0000_0000),
{
    scalar_is_sum_over_dimensions(a, b);
    lemma_dense_dot(a, b, 0x1_0000_0000);
}

/// Adding place by place is adding dimension by dimension where the two
/// vectors are ascending and hold the same dimensions: the result holds
/// these dimensions, each with the sum of its two weights.
pub proof fn add_assign_is_sum_where_dimensions_agree<W: Add<Output = W>>(
    a: Seq<(u32, W)>,
    b: Seq<(u32, W)>,
)
    requires
        ascending(a),
        a.len() == b.len(),
        forall|i: int| 0 <= i < a.len() ==> (#[trigger] a[i]).0 == b[i].0,
    ensures
        normalized(added(a, b)) == added(a, b),
        forall|d: u32|
            weights_of(added(a, b)).contains_key(d) <==> #[trigger] weights_of(a).contains_key(d),
        forall|d: u32| #[trigger]
            weights_of(a).contains_key(d) ==> weights_of(added(a, b))[d] == weights_of(a)[d].add_spec(
                weights_of(b)[d],
            ),
{
    let r = added(a, b);
    assert forall|i: int, j: int| 0 <= i < j < b.len() implies b[i].0 < b[j].0 by {
        assert(a[i].0 == b[i].0 && a[j].0 == b[j].0);
    }
    assert forall|i: int, j: int| 0 <= i < j < r.len() implies r[i].0 < r[j].0 by {
        assert(r[i].0 == a[i].0 && r[j].0 == a[j].0);
    }
    lemma_normalized_ascending(r);
    lemma_weights_domain(a);
    lemma_weights_domain(r);
    lemma_weights_ascending(a);
    lemma_weights_ascending(b);
    lemma_weights_ascending(r);
    assert forall|d: u32|
        weights_of(r).contains_key(d) <==> #[trigger] weights_of(a).contains_key(d) by {
        if weights_of(r).contains_key(d) {
            let i = choose|i: int| 0 <= i < r.len() && (#[trigger] r[i]).0 == d;
            assert(a[i].0 == d);
        }
        if weights_of(a).contains_key(d) {
            let i = choose|i: int| 0 <= i < a.len() && (#[trigger] a[i]).0 == d;
            assert(r[i].0 == d);
        }
    }
    assert forall|d: u32| #[trigger] weights_of(a).contains_key(d) implies weights_of(r)[d]
        == weights_of(a)[d].add_spec(weights_of(b)[d]) by {
        let i = choose|i: int| 0 <= i < a.len() && (#[trigger] a[i]).0 == d;
        assert(r[i].0 == d);
        assert(b[i].0 == d);
        assert(r[i].1 == a[i].1.add_spec(b[i].1));
    }
}

} // verus!
