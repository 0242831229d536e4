//! The merge of two entry lists by dimension: the triples of a dimension that
//! both lists hold and its two weights.
use crate::entries::{ascending, lemma_ascending_suffix, lemma_weights_domain, weights_of};
use intersect_iter::TupleIntersect;
use vstd::prelude::*;

verus! {

/// What a merge of `a` and `b` yields. It looks at the two first entries:
/// the one with the smaller dimension is passed over; where the dimensions
/// are equal, the dimension and both weights are yielded and both entries
/// are passed over. It ends where either list ends.
pub open spec fn join<W>(a: Seq<(u32, W)>, b: Seq<(u32, W)>) -> Seq<(u32, W, W)>
    decreases a.len() + b.len(),
{
    if a.len() == 0 || b.len() == 0 {
        Seq::empty()
    } else if a[0].0 < b[0].0 {
        join(a.skip(1), b)
    } else if a[0].0 > b[0].0 {
        join(a, b.skip(1))
    } else {
        seq![(a[0].0, a[0].1, b[0].1)] + join(a.skip(1), b.skip(1))
    }
}

/// The triples of `join` as a sparse iterator hands them out, with the
/// dimension as a `usize`.
pub open spec fn join_items<W>(a: Seq<(u32, W)>, b: Seq<(u32, W)>) -> Seq<(usize, W, W)> {
    join(a, b).map_values(|t: (u32, W, W)| (t.0 as usize, t.1, t.2))
}

/// Neither list is empty, and neither begins after the other has ended.
pub open spec fn ranges_meet<W>(a: Seq<(u32, W)>, b: Seq<(u32, W)>) -> bool {
    a.len() > 0 && b.len() > 0 && a[0].0 <= b.last().0 && b[0].0 <= a.last().0
}

/// The ranges of the two lists meet and their merge yields something.
pub open spec fn overlap<W>(a: Seq<(u32, W)>, b: Seq<(u32, W)>) -> bool {
    ranges_meet(a, b) && join(a, b).len() > 0
}

/// Some dimension has a weight in both lists.
pub open spec fn share_dimension<W>(a: Seq<(u32, W)>, b: Seq<(u32, W)>) -> bool {
    exists|d: u32| #[trigger] weights_of(a).contains_key(d) && weights_of(b).contains_key(d)
}

/// Runs `intersect_iter::TupleIntersect` over the two lists and collects
/// what it yields.
///
/// Believed, not proved: the iterator compares the dimensions of the two
/// entries at the front, drops the entry with the smaller one, and on equal
/// dimensions yields the dimension with the weight of `a` and then that of
/// `b`, dropping both; it stops as soon as one side has run out. That is
/// `join`, for any two lists, ascending or not.
#[verifier::external_body]
pub(crate) fn merge_join<W: Copy>(a: &Vec<(u32, W)>, b: &Vec<(u32, W)>) -> (r: Vec<(u32, W, W)>)
    ensures
        r@ == join(a@, b@),
{
    TupleIntersect::new(a.iter().copied(), b.iter().copied()).collect()
}

/// Merging in the other order yields the same dimensions with the two
/// weights exchanged.
pub proof fn lemma_join_swap<W>(a: Seq<(u32, W)>, b: Seq<(u32, W)>)
    ensures
        join(b, a).len() == join(a, b).len(),
        forall|k: int|
            0 <= k < join(a, b).len() ==> (#[trigger] join(b, a)[k]) == (
                join(a, b)[k].0,
                join(a, b)[k].2,
                join(a, b)[k].1,
            ),
    decreases a.len() + b.len(),
{
    if a.len() == 0 || b.len() == 0 {
    } else if a[0].0 < b[0].0 {
        lemma_join_swap(a.skip(1), b);
    } else if a[0].0 > b[0].0 {
        lemma_join_swap(a, b.skip(1));
    } else {
        lemma_join_swap(a.skip(1), b.skip(1));
    }
}

/// What stands in a list without its first entry stands in the list.
proof fn lemma_contains_skip<W>(s: Seq<(u32, W)>, e: (u32, W))
    requires
        s.len() > 0,
        s.skip(1).contains(e),
    ensures
        s.contains(e),
{
    let i = choose|i: int| 0 <= i < s.skip(1).len() && s.skip(1)[i] == e;
    assert(s[i + 1] == e);
}

/// Each triple that the merge yields pairs an entry of `a` with an entry of
/// `b` of the same dimension.
pub proof fn lemma_join_sound<W>(a: Seq<(u32, W)>, b: Seq<(u32, W)>, k: int)
    requires
        0 <= k < join(a, b).len(),
    ensures
        a.contains((join(a, b)[k].0, join(a, b)[k].1)),
        b.contains((join(a, b)[k].0, join(a, b)[k].2)),
    decreases a.len() + b.len(),
{
    let t = join(a, b)[k];
    if a[0].0 < b[0].0 {
        lemma_join_sound(a.skip(1), b, k);
        lemma_contains_skip(a, (t.0, t.1));
    } else if a[0].0 > b[0].0 {
        lemma_join_sound(a, b.skip(1), k);
        lemma_contains_skip(b, (t.0, t.2));
    } else if k == 0 {
        assert(a[0] == (t.0, t.1));
        assert(b[0] == (t.0, t.2));
    } else {
        assert(t == join(a.skip(1), b.skip(1))[k - 1]);
        lemma_join_sound(a.skip(1), b.skip(1), k - 1);
        lemma_contains_skip(a, (t.0, t.1));
        lemma_contains_skip(b, (t.0, t.2));
    }
}

/// Of two ascending lists the merge yields every dimension that both hold.
pub proof fn lemma_join_complete<W>(a: Seq<(u32, W)>, b: Seq<(u32, W)>, i: int, j: int)
    requires
        ascending(a),
        ascending(b),
        0 <= i < a.len(),
        0 <= j < b.len(),
        a[i].0 == b[j].0,
    ensures
        join(a, b).contains((a[i].0, a[i].1, b[j].1)),
    decreases a.len() + b.len(),
{
    let t = (a[i].0, a[i].1, b[j].1);
    if a[0].0 < b[0].0 {
        assert(b[0].0 <= b[j].0);
        assert(a.skip(1)[i - 1] == a[i]);
        lemma_ascending_suffix(a, 1);
        lemma_join_complete(a.skip(1), b, i - 1, j);
    } else if a[0].0 > b[0].0 {
        assert(a[0].0 <= a[i].0);
        assert(b.skip(1)[j - 1] == b[j]);
        lemma_ascending_suffix(b, 1);
        lemma_join_complete(a, b.skip(1), i, j - 1);
    } else if i == 0 || j == 0 {
        assert(a[0].0 <= a[i].0);
        assert(b[0].0 <= b[j].0);
        assert(i == 0 && j == 0);
        assert(join(a, b)[0] == t);
    } else {
        let r1 = join(a.skip(1), b.skip(1));
        assert(a.skip(1)[i - 1] == a[i]);
        assert(b.skip(1)[j - 1] == b[j]);
        lemma_ascending_suffix(a, 1);
        lemma_ascending_suffix(b, 1);
        lemma_join_complete(a.skip(1), b.skip(1), i - 1, j - 1);
        let k = choose|k: int| 0 <= k < r1.len() && r1[k] == t;
        assert(join(a, b)[k + 1] == t);
    }
}

/// In an ascending list an entry that stands in it is not below the first.
proof fn lemma_first_is_least<W>(s: Seq<(u32, W)>, e: (u32, W))
    requires
        ascending(s),
        s.contains(e),
    ensures
        s[0].0 <= e.0,
{
    let i = choose|i: int| 0 <= i < s.len() && s[i] == e;
    assert(s[0].0 <= s[i].0);
}

/// Of two ascending lists the merge yields its dimensions in ascending
/// order, each once.
pub proof fn lemma_join_order<W>(a: Seq<(u32, W)>, b: Seq<(u32, W)>, k: int, l: int)
    requires
        ascending(a),
        ascending(b),
        0 <= k < l < join(a, b).len(),
    ensures
        join(a, b)[k].0 < join(a, b)[l].0,
    decreases a.len() + b.len(),
{
    if a[0].0 < b[0].0 {
        lemma_ascending_suffix(a, 1);
        lemma_join_order(a.skip(1), b, k, l);
    } else if a[0].0 > b[0].0 {
        lemma_ascending_suffix(b, 1);
        lemma_join_order(a, b.skip(1), k, l);
    } else {
        let a1 = a.skip(1);
        let b1 = b.skip(1);
        lemma_ascending_suffix(a, 1);
        lemma_ascending_suffix(b, 1);
        let t = join(a1, b1)[l - 1];
        assert(join(a, b)[l] == t);
        if k == 0 {
            lemma_join_sound(a1, b1, l - 1);
            lemma_first_is_least(a1, (t.0, t.1));
            assert(a1[0] == a[1]);
            assert(a[0].0 < a[1].0);
        } else {
            assert(join(a, b)[k] == join(a1, b1)[k - 1]);
            lemma_join_order(a1, b1, k - 1, l - 1);
        }
    }
}

/// Of two ascending lists the merge yields something exactly if the lists
/// share a dimension, and then their ranges meet.
pub proof fn lemma_join_nonempty<W>(a: Seq<(u32, W)>, b: Seq<(u32, W)>)
    requires
        ascending(a),
        ascending(b),
    ensures
        join(a, b).len() > 0 <==> share_dimension(a, b),
        share_dimension(a, b) ==> ranges_meet(a, b),
{
    lemma_weights_domain(a);
    lemma_weights_domain(b);
    if join(a, b).len() > 0 {
        let t = join(a, b)[0];
        lemma_join_sound(a, b, 0);
        let i = choose|i: int| 0 <= i < a.len() && a[i] == (t.0, t.1);
        let j = choose|j: int| 0 <= j < b.len() && b[j] == (t.0, t.2);
        assert(a[i].0 == t.0 && b[j].0 == t.0);
        assert(weights_of(a).contains_key(t.0) && weights_of(b).contains_key(t.0));
    }
    if share_dimension(a, b) {
        let d = choose|d: u32| #[trigger]
            weights_of(a).contains_key(d) && weights_of(b).contains_key(d);
        let i = choose|i: int| 0 <= i < a.len() && (#[trigger] a[i]).0 == d;
        let j = choose|j: int| 0 <= j < b.len() && (#[trigger] b[j]).0 == d;
        lemma_join_complete(a, b, i, j);
        assert(a[0].0 <= a[i].0 <= a[a.len() - 1].0);
        assert(b[0].0 <= b[j].0 <= b[b.len() - 1].0);
    }
}

} // verus!
