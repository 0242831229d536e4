//! The mathematics of an entry list: a sequence of (dimension, weight) pairs,
//! the map from dimensions to weights that it stands for, and the one
//! ascending sequence that stands for the same map.
use vstd::prelude::*;

verus! {

/// Dimensions strictly increase from each entry to the next, so none occurs twice.
pub open spec fn ascending<W>(s: Seq<(u32, W)>) -> bool {
    forall|i: int, j: int| 0 <= i < j < s.len() ==> s[i].0 < s[j].0
}

/// The weight that each dimension holds. Where several entries name one
/// dimension, the last of them counts.
pub open spec fn weights_of<W>(s: Seq<(u32, W)>) -> Map<u32, W>
    decreases s.len(),
{
    if s.len() == 0 {
        Map::empty()
    } else {
        weights_of(s.drop_last()).insert(s.last().0, s.last().1)
    }
}

/// The weight of dimension `d`, if any entry names it.
pub open spec fn weight_at<W>(s: Seq<(u32, W)>, d: u32) -> Option<W> {
    if weights_of(s).contains_key(d) {
        Some(weights_of(s)[d])
    } else {
        None
    }
}

/// One past the last entry whose dimension is below `d`. In an ascending
/// sequence this is the place where `d` stands or would have to stand.
pub open spec fn lower_bound<W>(s: Seq<(u32, W)>, d: u32) -> int
    decreases s.len(),
{
    if s.len() == 0 {
        0
    } else if s.last().0 < d {
        s.len() as int
    } else {
        lower_bound(s.drop_last(), d)
    }
}

/// `s` with dimension `d` set to `w`: overwritten where `d` stands, put in
/// at its place where it does not.
pub open spec fn upsert<W>(s: Seq<(u32, W)>, d: u32, w: W) -> Seq<(u32, W)> {
    let p = lower_bound(s, d);
    if p < s.len() && s[p].0 == d {
        s.update(p, (d, w))
    } else {
        s.insert(p, (d, w))
    }
}

/// The entries of `s` set one after the other into an empty list: ascending,
/// each dimension once, with the weight of its last entry in `s`.
pub open spec fn normalized<W>(s: Seq<(u32, W)>) -> Seq<(u32, W)>
    decreases s.len(),
{
    if s.len() == 0 {
        s
    } else {
        upsert(normalized(s.drop_last()), s.last().0, s.last().1)
    }
}

/// Where `lower_bound` lies: nothing at or after it is below `d`, and in an
/// ascending sequence everything before it is.
pub proof fn lemma_lower_bound<W>(s: Seq<(u32, W)>, d: u32)
    ensures
        0 <= lower_bound(s, d) <= s.len(),
        forall|i: int| lower_bound(s, d) <= i < s.len() ==> (#[trigger] s[i]).0 >= d,
        ascending(s) ==> forall|i: int| 0 <= i < lower_bound(s, d) ==> (#[trigger] s[i]).0 < d,
    decreases s.len(),
{
    if s.len() > 0 && s.last().0 >= d {
        let t = s.drop_last();
        lemma_lower_bound(t, d);
        assert forall|i: int| lower_bound(s, d) <= i < s.len() implies (#[trigger] s[i]).0 >= d by {
            if i < t.len() {
                assert(t[i] == s[i]);
            }
        }
        if ascending(s) {
            assert forall|i: int, j: int| 0 <= i < j < t.len() implies t[i].0 < t[j].0 by {
                assert(t[i] == s[i] && t[j] == s[j]);
            }
            assert forall|i: int| 0 <= i < lower_bound(s, d) implies (#[trigger] s[i]).0 < d by {
                assert(t[i] == s[i]);
            }
        }
    }
}

/// The only index that splits a sequence into dimensions below `d` and
/// dimensions not below `d` is `lower_bound`.
pub proof fn lemma_lower_bound_unique<W>(s: Seq<(u32, W)>, d: u32, p: int)
    requires
        0 <= p <= s.len(),
        forall|i: int| 0 <= i < p ==> (#[trigger] s[i]).0 < d,
        forall|i: int| p <= i < s.len() ==> (#[trigger] s[i]).0 >= d,
    ensures
        p == lower_bound(s, d),
    decreases s.len(),
{
    if s.len() > 0 {
        let last = s.len() - 1;
        if s[last].0 < d {
            assert(p == s.len());
        } else {
            assert(p <= last);
            let t = s.drop_last();
            assert forall|i: int| 0 <= i < p implies (#[trigger] t[i]).0 < d by {
                assert(t[i] == s[i]);
            }
            assert forall|i: int| p <= i < t.len() implies (#[trigger] t[i]).0 >= d by {
                assert(t[i] == s[i]);
            }
            lemma_lower_bound_unique(t, d, p);
        }
    }
}

/// A prefix of an ascending sequence is ascending.
pub proof fn lemma_ascending_prefix<W>(s: Seq<(u32, W)>, n: int)
    requires
        ascending(s),
        0 <= n <= s.len(),
    ensures
        ascending(s.take(n)),
{
    let t = s.take(n);
    assert forall|i: int, j: int| 0 <= i < j < t.len() implies t[i].0 < t[j].0 by {
        assert(t[i] == s[i] && t[j] == s[j]);
    }
}

/// What is left of an ascending sequence after its first `n` entries is ascending.
pub proof fn lemma_ascending_suffix<W>(s: Seq<(u32, W)>, n: int)
    requires
        ascending(s),
        0 <= n <= s.len(),
    ensures
        ascending(s.skip(n)),
{
    let t = s.skip(n);
    assert forall|i: int, j: int| 0 <= i < j < t.len() implies t[i].0 < t[j].0 by {
        assert(t[i] == s[i + n] && t[j] == s[j + n]);
    }
}

/// A dimension has a weight exactly if some entry names it.
pub proof fn lemma_weights_domain<W>(s: Seq<(u32, W)>)
    ensures
        forall|d: u32|
            weights_of(s).contains_key(d) <==> exists|i: int|
                0 <= i < s.len() && (#[trigger] s[i]).0 == d,
    decreases s.len(),
{
    if s.len() > 0 {
        let t = s.drop_last();
        lemma_weights_domain(t);
        assert forall|d: u32|
            weights_of(s).contains_key(d) <==> exists|i: int|
                0 <= i < s.len() && (#[trigger] s[i]).0 == d by {
            if weights_of(s).contains_key(d) {
                if s.last().0 == d {
                    assert(s[s.len() - 1].0 == d);
                } else {
                    assert(weights_of(t).contains_key(d));
                    let i = choose|i: int| 0 <= i < t.len() && (#[trigger] t[i]).0 == d;
                    assert(s[i] == t[i]);
                }
            }
            if exists|i: int| 0 <= i < s.len() && (#[trigger] s[i]).0 == d {
                let i = choose|i: int| 0 <= i < s.len() && (#[trigger] s[i]).0 == d;
                if i < t.len() {
                    assert(t[i] == s[i]);
                    assert(weights_of(t).contains_key(d));
                }
            }
        }
    }
}

/// In an ascending sequence every entry gives the weight of its dimension.
pub proof fn lemma_weights_ascending<W>(s: Seq<(u32, W)>)
    requires
        ascending(s),
    ensures
        forall|i: int|
            0 <= i < s.len() ==> weights_of(s).contains_key((#[trigger] s[i]).0) && weights_of(
                s,
            )[s[i].0] == s[i].1,
    decreases s.len(),
{
    if s.len() > 0 {
        let t = s.drop_last();
        lemma_ascending_prefix(s, s.len() - 1);
        assert(t =~= s.take(s.len() - 1));
        lemma_weights_ascending(t);
        assert forall|i: int| 0 <= i < s.len() implies weights_of(s).contains_key(
            (#[trigger] s[i]).0,
        ) && weights_of(s)[s[i].0] == s[i].1 by {
            if i < t.len() {
                assert(t[i] == s[i]);
                assert(s[i].0 < s[s.len() - 1].0);
            }
        }
    }
}

/// Setting a dimension in an ascending sequence keeps it ascending and
/// changes the weight of that dimension alone.
pub proof fn lemma_upsert<W>(s: Seq<(u32, W)>, d: u32, w: W)
    requires
        ascending(s),
    ensures
        ascending(upsert(s, d, w)),
        weights_of(upsert(s, d, w)) == weights_of(s).insert(d, w),
        s.len() <= upsert(s, d, w).len() <= s.len() + 1,
{
    let p = lower_bound(s, d);
    let r = upsert(s, d, w);
    lemma_lower_bound(s, d);
    if p < s.len() && s[p].0 == d {
        assert forall|i: int| 0 <= i < r.len() implies (#[trigger] r[i]).0 == s[i].0 by {}
        assert forall|i: int, j: int| 0 <= i < j < r.len() implies r[i].0 < r[j].0 by {
            assert(r[i].0 == s[i].0 && r[j].0 == s[j].0);
        }
    } else {
        assert forall|i: int| 0 <= i < r.len() implies (#[trigger] r[i]) == (if i < p {
            s[i]
        } else if i == p {
            (d, w)
        } else {
            s[i - 1]
        }) by {}
        assert forall|i: int, j: int| 0 <= i < j < r.len() implies r[i].0 < r[j].0 by {
            if i < p {
                assert(s[i].0 < d);
            }
            if j > p {
                assert(s[j - 1].0 >= d);
                assert(s[p].0 >= d);
            }
        }
    }
    lemma_weights_domain(s);
    lemma_weights_domain(r);
    lemma_weights_ascending(s);
    lemma_weights_ascending(r);
    let m = weights_of(s).insert(d, w);
    assert forall|k: u32| weights_of(r).contains_key(k) <==> m.contains_key(k) by {
        if weights_of(r).contains_key(k) && k != d {
            let i = choose|i: int| 0 <= i < r.len() && (#[trigger] r[i]).0 == k;
            if p < s.len() && s[p].0 == d {
                assert(s[i].0 == k);
            } else if i < p {
                assert(s[i].0 == k);
            } else {
                assert(s[i - 1].0 == k);
            }
        }
        if m.contains_key(k) {
            if k == d {
                assert(r[p].0 == d);
            } else {
                let i = choose|i: int| 0 <= i < s.len() && (#[trigger] s[i]).0 == k;
                if p < s.len() && s[p].0 == d {
                    assert(r[i].0 == k);
                } else if i < p {
                    assert(r[i].0 == k);
                } else {
                    assert(r[i + 1].0 == k);
                }
            }
        }
    }
    assert forall|k: u32| weights_of(r).contains_key(k) implies weights_of(r)[k] == m[k] by {
        if k == d {
            assert(r[p] == (d, w));
        } else {
            let i = choose|i: int| 0 <= i < s.len() && (#[trigger] s[i]).0 == k;
            if p < s.len() && s[p].0 == d {
                assert(r[i] == s[i]);
            } else if i < p {
                assert(r[i] == s[i]);
            } else {
                assert(r[i + 1] == s[i]);
            }
        }
    }
    assert(weights_of(r) =~= m);
}

/// What `normalized` gives: an ascending sequence, no longer than `s`, in
/// which every dimension of `s` has the weight of its last entry in `s`.
pub proof fn lemma_normalized<W>(s: Seq<(u32, W)>)
    ensures
        ascending(normalized(s)),
        weights_of(normalized(s)) == weights_of(s),
        normalized(s).len() <= s.len(),
    decreases s.len(),
{
    if s.len() > 0 {
        lemma_normalized(s.drop_last());
        lemma_upsert(normalized(s.drop_last()), s.last().0, s.last().1);
    }
}

/// Without its last entry an ascending sequence stands for the same weights
/// but for that entry's dimension.
pub proof fn lemma_weights_drop_last<W>(s: Seq<(u32, W)>)
    requires
        ascending(s),
        s.len() > 0,
    ensures
        ascending(s.drop_last()),
        weights_of(s.drop_last()) == weights_of(s).remove(s.last().0),
{
    let t = s.drop_last();
    lemma_ascending_prefix(s, s.len() - 1);
    assert(t =~= s.take(s.len() - 1));
    lemma_weights_domain(t);
    if weights_of(t).contains_key(s.last().0) {
        let i = choose|i: int| 0 <= i < t.len() && (#[trigger] t[i]).0 == s.last().0;
        assert(t[i] == s[i]);
        assert(s[i].0 < s[s.len() - 1].0);
    }
    assert(weights_of(t) =~= weights_of(s).remove(s.last().0));
}

/// An ascending sequence is fixed by the weights it stands for: two such
/// sequences with the same weights are the same sequence.
pub proof fn lemma_canonical<W>(a: Seq<(u32, W)>, b: Seq<(u32, W)>)
    requires
        ascending(a),
        ascending(b),
        weights_of(a) == weights_of(b),
    ensures
        a == b,
    decreases a.len(),
{
    lemma_weights_domain(a);
    lemma_weights_domain(b);
    lemma_weights_ascending(a);
    lemma_weights_ascending(b);
    if a.len() == 0 {
        if b.len() > 0 {
            assert(weights_of(b).contains_key(b[0].0));
        }
        assert(a =~= b);
    } else {
        let la = a.len() - 1;
        assert(weights_of(b).contains_key(a[la].0));
        let j = choose|j: int| 0 <= j < b.len() && (#[trigger] b[j]).0 == a[la].0;
        let lb = b.len() - 1;
        assert(weights_of(a).contains_key(b[lb].0));
        let i = choose|i: int| 0 <= i < a.len() && (#[trigger] a[i]).0 == b[lb].0;
        assert(a[i].0 <= a[la].0);
        assert(b[j].0 <= b[lb].0);
        assert(a[la].0 == b[lb].0);
        assert(a[la].1 == b[lb].1);
        assert(a.last() == b.last());
        lemma_weights_drop_last(a);
        lemma_weights_drop_last(b);
        lemma_canonical(a.drop_last(), b.drop_last());
        assert(a =~= a.drop_last().push(a.last()));
        assert(b =~= b.drop_last().push(b.last()));
    }
}

/// An ascending sequence is its own normal form.
pub proof fn lemma_normalized_ascending<W>(s: Seq<(u32, W)>)
    requires
        ascending(s),
    ensures
        normalized(s) == s,
{
    lemma_normalized(s);
    lemma_canonical(normalized(s), s);
}

/// Whether the dimensions of `v` strictly increase.
pub fn is_ascending<W>(v: &Vec<(u32, W)>) -> (r: bool)
    ensures
        r == ascending(v@),
{
    let mut k: usize = 1;
    while k < v.len()
        invariant
            1 <= k,
            forall|i: int, j: int| 0 <= i < j < k && j < v.len() ==> v@[i].0 < v@[j].0,
        decreases v.len() - k,
    {
        if v[k - 1].0 >= v[k].0 {
            return false;
        }
        k += 1;
    }
    true
}

/// Finds by bisection the place of dimension `d` in `v`: in an ascending
/// list, the index of the first entry that is not below `d`.
pub fn lower_bound_index<W>(v: &Vec<(u32, W)>, d: u32) -> (p: usize)
    ensures
        p <= v.len(),
        ascending(v@) ==> p == lower_bound(v@, d),
{
    let mut lo: usize = 0;
    let mut hi: usize = v.len();
    while lo < hi
        invariant
            lo <= hi <= v.len(),
            ascending(v@) ==> forall|i: int| 0 <= i < lo ==> (#[trigger] v@[i]).0 < d,
            ascending(v@) ==> forall|i: int| hi <= i < v.len() ==> (#[trigger] v@[i]).0 >= d,
        decreases hi - lo,
    {
        let mid = lo + (hi - lo) / 2;
        if v[mid].0 < d {
            lo = mid + 1;
        } else {
            hi = mid;
        }
    }
    proof {
        if ascending(v@) {
            lemma_lower_bound_unique(v@, d, lo as int);
        }
    }
    lo
}

/// Sets dimension `d` of the ascending list `v` to `w`, in place: by one
/// bisection, and one overwrite or one insertion. Of a list that is not
/// ascending some entry is overwritten or some place filled.
pub fn set_entry<W: Copy>(v: &mut Vec<(u32, W)>, d: u32, w: W)
    ensures
        ascending(old(v)@) ==> final(v)@ == upsert(old(v)@, d, w),
        final(v)@.len() == old(v)@.len() || final(v)@.len() == old(v)@.len() + 1,
{
    let p = lower_bound_index(v, d);
    if p < v.len() && v[p].0 == d {
        v[p] = (d, w);
    } else {
        v.insert(p, (d, w));
    }
}

/// The weights of two lists put one after the other are those of the first
/// list, but for the dimensions that the second list names too.
pub proof fn lemma_weights_concat<W>(a: Seq<(u32, W)>, b: Seq<(u32, W)>)
    ensures
        weights_of(a + b) == weights_of(a).union_prefer_right(weights_of(b)),
    decreases b.len(),
{
    if b.len() == 0 {
        assert(a + b =~= a);
        assert(weights_of(a) =~= weights_of(a).union_prefer_right(weights_of(b)));
    } else {
        lemma_weights_concat(a, b.drop_last());
        assert((a + b).drop_last() =~= a + b.drop_last());
        assert(weights_of(a + b) =~= weights_of(a).union_prefer_right(weights_of(b)));
    }
}

/// Merges two ascending lists into one ascending list. Where both name a
/// dimension, the entry of `later` stays. Of lists that are not ascending
/// the entries are still merged in one pass, in some order.
pub fn merge_later_wins<W: Copy>(earlier: &Vec<(u32, W)>, later: &Vec<(u32, W)>) -> (out: Vec<
    (u32, W),
>)
    ensures
        ascending(earlier@) && ascending(later@) ==> {
            &&& ascending(out@)
            &&& weights_of(out@) == weights_of(earlier@).union_prefer_right(weights_of(later@))
        },
        out@.len() <= earlier@.len() + later@.len(),
{
    let ghost sorted = ascending(earlier@) && ascending(later@);
    let mut out: Vec<(u32, W)> = Vec::new();
    let mut i: usize = 0;
    let mut j: usize = 0;
    while i < earlier.len() || j < later.len()
        invariant
            i <= earlier.len(),
            j <= later.len(),
            out@.len() <= i + j,
            sorted == (ascending(earlier@) && ascending(later@)),
            sorted ==> ascending(out@),
            sorted ==> weights_of(out@) == weights_of(earlier@.take(i as int)).union_prefer_right(
                weights_of(later@.take(j as int)),
            ),
            sorted ==> forall|k: int|
                0 <= k < out@.len() && i < earlier.len() ==> (#[trigger] out@[k]).0 < earlier@[i as int].0,
            sorted ==> forall|k: int|
                0 <= k < out@.len() && j < later.len() ==> (#[trigger] out@[k]).0 < later@[j as int].0,
        decreases (earlier.len() - i) + (later.len() - j),
    {
        let ghost before = out@;
        let ghost mx = weights_of(earlier@.take(i as int));
        let ghost my = weights_of(later@.take(j as int));
        proof {
            if i < earlier.len() {
                assert(earlier@.take(i + 1).drop_last() =~= earlier@.take(i as int));
            }
            if j < later.len() {
                assert(later@.take(j + 1).drop_last() =~= later@.take(j as int));
            }
        }
        if j >= later.len() || (i < earlier.len() && earlier[i].0 < later[j].0) {
            let e = earlier[i];
            proof {
                if sorted {
                    lemma_weights_domain(later@.take(j as int));
                    lemma_weights_domain(before);
                    if my.contains_key(e.0) {
                        assert(weights_of(before).contains_key(e.0));
                        let k = choose|k: int|
                            0 <= k < before.len() && (#[trigger] before[k]).0 == e.0;
                        assert(before[k].0 < earlier@[i as int].0);
                    }
                }
            }
            out.push(e);
            i += 1;
            proof {
                assert(out@.drop_last() =~= before);
                if sorted {
                    assert(weights_of(out@) =~= mx.insert(e.0, e.1).union_prefer_right(my));
                }
            }
        } else if i >= earlier.len() || later[j].0 < earlier[i].0 {
            let e = later[j];
            out.push(e);
            j += 1;
            proof {
                assert(out@.drop_last() =~= before);
                if sorted {
                    assert(weights_of(out@) =~= mx.union_prefer_right(my.insert(e.0, e.1)));
                }
            }
        } else {
            let e = later[j];
            let ghost f = earlier@[i as int];
            out.push(e);
            i += 1;
            j += 1;
            proof {
                assert(out@.drop_last() =~= before);
                if sorted {
                    assert(weights_of(out@) =~= mx.insert(f.0, f.1).union_prefer_right(
                        my.insert(e.0, e.1),
                    ));
                }
            }
        }
    }
    proof {
        assert(earlier@.take(i as int) =~= earlier@);
        assert(later@.take(j as int) =~= later@);
    }
    out
}

/// The normal form of the entries of `v` from index `from` up to, not
/// including, index `to`, by halving and merging.
pub fn normalize_range<W: Copy>(v: &Vec<(u32, W)>, from: usize, to: usize) -> (out: Vec<(u32, W)>)
    requires
        from <= to <= v.len(),
    ensures
        out@ == normalized(v@.subrange(from as int, to as int)),
    decreases to - from,
{
    let ghost s = v@.subrange(from as int, to as int);
    if to - from == 0 {
        let out: Vec<(u32, W)> = Vec::new();
        assert(out@ =~= normalized(s));
        out
    } else if to - from == 1 {
        let mut out: Vec<(u32, W)> = Vec::new();
        out.push(v[from]);
        proof {
            assert(out@ =~= s);
            lemma_normalized_ascending(s);
        }
        out
    } else {
        let mid = from + (to - from) / 2;
        let earlier = normalize_range(v, from, mid);
        let later = normalize_range(v, mid, to);
        proof {
            lemma_normalized(v@.subrange(from as int, mid as int));
            lemma_normalized(v@.subrange(mid as int, to as int));
        }
        let out = merge_later_wins(&earlier, &later);
        proof {
            assert(s =~= v@.subrange(from as int, mid as int) + v@.subrange(mid as int, to as int));
            lemma_weights_concat(
                v@.subrange(from as int, mid as int),
                v@.subrange(mid as int, to as int),
            );
            lemma_normalized(s);
            lemma_canonical(out@, normalized(s));
        }
        out
    }
}

/// The normal form of `v` as a new list.
pub fn normalize<W: Copy>(v: &Vec<(u32, W)>) -> (out: Vec<(u32, W)>)
    ensures
        out@ == normalized(v@),
{
    proof {
        assert(v@.subrange(0, v@.len() as int) =~= v@);
    }
    normalize_range(v, 0, v.len())
}

} // verus!
