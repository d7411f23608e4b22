use vstd::prelude::*;

verus! {

/// The index that `m` becomes when `a` and `b` change places.
pub open spec fn relabel(m: int, a: int, b: int) -> int {
    if m == a {
        b
    } else if m == b {
        a
    } else {
        m
    }
}

/// `s` with items `p` and `p + 1` exchanged.
pub open spec fn exchanged<A>(s: Seq<A>, p: int) -> Seq<A> {
    s.update(p, s[p + 1]).update(p + 1, s[p])
}

/// Whether the positions `s..e` of `idx` hold distinct items that ascend,
/// but for the item at `hi`, which may lie left of smaller ones, and the item
/// at `lo`, which may lie right of larger ones.
pub open spec fn almost(idx: Seq<usize>, s: int, e: int, hi: int, lo: int) -> bool {
    forall|i: int, j: int|
        #![trigger idx[i], idx[j]]
        s <= i < j < e ==> idx[i] != idx[j] && (i != hi && j != lo ==> idx[i] < idx[j])
}

/// Whether the item at `hi`, if the pass that carries large items to the
/// right has gone by it, lies left of larger items only.
pub open spec fn settled_up(idx: Seq<usize>, s: int, e: int, hi: int, lo: int, p: int) -> bool {
    s <= hi < p ==> forall|j: int| hi < j < e && j != lo ==> idx[hi] < #[trigger] idx[j]
}

/// Whether the item at `lo`, if the pass that carries small items to the
/// left has gone by it, lies right of smaller items only.
pub open spec fn settled_down(idx: Seq<usize>, s: int, e: int, lo: int, p: int) -> bool {
    p < lo < e ==> forall|i: int| s <= i < lo ==> #[trigger] idx[i] < idx[lo]
}

/// Whether the pair `(m, v)` stands at one of the positions `s..e`.
pub open spec fn pair_in<T>(idx: Seq<usize>, val: Seq<T>, s: int, e: int, m: int, v: T) -> bool {
    exists|k: int| s <= k < e && (#[trigger] idx[k]) == m && val[k] == v
}

/// Whether the positions `s..e` hold the same pairs of index and value in
/// both, and all other positions hold the same pair in both.
pub open spec fn same_pairs<T>(
    idx: Seq<usize>,
    val: Seq<T>,
    idx2: Seq<usize>,
    val2: Seq<T>,
    s: int,
    e: int,
) -> bool {
    &&& idx.len() == val.len() == idx2.len() == val2.len()
    &&& forall|k: int|
        s <= k < e ==> #[trigger] pair_in(idx2, val2, s, e, idx[k] as int, val[k])
    &&& forall|k: int|
        s <= k < e ==> #[trigger] pair_in(idx, val, s, e, idx2[k] as int, val2[k])
    &&& forall|k: int|
        0 <= k < idx.len() && !(s <= k < e) ==> #[trigger] idx2[k] == idx[k] && val2[k] == val[k]
}

/// Holding the same pairs carries over.
pub(crate) proof fn lemma_same_pairs_trans<T>(
    idx: Seq<usize>,
    val: Seq<T>,
    idx2: Seq<usize>,
    val2: Seq<T>,
    idx3: Seq<usize>,
    val3: Seq<T>,
    s: int,
    e: int,
)
    requires
        same_pairs(idx, val, idx2, val2, s, e),
        same_pairs(idx2, val2, idx3, val3, s, e),
    ensures
        same_pairs(idx, val, idx3, val3, s, e),
{
    assert forall|k: int| s <= k < e implies #[trigger] pair_in(
        idx3,
        val3,
        s,
        e,
        idx[k] as int,
        val[k],
    ) by {
        assert(pair_in(idx2, val2, s, e, idx[k] as int, val[k]));
        let k2 = choose|k2: int|
            s <= k2 < e && (#[trigger] idx2[k2]) == idx[k] as int && val2[k2] == val[k];
        assert(pair_in(idx3, val3, s, e, idx2[k2] as int, val2[k2]));
    }
    assert forall|k: int| s <= k < e implies #[trigger] pair_in(
        idx,
        val,
        s,
        e,
        idx3[k] as int,
        val3[k],
    ) by {
        assert(pair_in(idx2, val2, s, e, idx3[k] as int, val3[k]));
        let k2 = choose|k2: int|
            s <= k2 < e && (#[trigger] idx2[k2]) == idx3[k] as int && val2[k2] == val3[k];
        assert(pair_in(idx, val, s, e, idx2[k2] as int, val2[k2]));
    }
}

/// A sequence holds the same pairs as itself.
pub(crate) proof fn lemma_same_pairs_refl<T>(idx: Seq<usize>, val: Seq<T>, s: int, e: int)
    requires
        idx.len() == val.len(),
    ensures
        same_pairs(idx, val, idx, val, s, e),
{
    assert forall|k: int| s <= k < e implies #[trigger] pair_in(
        idx,
        val,
        s,
        e,
        idx[k] as int,
        val[k],
    ) by {
        assert(idx[k] == idx[k] as int);
    }
}

/// Exchanging two neighbours keeps the pairs.
pub(crate) proof fn lemma_exchange_same_pairs<T>(idx: Seq<usize>, val: Seq<T>, s: int, e: int, p: int)
    requires
        idx.len() == val.len(),
        0 <= s <= p,
        p + 1 < e <= idx.len(),
    ensures
        same_pairs(idx, val, exchanged(idx, p), exchanged(val, p), s, e),
{
    let idx2 = exchanged(idx, p);
    let val2 = exchanged(val, p);
    assert forall|k: int| s <= k < e implies #[trigger] pair_in(
        idx2,
        val2,
        s,
        e,
        idx[k] as int,
        val[k],
    ) by {
        let w = if k == p {
            p + 1
        } else if k == p + 1 {
            p
        } else {
            k
        };
        assert(idx2[w] == idx[k] as int && val2[w] == val[k]);
    }
    assert forall|k: int| s <= k < e implies #[trigger] pair_in(
        idx,
        val,
        s,
        e,
        idx2[k] as int,
        val2[k],
    ) by {
        let w = if k == p {
            p + 1
        } else if k == p + 1 {
            p
        } else {
            k
        };
        assert(idx[w] == idx2[k] as int && val[w] == val2[k]);
    }
}

/// One step of the pass to the right: an inverted pair of neighbours has the
/// item at `hi` on its left or the item at `lo` on its right, and exchanging
/// the two moves that item along; a pair in order leaves the item at `hi`
/// settled once the pass has gone by.
pub(crate) proof fn lemma_up_step(idx: Seq<usize>, s: int, e: int, hi: int, lo: int, p: int)
    requires
        0 <= s <= p,
        p + 1 < e <= idx.len(),
        hi != lo || hi < s,
        almost(idx, s, e, hi, lo),
        settled_up(idx, s, e, hi, lo, p),
    ensures
        idx[p] > idx[p + 1] ==> (p == hi || p + 1 == lo) && almost(
            exchanged(idx, p),
            s,
            e,
            if hi == p {
                p + 1
            } else {
                hi
            },
            if lo == p + 1 {
                p
            } else {
                lo
            },
        ) && settled_up(
            exchanged(idx, p),
            s,
            e,
            if hi == p {
                p + 1
            } else {
                hi
            },
            if lo == p + 1 {
                p
            } else {
                lo
            },
            p + 1,
        ),
        idx[p] <= idx[p + 1] ==> settled_up(idx, s, e, hi, lo, p + 1),
{
    assert(idx[p] != idx[p + 1]);
    if idx[p] > idx[p + 1] {
        let x = exchanged(idx, p);
        let hi2 = if hi == p {
            p + 1
        } else {
            hi
        };
        let lo2 = if lo == p + 1 {
            p
        } else {
            lo
        };
        assert forall|i: int, j: int|
            #![trigger x[i], x[j]]
            s <= i < j < e implies x[i] != x[j] && (i != hi2 && j != lo2 ==> x[i] < x[j]) by {
            let oi = if i == p {
                p + 1
            } else if i == p + 1 {
                p
            } else {
                i
            };
            let oj = if j == p {
                p + 1
            } else if j == p + 1 {
                p
            } else {
                j
            };
            assert(x[i] == idx[oi] && x[j] == idx[oj]);
            if oi < oj {
                assert(idx[oi] != idx[oj]);
            } else {
                assert(idx[oj] != idx[oi]);
            }
            if i != hi2 && j != lo2 {
                if i == p && j == p + 1 {
                } else if j == p {
                    // x[j] is the old right neighbour
                    assert(idx[i] != idx[p + 1] && (i != hi && p + 1 != lo ==> idx[i] < idx[p + 1]));
                    assert(idx[i] != idx[p] && (i != hi && p != lo ==> idx[i] < idx[p]));
                } else if j == p + 1 {
                    assert(idx[i] != idx[p] && (i != hi && p != lo ==> idx[i] < idx[p]));
                } else if i == p {
                    assert(idx[p + 1] != idx[j] && (p + 1 != hi && j != lo ==> idx[p + 1] < idx[j]));
                } else if i == p + 1 {
                    assert(idx[p] != idx[j] && (p != hi && j != lo ==> idx[p] < idx[j]));
                    assert(idx[p + 1] != idx[j] && (p + 1 != hi && j != lo ==> idx[p + 1] < idx[j]));
                } else {
                    assert(idx[i] != idx[j] && (i != hi && j != lo ==> idx[i] < idx[j]));
                }
            }
        }
        if s <= hi2 < p + 1 {
            assert(hi2 == hi && hi < p);
            assert forall|j: int| hi2 < j < e && j != lo2 implies x[hi2] < #[trigger] x[j] by {
                let oj = if j == p {
                    p + 1
                } else if j == p + 1 {
                    p
                } else {
                    j
                };
                assert(x[j] == idx[oj]);
                assert(x[hi2] == idx[hi]);
                assert(oj != lo);
                assert(idx[hi] < idx[oj]);
            }
        }
    } else {
        if s <= hi < p + 1 {
            if hi == p {
                assert forall|j: int| hi < j < e && j != lo implies idx[hi] < #[trigger] idx[j] by {
                    if j > p + 1 {
                        assert(idx[p + 1] != idx[j] && (p + 1 != hi && j != lo ==> idx[p + 1]
                            < idx[j]));
                    }
                }
            }
        }
    }
}

/// After the pass to the right, only the item at `lo` may be out of place.
pub(crate) proof fn lemma_up_done(idx: Seq<usize>, s: int, e: int, hi: int, lo: int, p: int)
    requires
        0 <= s <= e <= idx.len(),
        p + 1 >= e,
        almost(idx, s, e, hi, lo),
        settled_up(idx, s, e, hi, lo, p),
    ensures
        almost(idx, s, e, -1, lo),
{
    assert forall|i: int, j: int|
        #![trigger idx[i], idx[j]]
        s <= i < j < e implies idx[i] != idx[j] && (i != -1 && j != lo ==> idx[i] < idx[j]) by {
        assert(idx[i] != idx[j] && (i != hi && j != lo ==> idx[i] < idx[j]));
    }
}

/// One step of the pass to the left, which compares the items at `p - 1` and
/// `p`: an inverted pair has the item at `lo` on its right, and exchanging
/// the two moves it along; a pair in order leaves that item settled.
pub(crate) proof fn lemma_down_step(idx: Seq<usize>, s: int, e: int, lo: int, p: int)
    requires
        0 <= s < p < e <= idx.len(),
        almost(idx, s, e, -1, lo),
        settled_down(idx, s, e, lo, p),
    ensures
        idx[p - 1] > idx[p] ==> p == lo && almost(exchanged(idx, p - 1), s, e, -1, p - 1)
            && settled_down(exchanged(idx, p - 1), s, e, p - 1, p - 1),
        idx[p - 1] <= idx[p] ==> settled_down(idx, s, e, lo, p - 1),
{
    assert(idx[p - 1] != idx[p]);
    if idx[p - 1] > idx[p] {
        let x = exchanged(idx, p - 1);
        assert forall|i: int, j: int|
            #![trigger x[i], x[j]]
            s <= i < j < e implies x[i] != x[j] && (i != -1 && j != p - 1 ==> x[i] < x[j]) by {
            let oi = if i == p - 1 {
                p
            } else if i == p {
                p - 1
            } else {
                i
            };
            let oj = if j == p - 1 {
                p
            } else if j == p {
                p - 1
            } else {
                j
            };
            assert(x[i] == idx[oi] && x[j] == idx[oj]);
            if oi < oj {
                assert(idx[oi] != idx[oj]);
            } else {
                assert(idx[oj] != idx[oi]);
            }
            if j != p - 1 {
                if i == p - 1 && j == p {
                } else if j == p {
                    assert(idx[i] != idx[p - 1] && (p - 1 != lo ==> idx[i] < idx[p - 1]));
                } else if i == p - 1 {
                    assert(idx[p] != idx[j] && (j != lo ==> idx[p] < idx[j]));
                    assert(idx[p - 1] != idx[j] && (j != lo ==> idx[p - 1] < idx[j]));
                } else if i == p {
                    assert(idx[p - 1] != idx[j] && (j != lo ==> idx[p - 1] < idx[j]));
                } else {
                    assert(idx[i] != idx[j] && (j != lo ==> idx[i] < idx[j]));
                }
            }
        }
    } else {
        if p - 1 < lo < e {
            if lo == p {
                assert forall|i: int| s <= i < lo implies #[trigger] idx[i] < idx[lo] by {
                    if i < p - 1 {
                        assert(idx[i] != idx[p - 1] && (p - 1 != lo ==> idx[i] < idx[p - 1]));
                    }
                }
            }
        }
    }
}

/// After the pass to the left the positions `s..e` ascend strictly.
pub(crate) proof fn lemma_down_done(idx: Seq<usize>, s: int, e: int, lo: int, p: int)
    requires
        0 <= s <= e <= idx.len(),
        p <= s,
        almost(idx, s, e, -1, lo),
        settled_down(idx, s, e, lo, p),
    ensures
        forall|i: int, j: int| #![trigger idx[i], idx[j]] s <= i < j < e ==> idx[i] < idx[j],
{
    assert forall|i: int, j: int| #![trigger idx[i], idx[j]] s <= i < j < e implies idx[i]
        < idx[j] by {
        assert(idx[i] != idx[j] && (i != -1 && j != lo ==> idx[i] < idx[j]));
    }
}

/// Positions that ascend strictly still do, but for two items, once `a` and
/// `b` have changed places: the larger of the two may lie too far left, the
/// smaller too far right. The result names the positions of the two.
pub(crate) proof fn lemma_relabel_almost(
    idx0: Seq<usize>,
    idx: Seq<usize>,
    s: int,
    e: int,
    a: usize,
    b: usize,
) -> (r: (int, int))
    requires
        0 <= s <= e <= idx0.len(),
        idx.len() == idx0.len(),
        forall|i: int, j: int| #![trigger idx0[i], idx0[j]] s <= i < j < e ==> idx0[i] < idx0[j],
        forall|k: int| s <= k < e ==> #[trigger] idx[k] == relabel(idx0[k] as int, a as int, b as int),
    ensures
        almost(idx, s, e, r.0, r.1),
        r.0 != r.1 || r.0 < s,
{
    let low = if a < b {
        a
    } else {
        b
    };
    let high = if a < b {
        b
    } else {
        a
    };
    let hi = if a != b && exists|k: int| s <= k < e && #[trigger] idx0[k] == low {
        choose|k: int| s <= k < e && #[trigger] idx0[k] == low
    } else {
        -1
    };
    let lo = if a != b && exists|k: int| s <= k < e && #[trigger] idx0[k] == high {
        choose|k: int| s <= k < e && #[trigger] idx0[k] == high
    } else {
        -1
    };
    assert forall|i: int, j: int|
        #![trigger idx[i], idx[j]]
        s <= i < j < e implies idx[i] != idx[j] && (i != hi && j != lo ==> idx[i] < idx[j]) by {
        assert(idx0[i] < idx0[j]);
        assert(idx[i] == relabel(idx0[i] as int, a as int, b as int));
        assert(idx[j] == relabel(idx0[j] as int, a as int, b as int));
        if a != b && i != hi && j != lo {
            if idx0[i] == low {
                if i < hi {
                    assert(idx0[i] < idx0[hi]);
                } else {
                    assert(idx0[hi] < idx0[i]);
                }
            }
            if idx0[j] == high {
                if j < lo {
                    assert(idx0[j] < idx0[lo]);
                } else {
                    assert(idx0[lo] < idx0[j]);
                }
            }
        }
    }
    (hi, lo)
}

/// Whether a pair of `idx0` and `val0` at one of the positions `s..e`, its
/// index relabelled, is `(m, v)`.
pub open spec fn pair_in_relabelled<T>(
    idx0: Seq<usize>,
    val0: Seq<T>,
    s: int,
    e: int,
    a: int,
    b: int,
    m: int,
    v: T,
) -> bool {
    exists|k0: int| s <= k0 < e && relabel((#[trigger] idx0[k0]) as int, a, b) == m && val0[k0] == v
}

/// Whether the positions `s..e` of `idx` and `val` hold the pairs of the same
/// positions of `idx0` and `val0`, each index relabelled.
pub open spec fn relabelled_lane<T>(
    idx0: Seq<usize>,
    val0: Seq<T>,
    idx: Seq<usize>,
    val: Seq<T>,
    s: int,
    e: int,
    a: int,
    b: int,
) -> bool {
    &&& forall|k0: int|
        s <= k0 < e ==> #[trigger] pair_in(idx, val, s, e, relabel(idx0[k0] as int, a, b), val0[k0])
    &&& forall|k: int|
        s <= k < e ==> #[trigger] pair_in_relabelled(idx0, val0, s, e, a, b, idx[k] as int, val[k])
}

/// A lane that holds relabelled pairs still does when nothing in it has
/// changed.
pub(crate) proof fn lemma_relabelled_lane_kept<T>(
    idx0: Seq<usize>,
    val0: Seq<T>,
    idx: Seq<usize>,
    val: Seq<T>,
    idx2: Seq<usize>,
    val2: Seq<T>,
    s: int,
    e: int,
    a: int,
    b: int,
)
    requires
        relabelled_lane(idx0, val0, idx, val, s, e, a, b),
        forall|k: int| s <= k < e ==> #[trigger] idx2[k] == idx[k] && val2[k] == val[k],
    ensures
        relabelled_lane(idx0, val0, idx2, val2, s, e, a, b),
{
    assert forall|k0: int| s <= k0 < e implies #[trigger] pair_in(
        idx2,
        val2,
        s,
        e,
        relabel(idx0[k0] as int, a, b),
        val0[k0],
    ) by {
        let m = relabel(idx0[k0] as int, a, b);
        assert(pair_in(idx, val, s, e, m, val0[k0]));
        let k = choose|k: int| s <= k < e && (#[trigger] idx[k]) == m && val[k] == val0[k0];
        assert(idx2[k] == idx[k] && val2[k] == val[k]);
    }
    assert forall|k: int| s <= k < e implies #[trigger] pair_in_relabelled(
        idx0,
        val0,
        s,
        e,
        a,
        b,
        idx2[k] as int,
        val2[k],
    ) by {
        assert(idx2[k] == idx[k] && val2[k] == val[k]);
        assert(pair_in_relabelled(idx0, val0, s, e, a, b, idx[k] as int, val[k]));
    }
}

/// A lane whose indices were relabelled in place, and whose pairs were then
/// moved about within it, holds the relabelled pairs.
pub(crate) proof fn lemma_relabelled_lane_moved<T>(
    idx0: Seq<usize>,
    val0: Seq<T>,
    idx: Seq<usize>,
    val: Seq<T>,
    idx2: Seq<usize>,
    val2: Seq<T>,
    s: int,
    e: int,
    a: int,
    b: int,
)
    requires
        0 <= s <= e <= idx.len(),
        idx0.len() == idx.len(),
        val0.len() == idx.len(),
        val.len() == idx.len(),
        forall|k: int| s <= k < e ==> (#[trigger] idx[k]) == relabel(idx0[k] as int, a, b),
        forall|k: int| s <= k < e ==> #[trigger] val[k] == val0[k],
        same_pairs(idx, val, idx2, val2, s, e),
    ensures
        relabelled_lane(idx0, val0, idx2, val2, s, e, a, b),
{
    assert forall|k0: int| s <= k0 < e implies #[trigger] pair_in(
        idx2,
        val2,
        s,
        e,
        relabel(idx0[k0] as int, a, b),
        val0[k0],
    ) by {
        assert(idx[k0] == relabel(idx0[k0] as int, a, b));
        assert(val[k0] == val0[k0]);
        assert(pair_in(idx2, val2, s, e, idx[k0] as int, val[k0]));
    }
    assert forall|k: int| s <= k < e implies #[trigger] pair_in_relabelled(
        idx0,
        val0,
        s,
        e,
        a,
        b,
        idx2[k] as int,
        val2[k],
    ) by {
        assert(pair_in(idx, val, s, e, idx2[k] as int, val2[k]));
        let k0 = choose|k0: int|
            s <= k0 < e && (#[trigger] idx[k0]) == idx2[k] as int && val[k0] == val2[k];
        assert(idx[k0] == relabel(idx0[k0] as int, a, b));
        assert(val[k0] == val0[k0]);
    }
}

/// Exchanges items `i` and `j` of `v`.
pub(crate) fn swap_items<T>(v: &mut Vec<T>, i: usize, j: usize)
    requires
        i < j < old(v)@.len(),
    ensures
        final(v)@ == old(v)@.update(i as int, old(v)@[j as int]).update(j as int, old(v)@[i as int]),
{
    let (left, right) = v.as_mut_slice().split_at_mut(j);
    core::mem::swap(&mut left[i], &mut right[0]);
}

/// One pass over the positions `s..e` from left to right that exchanges
/// each inverted pair of neighbouring indices, and their values with them.
/// The result is where the item at `lo` has gone.
pub(crate) fn pass_up<T>(
    indices: &mut Vec<usize>,
    values: &mut Vec<T>,
    s: usize,
    e: usize,
    Ghost(hi): Ghost<int>,
    Ghost(lo): Ghost<int>,
) -> (r: Ghost<int>)
    requires
        s <= e <= old(indices)@.len(),
        old(indices)@.len() == old(values)@.len(),
        hi != lo || hi < s,
        almost(old(indices)@, s as int, e as int, hi, lo),
    ensures
        almost(final(indices)@, s as int, e as int, -1, r@),
        same_pairs(old(indices)@, old(values)@, final(indices)@, final(values)@, s as int, e as int),
{
    let ghost mut hi = hi;
    let ghost mut lo = lo;
    let mut p: usize = s;
    proof {
        lemma_same_pairs_refl(indices@, values@, s as int, e as int);
    }
    while e - p > 1
        invariant
            s <= p <= e <= indices@.len(),
            e > s ==> p < e,
            hi != lo || hi < s,
            almost(indices@, s as int, e as int, hi, lo),
            settled_up(indices@, s as int, e as int, hi, lo, p as int),
            same_pairs(old(indices)@, old(values)@, indices@, values@, s as int, e as int),
        decreases e - p,
    {
        proof {
            lemma_up_step(indices@, s as int, e as int, hi, lo, p as int);
        }
        if indices[p] > indices[p + 1] {
            let ghost idx1 = indices@;
            let ghost val1 = values@;
            swap_items(values, p, p + 1);
            let t = indices[p];
            indices[p] = indices[p + 1];
            indices[p + 1] = t;
            proof {
                assert(indices@ =~= exchanged(idx1, p as int));
                assert(values@ =~= exchanged(val1, p as int));
                lemma_exchange_same_pairs(idx1, val1, s as int, e as int, p as int);
                lemma_same_pairs_trans(
                    old(indices)@,
                    old(values)@,
                    idx1,
                    val1,
                    indices@,
                    values@,
                    s as int,
                    e as int,
                );
                if hi == p {
                    hi = p + 1;
                }
                if lo == p + 1 {
                    lo = p as int;
                }
            }
        }
        p += 1;
    }
    proof {
        lemma_up_done(indices@, s as int, e as int, hi, lo, p as int);
    }
    Ghost(lo)
}

/// One pass over the positions `s..e` from right to left that exchanges
/// each inverted pair of neighbouring indices, and their values with them.
pub(crate) fn pass_down<T>(
    indices: &mut Vec<usize>,
    values: &mut Vec<T>,
    s: usize,
    e: usize,
    Ghost(lo): Ghost<int>,
)
    requires
        s <= e <= old(indices)@.len(),
        old(indices)@.len() == old(values)@.len(),
        almost(old(indices)@, s as int, e as int, -1, lo),
    ensures
        forall|i: int, j: int|
            #![trigger final(indices)@[i], final(indices)@[j]]
            s <= i < j < e ==> final(indices)@[i] < final(indices)@[j],
        same_pairs(old(indices)@, old(values)@, final(indices)@, final(values)@, s as int, e as int),
{
    let ghost mut lo = lo;
    proof {
        lemma_same_pairs_refl(indices@, values@, s as int, e as int);
    }
    if e - s < 2 {
        proof {
            lemma_down_done(indices@, s as int, e as int, lo, s as int);
        }
        return ;
    }
    let mut p: usize = e - 1;
    while p > s
        invariant
            s <= p < e <= indices@.len(),
            almost(indices@, s as int, e as int, -1, lo),
            settled_down(indices@, s as int, e as int, lo, p as int),
            same_pairs(old(indices)@, old(values)@, indices@, values@, s as int, e as int),
        decreases p - s,
    {
        proof {
            lemma_down_step(indices@, s as int, e as int, lo, p as int);
        }
        if indices[p - 1] > indices[p] {
            let ghost idx1 = indices@;
            let ghost val1 = values@;
            swap_items(values, p - 1, p);
            let t = indices[p - 1];
            indices[p - 1] = indices[p];
            indices[p] = t;
            proof {
                assert(indices@ =~= exchanged(idx1, p - 1));
                assert(values@ =~= exchanged(val1, p - 1));
                lemma_exchange_same_pairs(idx1, val1, s as int, e as int, p - 1);
                lemma_same_pairs_trans(
                    old(indices)@,
                    old(values)@,
                    idx1,
                    val1,
                    indices@,
                    values@,
                    s as int,
                    e as int,
                );
                lo = p - 1;
            }
        }
        p -= 1;
    }
    proof {
        lemma_down_done(indices@, s as int, e as int, lo, p as int);
    }
}

} // verus!
