use crate::builder::{
    lane_sorted, BuilderInsertError, BuilderModel, SparsityPattern, SparsityPatternBuilder,
};
use crate::resort::{
    lemma_relabel_almost, lemma_relabelled_lane_kept, lemma_relabelled_lane_moved,
    lemma_same_pairs_trans, pair_in, pair_in_relabelled, pass_down, pass_up, relabel,
    relabelled_lane, same_pairs,
};
use crate::scalar::{is_one_of, Scalar};
use vstd::prelude::*;

verus! {

/// A sparsity pattern with one value for each stored position.
#[derive(Debug, Clone, PartialEq, Eq)]
pub struct CsMatrix<T> {
    pub(crate) pattern: SparsityPattern,
    values: Vec<T>,
}

impl<T> CsMatrix<T> {
    /// The pattern of the matrix.
    pub closed spec fn spec_pattern(&self) -> SparsityPattern {
        self.pattern
    }

    /// The stored values, in the order of the pattern's indices.
    pub closed spec fn spec_values(&self) -> Seq<T> {
        self.values@
    }

    /// The invariant of a matrix: its pattern is in order and every stored
    /// position has its value.
    pub open spec fn wf(&self) -> bool {
        &&& self.spec_pattern().wf()
        &&& self.spec_values().len() == self.spec_pattern().indices().len()
    }

    /// Whether the matrix stores a value at `(major, minor)`.
    pub open spec fn has(&self, major: int, minor: int) -> bool {
        self.spec_pattern().has_entry(major, minor)
    }

    /// Where among the stored indices `(major, minor)` stands.
    pub open spec fn position(&self, major: int, minor: int) -> int {
        choose|k: int|
            self.spec_pattern().offsets()[major] <= k < self.spec_pattern().offsets()[major + 1]
                && #[trigger] self.spec_pattern().indices()[k] == minor
    }

    /// The value stored at `(major, minor)`.
    pub open spec fn value_at(&self, major: int, minor: int) -> T {
        self.spec_values()[self.position(major, minor)]
    }

    /// The values of lane `i`.
    pub open spec fn spec_lane_values(&self, i: int) -> Seq<T> {
        self.spec_values().subrange(
            self.spec_pattern().offsets()[i] as int,
            self.spec_pattern().offsets()[i + 1] as int,
        )
    }

    /// The index at position `k` of lane `major` is stored there and nowhere
    /// else in the lane.
    pub proof fn lemma_position(&self, major: int, k: int)
        requires
            self.wf(),
            0 <= major < self.spec_pattern().spec_major_dim(),
            self.spec_pattern().offsets()[major] <= k < self.spec_pattern().offsets()[major + 1],
        ensures
            0 <= k < self.spec_values().len(),
            self.has(major, self.spec_pattern().indices()[k] as int),
            self.position(major, self.spec_pattern().indices()[k] as int) == k,
            self.value_at(major, self.spec_pattern().indices()[k] as int) == self.spec_values()[k],
    {
        let p = self.spec_pattern();
        let offs = p.offsets();
        let idx = p.indices();
        assert(offs[major + 1] <= offs[offs.len() - 1]);
        let q = self.position(major, idx[k] as int);
        assert(lane_sorted(offs, idx, major));
        if q < k {
            assert(idx[q] < idx[k]);
        } else if k < q {
            assert(idx[k] < idx[q]);
        }
    }

    /// The values and the minor indices of lane `i`.
    pub fn lane(&self, i: usize) -> (r: (&[T], &[usize]))
        requires
            self.wf(),
            i < self.spec_pattern().spec_major_dim(),
        ensures
            r.0@ == self.spec_lane_values(i as int),
            r.1@ == self.spec_pattern().spec_lane(i as int),
    {
        proof {
            self.pattern.lemma_views();
            assert(self.pattern.offsets()[i as int] <= self.pattern.offsets()[i + 1]);
            assert(self.pattern.offsets()[i + 1] <= self.pattern.offsets()[self.pattern.offsets().len()
                - 1]);
        }
        assert(self.pattern.major_offsets.len() <= usize::MAX);
        let s = self.pattern.major_offsets[i];
        let e = self.pattern.major_offsets[i + 1];
        (
            vstd::slice::slice_subrange(self.values.as_slice(), s, e),
            vstd::slice::slice_subrange(self.pattern.minor_indices.as_slice(), s, e),
        )
    }

    /// The entries of lane `i` as pairs of minor index and value, in
    /// ascending order of the index.
    pub fn lane_iter(&self, i: usize) -> (r: Vec<(usize, &T)>)
        requires
            self.wf(),
            i < self.spec_pattern().spec_major_dim(),
        ensures
            r@.len() == self.spec_pattern().spec_lane(i as int).len(),
            forall|k: int|
                0 <= k < r@.len() ==> (#[trigger] r@[k]).0 == self.spec_pattern().spec_lane(
                    i as int,
                )[k] && *r@[k].1 == self.spec_lane_values(i as int)[k],
    {
        let (vals, rows) = self.lane(i);
        let mut out: Vec<(usize, &T)> = Vec::new();
        let mut k: usize = 0;
        while k < rows.len()
            invariant
                0 <= k <= rows@.len(),
                rows@.len() == vals@.len(),
                out@.len() == k,
                forall|x: int|
                    0 <= x < k ==> (#[trigger] out@[x]).0 == rows@[x] && *out@[x].1 == vals@[x],
            decreases rows@.len() - k,
        {
            out.push((rows[k], &vals[k]));
            k += 1;
        }
        out
    }

    /// The pattern of the matrix.
    pub fn pattern(&self) -> (r: &SparsityPattern)
        ensures
            *r == self.spec_pattern(),
    {
        &self.pattern
    }

    /// The stored values, in the order of the pattern's indices.
    pub fn values(&self) -> (r: &[T])
        ensures
            r@ == self.spec_values(),
    {
        self.values.as_slice()
    }

    /// The stored values, to be overwritten in place; the pattern stays.
    pub fn values_mut(&mut self) -> (r: &mut [T])
        ensures
            r@ == old(self).spec_values(),
            final(self).spec_values() == final(r)@,
            final(self).spec_pattern() == old(self).spec_pattern(),
    {
        self.values.as_mut_slice()
    }

    /// Whether `self` is `before` with the minor indices `a` and `b`
    /// exchanged: the lanes keep their lengths, and a value stored at
    /// `(major, minor)` before is now stored at `(major, relabel(minor))`.
    pub open spec fn swapped_from(&self, before: Self, a: int, b: int) -> bool {
        &&& self.spec_pattern().offsets() == before.spec_pattern().offsets()
        &&& self.spec_pattern().spec_minor_dim() == before.spec_pattern().spec_minor_dim()
        &&& forall|major: int, minor: int| #[trigger]
            before.has(major, minor) ==> self.has(major, relabel(minor, a, b)) && self.value_at(
                major,
                relabel(minor, a, b),
            ) == before.value_at(major, minor)
        &&& forall|major: int, minor: int| #[trigger]
            self.has(major, minor) ==> before.has(major, relabel(minor, a, b))
    }

    /// Exchanges the minor indices `a` and `b` throughout the matrix: every
    /// stored `a` becomes `b` and every `b` becomes `a`; then each lane is
    /// put back in ascending order, its values moving with their indices,
    /// by one pass of exchanges of neighbours to the right and one to the
    /// left.
    pub fn swap_minor(&mut self, a: usize, b: usize)
        requires
            old(self).wf(),
            a < old(self).spec_pattern().spec_minor_dim(),
            b < old(self).spec_pattern().spec_minor_dim(),
        ensures
            final(self).wf(),
            final(self).swapped_from(*old(self), a as int, b as int),
    {
        let ghost offs = self.pattern.major_offsets@;
        let ghost idx0 = self.pattern.minor_indices@;
        let ghost val0 = self.values@;
        let ghost dim = self.pattern.minor_dim;
        proof {
            old(self).pattern.lemma_views();
        }
        let count = self.pattern.minor_indices.len();
        let mut k: usize = 0;
        while k < count
            invariant
                0 <= k <= count,
                count == idx0.len(),
                a < dim,
                b < dim,
                self.pattern.minor_indices@.len() == count,
                self.pattern.major_offsets@ == offs,
                self.pattern.minor_dim == dim,
                self.values@ == val0,
                forall|x: int| 0 <= x < count ==> (#[trigger] idx0[x]) < dim,
                forall|x: int|
                    0 <= x < k ==> #[trigger] self.pattern.minor_indices@[x] == relabel(
                        idx0[x] as int,
                        a as int,
                        b as int,
                    ),
                forall|x: int| k <= x < count ==> #[trigger] self.pattern.minor_indices@[x] == idx0[x],
            decreases count - k,
        {
            let i = self.pattern.minor_indices[k];
            if i == a {
                self.pattern.minor_indices[k] = b;
            } else if i == b {
                self.pattern.minor_indices[k] = a;
            }
            k += 1;
        }
        // for each major, resort the indices
        let n = self.pattern.major_offsets.len() - 1;
        let mut i: usize = 0;
        while i < n
            invariant
                0 <= i <= n,
                n == offs.len() - 1,
                old(self).wf(),
                offs == old(self).spec_pattern().offsets(),
                idx0 == old(self).spec_pattern().indices(),
                val0 == old(self).spec_values(),
                dim == old(self).spec_pattern().spec_minor_dim(),
                self.pattern.major_offsets@ == offs,
                self.pattern.minor_dim == dim,
                self.pattern.minor_indices@.len() == idx0.len(),
                self.values@.len() == idx0.len(),
                forall|l: int|
                    0 <= l < i ==> #[trigger] lane_sorted(offs, self.pattern.minor_indices@, l),
                forall|l: int|
                    0 <= l < i ==> #[trigger] relabelled_lane(
                        idx0,
                        val0,
                        self.pattern.minor_indices@,
                        self.values@,
                        offs[l] as int,
                        offs[l + 1] as int,
                        a as int,
                        b as int,
                    ),
                forall|x: int|
                    0 <= x < idx0.len() ==> (#[trigger] self.pattern.minor_indices@[x]) < dim,
                forall|x: int|
                    offs[i as int] <= x < idx0.len() ==> (#[trigger] self.pattern.minor_indices@[x])
                        == relabel(idx0[x] as int, a as int, b as int),
                forall|x: int|
                    offs[i as int] <= x < idx0.len() ==> #[trigger] self.values@[x] == val0[x],
            decreases n - i,
        {
            let s = self.pattern.major_offsets[i];
            let e = self.pattern.major_offsets[i + 1];
            let ghost idx_in = self.pattern.minor_indices@;
            let ghost val_in = self.values@;
            proof {
                assert(offs[i as int] <= offs[i + 1]);
                assert(offs[i + 1] <= offs[offs.len() - 1]);
                assert(lane_sorted(offs, idx0, i as int));
            }
            let ghost marks = lemma_relabel_almost(idx0, idx_in, s as int, e as int, a, b);
            let lo = pass_up(
                &mut self.pattern.minor_indices,
                &mut self.values,
                s,
                e,
                Ghost(marks.0),
                Ghost(marks.1),
            );
            let ghost idx_mid = self.pattern.minor_indices@;
            let ghost val_mid = self.values@;
            pass_down(&mut self.pattern.minor_indices, &mut self.values, s, e, lo);
            proof {
                let idx_out = self.pattern.minor_indices@;
                let val_out = self.values@;
                lemma_same_pairs_trans(
                    idx_in,
                    val_in,
                    idx_mid,
                    val_mid,
                    idx_out,
                    val_out,
                    s as int,
                    e as int,
                );
                lemma_relabelled_lane_moved(
                    idx0,
                    val0,
                    idx_in,
                    val_in,
                    idx_out,
                    val_out,
                    s as int,
                    e as int,
                    a as int,
                    b as int,
                );
                assert(lane_sorted(offs, idx_out, i as int));
                assert forall|x: int| e <= x < idx0.len() implies #[trigger] val_out[x]
                    == val0[x] by {
                    assert(idx_out[x] == idx_in[x] && val_out[x] == val_in[x]);
                }
                assert forall|l: int| 0 <= l < i implies #[trigger] lane_sorted(
                    offs,
                    idx_out,
                    l,
                ) by {
                    assert(offs[l] <= offs[l + 1]);
                    assert(offs[l + 1] <= offs[i as int]);
                    assert(lane_sorted(offs, idx_in, l));
                    assert forall|x: int, y: int|
                        #![trigger idx_out[x], idx_out[y]]
                        offs[l] <= x < y < offs[l + 1] implies idx_out[x] < idx_out[y] by {
                        assert(idx_out[x] == idx_in[x]);
                        assert(idx_out[y] == idx_in[y]);
                        assert(idx_in[x] < idx_in[y]);
                    }
                }
                assert forall|l: int| 0 <= l < i implies #[trigger] relabelled_lane(
                    idx0,
                    val0,
                    idx_out,
                    val_out,
                    offs[l] as int,
                    offs[l + 1] as int,
                    a as int,
                    b as int,
                ) by {
                    assert(offs[l] <= offs[l + 1]);
                    assert(offs[l + 1] <= offs[i as int]);
                    assert(relabelled_lane(
                        idx0,
                        val0,
                        idx_in,
                        val_in,
                        offs[l] as int,
                        offs[l + 1] as int,
                        a as int,
                        b as int,
                    ));
                    assert forall|k: int| offs[l] <= k < offs[l + 1] implies #[trigger] idx_out[k]
                        == idx_in[k] && val_out[k] == val_in[k] by {}
                    lemma_relabelled_lane_kept(
                        idx0,
                        val0,
                        idx_in,
                        val_in,
                        idx_out,
                        val_out,
                        offs[l] as int,
                        offs[l + 1] as int,
                        a as int,
                        b as int,
                    );
                }
                assert forall|x: int| 0 <= x < idx0.len() implies (#[trigger] idx_out[x]) < dim by {
                    if s <= x < e {
                        assert(pair_in(idx_in, val_in, s as int, e as int, idx_out[x] as int, val_out[x]));
                        let k0 = choose|k0: int|
                            s <= k0 < e && (#[trigger] idx_in[k0]) == idx_out[x] as int
                                && val_in[k0] == val_out[x];
                        assert(idx_in[k0] < dim);
                    } else {
                        assert(idx_out[x] == idx_in[x]);
                    }
                }
            }
            i += 1;
        }
        proof {
            self.pattern.lemma_views();
            Self::lemma_swapped_from_layout(*self, *old(self), a, b);
        }
    }

    /// A matrix whose lanes hold the pairs of another's, each index
    /// relabelled, is that other with the two minor indices exchanged.
    proof fn lemma_swapped_from_layout(after: Self, before: Self, a: usize, b: usize)
        requires
            before.wf(),
            after.wf(),
            after.spec_pattern().offsets() == before.spec_pattern().offsets(),
            after.spec_pattern().spec_minor_dim() == before.spec_pattern().spec_minor_dim(),
            forall|l: int|
                0 <= l < before.spec_pattern().spec_major_dim() ==> #[trigger] relabelled_lane(
                    before.spec_pattern().indices(),
                    before.spec_values(),
                    after.spec_pattern().indices(),
                    after.spec_values(),
                    before.spec_pattern().offsets()[l] as int,
                    before.spec_pattern().offsets()[l + 1] as int,
                    a as int,
                    b as int,
                ),
        ensures
            after.swapped_from(before, a as int, b as int),
    {
        let offs = before.spec_pattern().offsets();
        let idx0 = before.spec_pattern().indices();
        let val0 = before.spec_values();
        let idx = after.spec_pattern().indices();
        let val = after.spec_values();
        assert forall|major: int, minor: int| #[trigger]
            before.has(major, minor) implies after.has(major, relabel(minor, a as int, b as int))
            && after.value_at(major, relabel(minor, a as int, b as int)) == before.value_at(
            major,
            minor,
        ) by {
            let s = offs[major] as int;
            let e = offs[major + 1] as int;
            let k0 = choose|k: int| s <= k < e && #[trigger] idx0[k] == minor;
            before.lemma_position(major, k0);
            assert(relabelled_lane(idx0, val0, idx, val, s, e, a as int, b as int));
            let m = relabel(idx0[k0] as int, a as int, b as int);
            assert(pair_in(idx, val, s, e, m, val0[k0]));
            let k = choose|k: int| s <= k < e && (#[trigger] idx[k]) == m && val[k] == val0[k0];
            after.lemma_position(major, k);
        }
        assert forall|major: int, minor: int| #[trigger]
            after.has(major, minor) implies before.has(
            major,
            relabel(minor, a as int, b as int),
        ) by {
            let s = offs[major] as int;
            let e = offs[major + 1] as int;
            let k = choose|k: int| s <= k < e && #[trigger] idx[k] == minor;
            assert(relabelled_lane(idx0, val0, idx, val, s, e, a as int, b as int));
            assert(pair_in_relabelled(idx0, val0, s, e, a as int, b as int, idx[k] as int, val[k]));
            let k0 = choose|k0: int|
                s <= k0 < e && relabel((#[trigger] idx0[k0]) as int, a as int, b as int)
                    == idx[k] as int && val0[k0] == val[k];
            before.lemma_position(major, k0);
        }
    }
}

/// A lane that some stored position `k` lies in.
pub proof fn lemma_lane_of_position(offsets: Seq<usize>, k: int, upto: int) -> (l: int)
    requires
        offsets.len() >= 1,
        offsets[0] == 0,
        forall|i: int, j: int|
            #![trigger offsets[i], offsets[j]]
            0 <= i <= j < offsets.len() ==> offsets[i] <= offsets[j],
        0 <= upto < offsets.len(),
        0 <= k < offsets[upto],
    ensures
        0 <= l < upto,
        offsets[l] <= k < offsets[l + 1],
    decreases upto,
{
    if offsets[upto - 1] <= k {
        upto - 1
    } else {
        lemma_lane_of_position(offsets, k, upto - 1)
    }
}

/// Two patterns with the same offsets that store the same positions in
/// lane `l` hold the same index at each position of that lane.
pub proof fn lemma_same_entries_same_lane(p: SparsityPattern, q: SparsityPattern, l: int, k: int)
    requires
        p.wf(),
        q.wf(),
        p.offsets() == q.offsets(),
        0 <= l < p.spec_major_dim(),
        forall|minor: int| p.has_entry(l, minor) == q.has_entry(l, minor),
        p.offsets()[l] <= k < p.offsets()[l + 1],
    ensures
        p.indices()[k] == q.indices()[k],
    decreases k,
{
    let offs = p.offsets();
    let s = offs[l] as int;
    let e = offs[l + 1] as int;
    let pi = p.indices();
    let qi = q.indices();
    assert(offs[l + 1] <= offs[offs.len() - 1]);
    assert(lane_sorted(offs, pi, l));
    assert(lane_sorted(offs, qi, l));
    assert(p.has_entry(l, pi[k] as int));
    assert(q.has_entry(l, pi[k] as int));
    let y = choose|y: int| s <= y < e && #[trigger] qi[y] == pi[k] as int;
    if y < k {
        lemma_same_entries_same_lane(p, q, l, y);
        assert(pi[y] < pi[k]);
    }
    assert(q.has_entry(l, qi[k] as int));
    assert(p.has_entry(l, qi[k] as int));
    let x = choose|x: int| s <= x < e && #[trigger] pi[x] == qi[k] as int;
    if x < k {
        lemma_same_entries_same_lane(p, q, l, x);
        assert(qi[x] < qi[k]);
    }
    if y > k {
        assert(qi[k] < qi[y]);
    }
    if x > k {
        assert(pi[k] < pi[x]);
    }
}

/// Two matrices with the same offsets that store the same values at the
/// same positions are the same matrix.
pub proof fn lemma_same_entries_same_matrix<T>(m: CsMatrix<T>, w: CsMatrix<T>)
    requires
        m.wf(),
        w.wf(),
        m.spec_pattern().offsets() == w.spec_pattern().offsets(),
        forall|major: int, minor: int| m.has(major, minor) == w.has(major, minor),
        forall|major: int, minor: int|
            m.has(major, minor) ==> #[trigger] m.value_at(major, minor) == w.value_at(major, minor),
    ensures
        m.spec_pattern().indices() == w.spec_pattern().indices(),
        m.spec_values() == w.spec_values(),
{
    let p = m.spec_pattern();
    let q = w.spec_pattern();
    let offs = p.offsets();
    assert(p.indices().len() == q.indices().len());
    assert forall|k: int|
        #![trigger p.indices()[k]]
        #![trigger m.spec_values()[k]]
        0 <= k < p.indices().len() implies p.indices()[k] == q.indices()[k] && m.spec_values()[k]
        == w.spec_values()[k] by {
        let l = lemma_lane_of_position(offs, k, offs.len() - 1);
        assert forall|minor: int| p.has_entry(l, minor) == q.has_entry(l, minor) by {
            assert(m.has(l, minor) == w.has(l, minor));
        }
        lemma_same_entries_same_lane(p, q, l, k);
        m.lemma_position(l, k);
        w.lemma_position(l, k);
        assert(m.value_at(l, p.indices()[k] as int) == w.value_at(l, p.indices()[k] as int));
    }
    assert(p.indices() =~= q.indices());
    assert(m.spec_values() =~= w.spec_values());
}

/// Exchanging two minor indices twice gives back the matrix: the same
/// offsets, indices and values.
pub proof fn lemma_swap_minor_twice<T>(
    m0: CsMatrix<T>,
    m1: CsMatrix<T>,
    m2: CsMatrix<T>,
    a: int,
    b: int,
)
    requires
        m0.wf(),
        m1.wf(),
        m2.wf(),
        m1.swapped_from(m0, a, b),
        m2.swapped_from(m1, a, b),
    ensures
        m2.spec_pattern().offsets() == m0.spec_pattern().offsets(),
        m2.spec_pattern().spec_minor_dim() == m0.spec_pattern().spec_minor_dim(),
        m2.spec_pattern().indices() == m0.spec_pattern().indices(),
        m2.spec_values() == m0.spec_values(),
{
    assert forall|major: int, minor: int| m2.has(major, minor) == m0.has(major, minor) by {
        let r = relabel(minor, a, b);
        assert(relabel(r, a, b) == minor);
        if m2.has(major, minor) {
            assert(m1.has(major, r));
            assert(m0.has(major, relabel(r, a, b)));
        }
        if m0.has(major, minor) {
            assert(m1.has(major, r));
            assert(m2.has(major, relabel(r, a, b)));
        }
    }
    assert forall|major: int, minor: int| m2.has(major, minor) implies #[trigger] m2.value_at(
        major,
        minor,
    ) == m0.value_at(major, minor) by {
        let r = relabel(minor, a, b);
        assert(relabel(r, a, b) == minor);
        assert(m0.has(major, minor));
        assert(m1.has(major, r));
        assert(m2.value_at(major, relabel(r, a, b)) == m1.value_at(major, r));
    }
    lemma_same_entries_same_matrix(m2, m0);
}

impl<T: Copy> CsMatrix<T> {
    /// A copy of the matrix.
    pub fn duplicate(&self) -> (r: Self)
        ensures
            r.spec_pattern().offsets() == self.spec_pattern().offsets(),
            r.spec_pattern().indices() == self.spec_pattern().indices(),
            r.spec_pattern().spec_minor_dim() == self.spec_pattern().spec_minor_dim(),
            r.spec_values() == self.spec_values(),
    {
        let mut values: Vec<T> = Vec::new();
        let mut k: usize = 0;
        while k < self.values.len()
            invariant
                0 <= k <= self.values@.len(),
                values@ == self.values@.take(k as int),
            decreases self.values@.len() - k,
        {
            values.push(self.values[k]);
            proof {
                assert(values@ =~= self.values@.take(k + 1));
            }
            k += 1;
        }
        proof {
            assert(self.values@.take(k as int) =~= self.values@);
        }
        CsMatrix { pattern: self.pattern.duplicate(), values }
    }
}

impl<T: Scalar> CsMatrix<T> {
    /// The identity matrix of size `n`: each lane holds its own index, with
    /// the scalar's one as its value.
    pub fn identity(n: usize) -> (r: Self)
        requires
            n < usize::MAX,
        ensures
            r.wf(),
            r.spec_pattern().spec_minor_dim() == n,
            r.spec_pattern().offsets() == Seq::new((n + 1) as nat, |i: int| i as usize),
            r.spec_pattern().indices() == Seq::new(n as nat, |i: int| i as usize),
            r.spec_values().len() == n,
            exists|u: T|
                is_one_of(u) && forall|k: int| 0 <= k < n ==> #[trigger] r.spec_values()[k] == u,
    {
        let one = T::one();
        let mut values: Vec<T> = Vec::new();
        let mut k: usize = 0;
        while k < n
            invariant
                0 <= k <= n,
                values@.len() == k,
                forall|x: int| 0 <= x < k ==> #[trigger] values@[x] == one,
            decreases n - k,
        {
            values.push(one);
            k += 1;
        }
        let r = Self { pattern: SparsityPattern::identity(n), values };
        proof {
            assert(is_one_of(one));
            assert(forall|k: int| 0 <= k < n ==> #[trigger] r.spec_values()[k] == one);
        }
        r
    }
}

/// A pattern builder with one value for each accepted position.
#[derive(Debug, Clone, PartialEq, Eq)]
pub struct CsBuilder<T> {
    sparsity_builder: SparsityPatternBuilder,
    values: Vec<T>,
}

impl<T> CsBuilder<T> {
    /// What the pattern builder inside stands for.
    pub closed spec fn model(&self) -> BuilderModel {
        self.sparsity_builder@
    }

    /// The values accepted so far, in the order of the entries.
    pub closed spec fn spec_values(&self) -> Seq<T> {
        self.values@
    }

    /// The invariant of a builder: the pattern builder is in order and every
    /// entry has its value.
    pub closed spec fn wf(&self) -> bool {
        &&& self.sparsity_builder.wf()
        &&& self.values@.len() == self.sparsity_builder@.entries.len()
    }

    /// What the invariant means for the model and the values.
    pub proof fn lemma_wf_model(&self)
        requires
            self.wf(),
        ensures
            self.spec_values().len() == self.model().entries.len(),
            0 <= self.model().current <= self.model().major_dim < usize::MAX,
            0 <= self.model().minor_dim <= usize::MAX,
            crate::builder::strictly_ordered(self.model().entries),
            forall|k: int|
                0 <= k < self.model().entries.len() ==> 0 <= (#[trigger] self.model().entries[k]).0
                    <= self.model().current && self.model().entries[k].0
                    < self.model().major_dim && 0 <= self.model().entries[k].1
                    < self.model().minor_dim,
    {
        self.sparsity_builder.lemma_wf_model();
    }

    /// Constructs a new CsBuilder of the given size.
    pub fn new(major_dim: usize, minor_dim: usize) -> (r: Self)
        requires
            major_dim < usize::MAX,
        ensures
            r.wf(),
            r.model() == BuilderModel::fresh(major_dim as int, minor_dim as int),
            r.spec_values() == Seq::<T>::empty(),
    {
        Self { sparsity_builder: SparsityPatternBuilder::new(major_dim, minor_dim), values: Vec::new() }
    }

    /// Given an existing CsMatrix, allows for modification by converting it into a builder.
    pub fn from_mat(mat: CsMatrix<T>) -> (r: Self)
        requires
            mat.wf(),
        ensures
            r.wf(),
            r.model() == (BuilderModel {
                major_dim: mat.spec_pattern().spec_major_dim(),
                minor_dim: mat.spec_pattern().spec_minor_dim() as int,
                current: mat.spec_pattern().spec_major_dim(),
                entries: mat.spec_pattern().spec_entries(),
            }),
            r.spec_values() == mat.spec_values(),
    {
        let CsMatrix { pattern, values } = mat;
        proof {
            crate::builder::lemma_entries_upto(
                pattern.offsets(),
                pattern.indices(),
                pattern.spec_major_dim(),
            );
        }
        CsBuilder { sparsity_builder: SparsityPatternBuilder::from(pattern), values }
    }

    /// Backtracks to a given major index
    pub fn revert_to_major(&mut self, maj: usize) -> (r: bool)
        requires
            old(self).wf(),
        ensures
            final(self).wf(),
            r == (maj < old(self).model().current),
            r ==> final(self).model() == old(self).model().revert(maj as int),
            r ==> final(self).spec_values() == old(self).spec_values().take(
                final(self).model().entries.len() as int,
            ),
            !r ==> final(self).model() == old(self).model(),
            !r ==> final(self).spec_values() == old(self).spec_values(),
    {
        if !self.sparsity_builder.revert_to_major(maj) {
            return false;
        }
        proof {
            crate::builder::lemma_keep_upto_len(old(self).sparsity_builder@.entries, maj as int);
        }
        self.values.truncate(self.sparsity_builder.num_entries());
        true
    }

    /// Offers `(maj, min)` with its value; the value is kept where the
    /// position is accepted.
    pub fn insert(&mut self, maj: usize, min: usize, val: T) -> (res: Result<(), BuilderInsertError>)
        requires
            old(self).wf(),
            maj < old(self).model().major_dim,
            min < old(self).model().minor_dim,
        ensures
            final(self).wf(),
            match old(self).model().insert(maj as int, min as int) {
                Ok(m) => res == Ok::<(), BuilderInsertError>(()) && final(self).model() == m
                    && final(self).spec_values() == old(self).spec_values().push(val),
                Err(e) => res == Err::<(), BuilderInsertError>(e) && final(self).model()
                    == old(self).model() && final(self).spec_values() == old(self).spec_values(),
            },
    {
        match self.sparsity_builder.insert(maj, min) {
            Ok(()) => {},
            Err(e) => {
                return Err(e);
            },
        }
        self.values.push(val);
        Ok(())
    }

    /// As `insert`, but an entry that repeats the one accepted last is
    /// merged into it: the stored value becomes `merge(stored, val)` and the
    /// result is `true`.
    pub fn insert_sum<F: Fn(T, T) -> T + Copy>(
        &mut self,
        maj: usize,
        min: usize,
        val: T,
        merge: F,
    ) -> (res: Result<bool, BuilderInsertError>) where T: Copy
        requires
            old(self).wf(),
            maj < old(self).model().major_dim,
            min < old(self).model().minor_dim,
            old(self).model().repeats_last(maj as int, min as int) ==> call_requires(
                merge,
                (old(self).spec_values().last(), val),
            ),
        ensures
            final(self).wf(),
            if old(self).model().repeats_last(maj as int, min as int) {
                &&& res == Ok::<bool, BuilderInsertError>(true)
                &&& final(self).model() == old(self).model()
                &&& final(self).spec_values().len() == old(self).spec_values().len()
                &&& final(self).spec_values().drop_last() == old(self).spec_values().drop_last()
                &&& call_ensures(
                    merge,
                    (old(self).spec_values().last(), val),
                    final(self).spec_values().last(),
                )
            } else {
                match old(self).model().insert(maj as int, min as int) {
                    Ok(m) => res == Ok::<bool, BuilderInsertError>(false) && final(self).model()
                        == m && final(self).spec_values() == old(self).spec_values().push(val),
                    Err(e) => res == Err::<bool, BuilderInsertError>(e) && final(self).model()
                        == old(self).model() && final(self).spec_values() == old(self).spec_values(),
                }
            },
    {
        let merged = match self.sparsity_builder.insert_sum(maj, min) {
            Ok(m) => m,
            Err(e) => {
                return Err(e);
            },
        };
        if merged {
            let last = self.values.len() - 1;
            let sum = merge(self.values[last], val);
            self.values[last] = sum;
            proof {
                assert(self.values@.drop_last() =~= old(self).values@.drop_last());
            }
            Ok(true)
        } else {
            self.values.push(val);
            Ok(false)
        }
    }

    /// Closes the builder: the matrix holds the accepted positions with
    /// their values.
    pub fn build(self) -> (r: CsMatrix<T>)
        requires
            self.wf(),
        ensures
            r.wf(),
            r.spec_pattern().spec_major_dim() == self.model().major_dim,
            r.spec_pattern().spec_minor_dim() == self.model().minor_dim,
            r.spec_pattern().spec_entries() == self.model().entries,
            r.spec_values() == self.spec_values(),
    {
        let CsBuilder { sparsity_builder, values } = self;
        let pattern = sparsity_builder.build();
        proof {
            crate::builder::lemma_entries_upto(
                pattern.offsets(),
                pattern.indices(),
                pattern.spec_major_dim(),
            );
        }
        CsMatrix { pattern, values }
    }
}

} // verus!
