use crate::builder::{
    lemma_ordered_inserts_kept, strictly_ordered, BuilderInsertError, BuilderModel, SparsityPattern,
};
use crate::cs::{CsBuilder, CsMatrix};
use crate::scalar::{is_one_of, Scalar};
use std::collections::BTreeMap;
use vstd::prelude::*;

verus! {

/// The positions of a sequence of triplets as `(column, row)` pairs. A
/// triplet gives its position as `[row, column]`.
pub open spec fn triplet_keys<T>(t: Seq<([usize; 2], T)>) -> Seq<(int, int)> {
    Seq::new(t.len(), |i: int| (t[i].0@[1] as int, t[i].0@[0] as int))
}

/// The values of a sequence of triplets.
pub open spec fn triplet_values<T>(t: Seq<([usize; 2], T)>) -> Seq<T> {
    Seq::new(t.len(), |i: int| t[i].1)
}

/// The order of positions `[row, column]` in storage: by the column, then
/// by the row.
pub open spec fn key_le(a: [usize; 2], b: [usize; 2]) -> bool {
    a@[1] < b@[1] || (a@[1] == b@[1] && a@[0] <= b@[0])
}

/// The order of arrays: by the first index, then by the second.
pub open spec fn array_le(a: [usize; 2], b: [usize; 2]) -> bool {
    a@[0] < b@[0] || (a@[0] == b@[0] && a@[1] <= b@[1])
}

/// The place of a triplet in storage: its column, then its row.
fn storage_key<T>(t: &([usize; 2], T)) -> (r: (usize, usize))
    ensures
        r.0 == t.0@[1],
        r.1 == t.0@[0],
{
    (t.0[1], t.0[0])
}

/// Whether no two of the triplets have the same position.
pub open spec fn distinct_positions<T>(t: Seq<([usize; 2], T)>) -> bool {
    forall|i: int, j: int| 0 <= i < j < t.len() ==> (#[trigger] t[i]).0 != (#[trigger] t[j]).0
}

/// Where two of the triplets have the same position, two of the same
/// triplets in another order do.
pub(crate) proof fn lemma_repeated_position_stays<T>(a: Seq<([usize; 2], T)>, b: Seq<([usize; 2], T)>)
    requires
        a.to_multiset() == b.to_multiset(),
        !distinct_positions(a),
    ensures
        !distinct_positions(b),
{
    broadcast use vstd::multiset::group_multiset_axioms;

    let w = choose|i: int, j: int|
        0 <= i < j < a.len() && (#[trigger] a[i]).0 == (#[trigger] a[j]).0;
    let i = w.0;
    let j = w.1;
    vstd::seq_lib::to_multiset_contains(a, a[i]);
    vstd::seq_lib::to_multiset_contains(b, a[i]);
    assert(a.contains(a[i]));
    let p = choose|p: int| 0 <= p < b.len() && b[p] == a[i];
    let q = if a[i] == a[j] {
        let e = a[i];
        let rest = a.remove(i);
        assert(rest[j - 1] == e);
        assert(rest.contains(e));
        vstd::seq_lib::to_multiset_contains(rest, e);
        vstd::seq_lib::to_multiset_remove(a, i);
        assert(a.to_multiset().count(e) >= 2);
        let others = b.remove(p);
        vstd::seq_lib::to_multiset_remove(b, p);
        vstd::seq_lib::to_multiset_contains(others, e);
        assert(others.contains(e));
        let x = choose|x: int| 0 <= x < others.len() && others[x] == e;
        if x < p {
            x
        } else {
            x + 1
        }
    } else {
        vstd::seq_lib::to_multiset_contains(a, a[j]);
        vstd::seq_lib::to_multiset_contains(b, a[j]);
        assert(a.contains(a[j]));
        choose|q: int| 0 <= q < b.len() && b[q] == a[j]
    };
    assert(b[q].0 == b[p].0 && p != q);
    if p < q {
        assert(b[p].0 == b[q].0);
    } else {
        assert(b[q].0 == b[p].0);
    }
}

/// Triplets sorted by position ascend strictly exactly where no two have the
/// same position.
pub(crate) proof fn lemma_sorted_positions_distinct<T>(t: Seq<([usize; 2], T)>)
    requires
        forall|i: int, j: int|
            0 <= i < j < t.len() ==> key_le((#[trigger] t[i]).0, (#[trigger] t[j]).0),
    ensures
        strictly_ordered(triplet_keys(t)) <==> distinct_positions(t),
{
    broadcast use vstd::array::group_array_axioms;

    let keys = triplet_keys(t);
    if distinct_positions(t) {
        assert forall|i: int, j: int| 0 <= i < j < keys.len() implies (#[trigger] keys[i]).0 < (
        #[trigger] keys[j]).0 || (keys[i].0 == keys[j].0 && keys[i].1 < keys[j].1) by {
            assert(key_le(t[i].0, t[j].0) && t[i].0 != t[j].0);
            if t[i].0@[0] == t[j].0@[0] && t[i].0@[1] == t[j].0@[1] {
                assert(t[i].0@.len() == 2 && t[j].0@.len() == 2);
                assert(t[i].0@ =~= t[j].0@);
                assert(t[i].0 == t[j].0);
            }
        }
    }
    if strictly_ordered(keys) {
        assert forall|i: int, j: int| 0 <= i < j < t.len() implies (#[trigger] t[i]).0 != (
        #[trigger] t[j]).0 by {
            assert(keys[i].0 < keys[j].0 || (keys[i].0 == keys[j].0 && keys[i].1 < keys[j].1));
        }
    }
}

/// Whether the map holds `v` at the key `[row, column]` of the position
/// `pos`, which is `(column, row)`.
pub open spec fn entry_of_map<T>(map: Map<[usize; 2], T>, pos: (int, int), v: T) -> bool {
    exists|k: [usize; 2]|
        #![trigger map.contains_key(k)]
        map.contains_key(k) && pos == (k@[1] as int, k@[0] as int) && map[k] == v
}

/// Sorts the triplets with `sort_unstable_by_key` of std's slices, by the
/// key that `storage_key` gives: the pair of the column and the row.
/// Believed of it: the slice afterwards holds the same triplets, each as
/// often as before, and their keys never descend in the order of pairs,
/// which compares the first item and then the second.
#[verifier::external_body]
fn sort_by_position<T>(t: &mut [([usize; 2], T)])
    ensures
        final(t)@.to_multiset() == old(t)@.to_multiset(),
        forall|i: int, j: int|
            0 <= i < j < final(t)@.len() ==> key_le(
                (#[trigger] final(t)@[i]).0,
                (#[trigger] final(t)@[j]).0,
            ),
{
    t.sort_unstable_by_key(|a| storage_key(a));
}

/// Hands out the entries of the map in the order of `iter` of std's
/// `BTreeMap`. Believed of it: the result holds each key of the map once,
/// with its value, and the keys ascend strictly in the order of arrays,
/// which compares the first index and then the second.
#[verifier::external_body]
fn entries_in_order<T: Copy>(map: &BTreeMap<[usize; 2], T>) -> (r: Vec<([usize; 2], T)>)
    ensures
        forall|i: int|
            0 <= i < r@.len() ==> map@.contains_key((#[trigger] r@[i]).0) && map@[r@[i].0]
                == r@[i].1,
        forall|k: [usize; 2]|
            map@.contains_key(k) ==> exists|i: int| 0 <= i < r@.len() && (#[trigger] r@[i]).0 == k,
        forall|i: int, j: int|
            0 <= i < j < r@.len() ==> array_le((#[trigger] r@[i]).0, (#[trigger] r@[j]).0)
                && r@[i].0 != r@[j].0,
{
    map.iter().map(|(k, v)| (*k, *v)).collect()
}

/// Once an offer is refused, the outcome of a longer sequence of offers is
/// that refusal.
pub(crate) proof fn lemma_insert_all_refused(m: BuilderModel, s: Seq<(int, int)>, k: int)
    requires
        0 <= k <= s.len(),
        m.insert_all(s.take(k)) is Err,
    ensures
        m.insert_all(s) == m.insert_all(s.take(k)),
    decreases s.len() - k,
{
    if k < s.len() {
        assert(s.take(k + 1).drop_last() =~= s.take(k));
        lemma_insert_all_refused(m, s, k + 1);
    } else {
        assert(s.take(k) =~= s);
    }
}

/// Offers that are all accepted are appended in their order, and leave the
/// dimensions as they were.
pub(crate) proof fn lemma_insert_all_accepted(m: BuilderModel, s: Seq<(int, int)>)
    requires
        m.insert_all(s) is Ok,
    ensures
        m.insert_all(s)->Ok_0.entries == m.entries + s,
        m.insert_all(s)->Ok_0.major_dim == m.major_dim,
        m.insert_all(s)->Ok_0.minor_dim == m.minor_dim,
    decreases s.len(),
{
    if s.len() == 0 {
        assert(m.entries + s =~= m.entries);
    } else {
        lemma_insert_all_accepted(m, s.drop_last());
        let mid = m.insert_all(s.drop_last())->Ok_0;
        assert(mid.entries.push(s.last()) =~= m.entries + s);
    }
}

/// Whether `a` stores its diagonal and nothing else.
pub open spec fn is_diagonal<T>(a: Csc<T>) -> bool {
    forall|r: int, c: int| #[trigger] a.has(r, c) <==> (0 <= c < a.spec_ncols() && r == c)
}

/// A compressed sparse column matrix.
#[derive(Debug, Clone, PartialEq, Eq)]
pub struct Csc<T>(CsMatrix<T>);

impl<T> Csc<T> {
    /// The compressed matrix inside: its majors are the columns and its
    /// minors the rows.
    pub closed spec fn matrix(&self) -> CsMatrix<T> {
        self.0
    }

    /// The invariant of a matrix.
    pub open spec fn wf(&self) -> bool {
        self.matrix().wf()
    }

    /// The number of columns.
    pub open spec fn spec_ncols(&self) -> int {
        self.matrix().spec_pattern().spec_major_dim()
    }

    /// The number of rows.
    pub open spec fn spec_nrows(&self) -> int {
        self.matrix().spec_pattern().spec_minor_dim() as int
    }

    /// Whether a value is stored at `(row, col)`.
    pub open spec fn has(&self, row: int, col: int) -> bool {
        self.matrix().has(col, row)
    }

    /// The value stored at `(row, col)`.
    pub open spec fn value_at(&self, row: int, col: int) -> T {
        self.matrix().value_at(col, row)
    }

    /// The rows stored in column `i`, ascending.
    pub open spec fn spec_col_rows(&self, i: int) -> Seq<usize> {
        self.matrix().spec_pattern().spec_lane(i)
    }

    /// The values stored in column `i`, in the order of its rows.
    pub open spec fn spec_col_values(&self, i: int) -> Seq<T> {
        self.matrix().spec_lane_values(i)
    }

    /// The stored positions as `(column, row)` pairs in storage order.
    pub open spec fn spec_entries(&self) -> Seq<(int, int)> {
        self.matrix().spec_pattern().spec_entries()
    }

    /// The stored values in storage order.
    pub open spec fn spec_values(&self) -> Seq<T> {
        self.matrix().spec_values()
    }

    /// Whether `other` stores the same values at the same places of storage.
    pub open spec fn same_as(&self, other: Self) -> bool {
        &&& self.matrix().spec_pattern().offsets() == other.matrix().spec_pattern().offsets()
        &&& self.matrix().spec_pattern().indices() == other.matrix().spec_pattern().indices()
        &&& self.matrix().spec_pattern().spec_minor_dim()
            == other.matrix().spec_pattern().spec_minor_dim()
        &&& self.spec_values() == other.spec_values()
    }

    /// Entry `k` in storage order is stored at its position, with value `k`
    /// of the stored values.
    pub proof fn lemma_entry_lookup(&self, k: int)
        requires
            self.wf(),
            0 <= k < self.spec_entries().len(),
        ensures
            self.spec_entries().len() == self.spec_values().len(),
            0 <= self.spec_entries()[k].0 < self.spec_ncols(),
            0 <= self.spec_entries()[k].1 < self.spec_nrows(),
            self.has(self.spec_entries()[k].1, self.spec_entries()[k].0),
            self.value_at(self.spec_entries()[k].1, self.spec_entries()[k].0)
                == self.spec_values()[k],
    {
        let p = self.matrix().spec_pattern();
        crate::builder::lemma_entries_upto(p.offsets(), p.indices(), p.spec_major_dim());
        let c = self.spec_entries()[k].0;
        self.matrix().lemma_position(c, k);
    }

    /// A stored position is one of the entries in storage order.
    pub proof fn lemma_has_entry(&self, r: int, c: int) -> (k: int)
        requires
            self.wf(),
            self.has(r, c),
        ensures
            0 <= k < self.spec_entries().len(),
            self.spec_entries()[k] == (c, r),
    {
        let p = self.matrix().spec_pattern();
        let offs = p.offsets();
        crate::builder::lemma_entries_upto(offs, p.indices(), p.spec_major_dim());
        assert(offs[c] <= offs[c + 1]);
        assert(offs[c + 1] <= offs[offs.len() - 1]);
        let k = choose|k: int| offs[c] <= k < offs[c + 1] && #[trigger] p.indices()[k] == r;
        assert(self.spec_entries()[k].0 == c);
        k
    }

    /// The number of columns.
    pub fn ncols(&self) -> (r: usize)
        requires
            self.wf(),
        ensures
            r == self.spec_ncols(),
            r < usize::MAX,
    {
        self.0.pattern().major_dim()
    }

    /// The number of rows.
    pub fn nrows(&self) -> (r: usize)
        ensures
            r == self.spec_nrows(),
    {
        let p = self.0.pattern();
        proof {
            p.lemma_views();
        }
        p.minor_dim
    }

    /// The entries of column `i` as pairs of row and value, in ascending
    /// order of the row.
    pub fn col_iter(&self, i: usize) -> (r: Vec<(usize, &T)>)
        requires
            self.wf(),
            i < self.spec_ncols(),
        ensures
            r@.len() == self.spec_col_rows(i as int).len(),
            forall|k: int|
                0 <= k < r@.len() ==> (#[trigger] r@[k]).0 == self.spec_col_rows(i as int)[k]
                    && *r@[k].1 == self.spec_col_values(i as int)[k],
    {
        self.0.lane_iter(i)
    }

    /// The pattern of the matrix: its lanes are the columns.
    pub fn pattern(&self) -> (r: &SparsityPattern)
        ensures
            *r == self.matrix().spec_pattern(),
    {
        self.0.pattern()
    }

    /// The values and the rows of column `i`.
    pub fn col(&self, i: usize) -> (r: (&[T], &[usize]))
        requires
            self.wf(),
            i < self.spec_ncols(),
        ensures
            r.0@ == self.spec_col_values(i as int),
            r.1@ == self.spec_col_rows(i as int),
    {
        self.0.lane(i)
    }

    /// The stored values, column after column.
    pub fn values(&self) -> (r: &[T])
        ensures
            r@ == self.matrix().spec_values(),
    {
        self.0.values()
    }

    /// The stored values, to be overwritten in place; the pattern stays.
    pub fn values_mut(&mut self) -> (r: &mut [T])
        ensures
            r@ == old(self).matrix().spec_values(),
            final(self).matrix().spec_values() == final(r)@,
            final(self).matrix().spec_pattern() == old(self).matrix().spec_pattern(),
    {
        self.0.values_mut()
    }

    /// Exchanges the rows `a` and `b`.
    pub fn swap_rows(&mut self, a: usize, b: usize)
        requires
            old(self).wf(),
            a < old(self).spec_nrows(),
            b < old(self).spec_nrows(),
        ensures
            final(self).wf(),
            final(self).matrix().swapped_from(old(self).matrix(), a as int, b as int),
    {
        self.0.swap_minor(a, b)
    }

    /// Constructs a CSC matrix from a set of triples, each a position
    /// `[row, column]` with its value. Sorts the triples by column, then by
    /// row, and offers them to a builder in that order: it fails, with the
    /// builder's error, if and only if two triples have the same position.
    pub fn from_triplets(rows: usize, cols: usize, t: &mut [([usize; 2], T)]) -> (res: Result<
        Self,
        BuilderInsertError,
    >) where T: Copy
        requires
            cols < usize::MAX,
            forall|i: int|
                0 <= i < old(t)@.len() ==> (#[trigger] old(t)@[i]).0@[0] < rows && old(t)@[i].0@[1]
                    < cols,
        ensures
            final(t)@.to_multiset() == old(t)@.to_multiset(),
            forall|i: int, j: int|
                0 <= i < j < final(t)@.len() ==> key_le(
                    (#[trigger] final(t)@[i]).0,
                    (#[trigger] final(t)@[j]).0,
                ),
            res is Ok <==> distinct_positions(old(t)@),
            res is Ok <==> strictly_ordered(triplet_keys(final(t)@)),
            match BuilderModel::fresh(cols as int, rows as int).insert_all(
                triplet_keys(final(t)@),
            ) {
                Ok(_) => res is Ok && res->Ok_0.wf() && res->Ok_0.spec_nrows() == rows
                    && res->Ok_0.spec_ncols() == cols
                    && res->Ok_0.matrix().spec_pattern().spec_entries() == triplet_keys(
                    final(t)@,
                ) && res->Ok_0.matrix().spec_values() == triplet_values(final(t)@),
                Err(e) => res is Err && res->Err_0 == e,
            },
    {
        let mut builder = CscBuilder::new(rows, cols);
        sort_by_position(t);
        let ghost keys = triplet_keys(t@);
        let ghost vals = triplet_values(t@);
        let ghost fresh = BuilderModel::fresh(cols as int, rows as int);
        proof {
            lemma_sorted_positions_distinct(t@);
            if !distinct_positions(t@) {
                lemma_repeated_position_stays(t@, old(t)@);
            }
            if !distinct_positions(old(t)@) {
                lemma_repeated_position_stays(old(t)@, t@);
            }
            assert forall|i: int| 0 <= i < t@.len() implies (#[trigger] t@[i]).0@[0] < rows
                && t@[i].0@[1] < cols by {
                vstd::seq_lib::to_multiset_contains(t@, t@[i]);
                vstd::seq_lib::to_multiset_contains(old(t)@, t@[i]);
                assert(t@.contains(t@[i]));
                let w = choose|w: int| 0 <= w < old(t)@.len() && old(t)@[w] == t@[i];
                assert(old(t)@[w].0@[0] < rows);
            }
            assert(keys.take(0) =~= Seq::<(int, int)>::empty());
            assert(vals.take(0) =~= Seq::<T>::empty());
        }
        let count = t.len();
        let mut i: usize = 0;
        while i < count
            invariant
                0 <= i <= count,
                count == t@.len(),
                cols < usize::MAX,
                keys == triplet_keys(t@),
                vals == triplet_values(t@),
                fresh == BuilderModel::fresh(cols as int, rows as int),
                t@.to_multiset() == old(t)@.to_multiset(),
                strictly_ordered(keys) <==> distinct_positions(old(t)@),
                forall|i: int, j: int|
                    0 <= i < j < t@.len() ==> key_le((#[trigger] t@[i]).0, (#[trigger] t@[j]).0),
                forall|i: int|
                    0 <= i < t@.len() ==> (#[trigger] t@[i]).0@[0] < rows && t@[i].0@[1] < cols,
                builder.wf(),
                builder.model().major_dim == cols,
                builder.model().minor_dim == rows,
                fresh.insert_all(keys.take(i as int)) == Ok::<BuilderModel, BuilderInsertError>(
                    builder.model(),
                ),
                builder.spec_values() == vals.take(i as int),
            decreases count - i,
        {
            let row = t[i].0[0];
            let col = t[i].0[1];
            let v = t[i].1;
            let ghost before = builder.model();
            proof {
                assert(keys.take(i + 1).drop_last() =~= keys.take(i as int));
                assert(keys.take(i + 1).last() == (col as int, row as int));
                assert(fresh.insert_all(keys.take(i + 1)) == before.insert(col as int, row as int));
            }
            match builder.insert(row, col, v) {
                Ok(()) => {},
                Err(e) => {
                    proof {
                        lemma_insert_all_refused(fresh, keys, i + 1);
                        if strictly_ordered(keys) {
                            lemma_ordered_inserts_kept(cols as int, rows as int, keys);
                        }
                    }
                    return Err(e);
                },
            }
            proof {
                assert(vals.take(i + 1) =~= vals.take(i as int).push(v));
            }
            i += 1;
        }
        proof {
            assert(keys.take(count as int) =~= keys);
            assert(vals.take(count as int) =~= vals);
            builder.lemma_wf_model();
            lemma_insert_all_accepted(fresh, keys);
            assert(fresh.entries + keys =~= keys);
        }
        Ok(builder.build())
    }

    /// Constructs a CSC matrix from a map of positions `[row, column]` to
    /// values: the matrix stores exactly the map's entries. The entries are
    /// taken from the map, sorted by column and row, and offered to a
    /// builder in that order.
    pub fn from_btreemap(rows: usize, cols: usize, map: &BTreeMap<[usize; 2], T>) -> (res: Result<
        Self,
        BuilderInsertError,
    >) where T: Copy
        requires
            cols < usize::MAX,
            forall|k: [usize; 2]| map@.contains_key(k) ==> k@[0] < rows && k@[1] < cols,
        ensures
            res is Ok,
            res->Ok_0.wf(),
            res->Ok_0.spec_nrows() == rows,
            res->Ok_0.spec_ncols() == cols,
            res->Ok_0.spec_values().len() == res->Ok_0.spec_entries().len(),
            strictly_ordered(res->Ok_0.spec_entries()),
            forall|i: int|
                0 <= i < res->Ok_0.spec_values().len() ==> #[trigger] entry_of_map(
                    map@,
                    res->Ok_0.spec_entries()[i],
                    res->Ok_0.spec_values()[i],
                ),
            forall|k: [usize; 2]|
                map@.contains_key(k) ==> exists|i: int|
                    0 <= i < res->Ok_0.spec_values().len() && #[trigger] res->Ok_0.spec_entries()[i]
                        == (k@[1] as int, k@[0] as int),
    {
        let mut t = entries_in_order(map);
        let ghost t0 = t@;
        proof {
            assert(distinct_positions(t0));
        }
        let res = Self::from_triplets(rows, cols, t.as_mut_slice());
        proof {
            let keys = triplet_keys(t@);
            let vals = triplet_values(t@);
            lemma_ordered_inserts_kept(cols as int, rows as int, keys);
            let m = res->Ok_0;
            assert forall|i: int| 0 <= i < m.spec_values().len() implies #[trigger] entry_of_map(
                map@,
                m.spec_entries()[i],
                m.spec_values()[i],
            ) by {
                vstd::seq_lib::to_multiset_contains(t@, t@[i]);
                vstd::seq_lib::to_multiset_contains(t0, t@[i]);
                assert(t@.contains(t@[i]));
                let w = choose|w: int| 0 <= w < t0.len() && t0[w] == t@[i];
                assert(map@.contains_key(t0[w].0));
                assert(keys[i] == (t@[i].0@[1] as int, t@[i].0@[0] as int));
                assert(vals[i] == t@[i].1);
            }
            assert forall|k: [usize; 2]| map@.contains_key(k) implies exists|i: int|
                0 <= i < m.spec_values().len() && #[trigger] m.spec_entries()[i] == (
                    k@[1] as int,
                    k@[0] as int,
                ) by {
                let w = choose|w: int| 0 <= w < t0.len() && (#[trigger] t0[w]).0 == k;
                vstd::seq_lib::to_multiset_contains(t0, t0[w]);
                vstd::seq_lib::to_multiset_contains(t@, t0[w]);
                assert(t0.contains(t0[w]));
                let i = choose|i: int| 0 <= i < t@.len() && t@[i] == t0[w];
                assert(keys[i] == (k@[1] as int, k@[0] as int));
                assert(m.spec_entries() == keys);
                assert(m.spec_values() == vals);
                assert(0 <= i < m.spec_values().len() && m.spec_entries()[i] == (
                    k@[1] as int,
                    k@[0] as int,
                ));
            }
        }
        res
    }
}

impl<T: Copy> Csc<T> {
    /// A copy of the matrix.
    pub fn duplicate(&self) -> (r: Self)
        ensures
            r.same_as(*self),
    {
        Csc(self.0.duplicate())
    }
}

impl<T: Scalar> Csc<T> {
    /// The identity matrix of size `n`: it stores its diagonal and nothing
    /// else, and each value is the scalar's one.
    pub fn identity(n: usize) -> (r: Self)
        requires
            n < usize::MAX,
        ensures
            r.wf(),
            r.spec_nrows() == n,
            r.spec_ncols() == n,
            r.matrix().spec_pattern().offsets() == Seq::new((n + 1) as nat, |i: int| i as usize),
            r.matrix().spec_pattern().indices() == Seq::new(n as nat, |i: int| i as usize),
            r.spec_values().len() == n,
            is_diagonal(r),
            exists|u: T|
                is_one_of(u) && (forall|k: int| 0 <= k < n ==> #[trigger] r.spec_values()[k] == u)
                    && (forall|c: int| 0 <= c < n ==> #[trigger] r.value_at(c, c) == u),
    {
        let r = Csc(CsMatrix::identity(n));
        proof {
            let p = r.matrix().spec_pattern();
            let offs = p.offsets();
            let idx = p.indices();
            assert forall|row: int, c: int| #[trigger] r.has(row, c) <==> (0 <= c < n && row
                == c) by {
                if r.has(row, c) {
                    let k = choose|k: int| offs[c] <= k < offs[c + 1] && #[trigger] idx[k] == row;
                    assert(k == c);
                }
                if 0 <= c < n && row == c {
                    assert(offs[c] <= c < offs[c + 1] && idx[c] == row);
                }
            }
            let u = choose|u: T|
                is_one_of(u) && forall|k: int| 0 <= k < n ==> #[trigger] r.spec_values()[k] == u;
            assert forall|c: int| 0 <= c < n implies #[trigger] r.value_at(c, c) == u by {
                assert(offs[c] <= c < offs[c + 1]);
                r.matrix().lemma_position(c, c);
            }
        }
        r
    }
}

/// An incremental builder for a Csc matrix.
#[derive(Debug, Clone, PartialEq, Eq)]
pub struct CscBuilder<T>(CsBuilder<T>);

impl<T> CscBuilder<T> {
    /// The builder inside: its majors are the columns and its minors the
    /// rows.
    pub closed spec fn inner(&self) -> CsBuilder<T> {
        self.0
    }

    /// The invariant of a builder.
    pub open spec fn wf(&self) -> bool {
        self.inner().wf()
    }

    /// What the builder stands for: its majors are the columns and its
    /// minors the rows.
    pub open spec fn model(&self) -> BuilderModel {
        self.inner().model()
    }

    /// The values accepted so far, in the order of the entries.
    pub open spec fn spec_values(&self) -> Seq<T> {
        self.inner().spec_values()
    }

    /// What the invariant means for the model and the values.
    pub proof fn lemma_wf_model(&self)
        requires
            self.wf(),
        ensures
            self.spec_values().len() == self.model().entries.len(),
            0 <= self.model().current <= self.model().major_dim < usize::MAX,
            0 <= self.model().minor_dim <= usize::MAX,
            strictly_ordered(self.model().entries),
            forall|k: int|
                0 <= k < self.model().entries.len() ==> 0 <= (
                #[trigger] self.model().entries[k]).0 <= self.model().current
                    && self.model().entries[k].0 < self.model().major_dim && 0
                    <= self.model().entries[k].1 < self.model().minor_dim,
    {
        self.inner().lemma_wf_model();
    }

    /// Constructs a new instance of a Csc Builder.
    pub fn new(rows: usize, cols: usize) -> (r: Self)
        requires
            cols < usize::MAX,
        ensures
            r.wf(),
            r.model() == BuilderModel::fresh(cols as int, rows as int),
            r.spec_values() == Seq::<T>::empty(),
    {
        Self(CsBuilder::new(cols, rows))
    }

    /// Convert back from a matrix to a CscBuilder.
    #[inline]
    pub fn from_mat(mat: Csc<T>) -> (r: Self)
        requires
            mat.wf(),
        ensures
            r.wf(),
            r.model() == (BuilderModel {
                major_dim: mat.spec_ncols(),
                minor_dim: mat.spec_nrows(),
                current: mat.spec_ncols(),
                entries: mat.matrix().spec_pattern().spec_entries(),
            }),
            r.spec_values() == mat.matrix().spec_values(),
    {
        Self(CsBuilder::from_mat(mat.0))
    }

    /// Backtracks back to column `col`, deleting all entries ahead of it.
    pub fn revert_to_col(&mut self, col: usize) -> (r: bool)
        requires
            old(self).wf(),
        ensures
            final(self).wf(),
            r == (col < old(self).model().current),
            r ==> final(self).model() == old(self).model().revert(col as int),
            r ==> final(self).spec_values() == old(self).spec_values().take(
                final(self).model().entries.len() as int,
            ),
            !r ==> final(self).model() == old(self).model(),
            !r ==> final(self).spec_values() == old(self).spec_values(),
    {
        self.0.revert_to_major(col)
    }

    /// Inserts a value into the builder. Must be called in ascending col, row order.
    pub fn insert(&mut self, row: usize, col: usize, val: T) -> (res: Result<
        (),
        BuilderInsertError,
    >)
        requires
            old(self).wf(),
            col < old(self).model().major_dim,
            row < old(self).model().minor_dim,
        ensures
            final(self).wf(),
            match old(self).model().insert(col as int, row as int) {
                Ok(m) => res == Ok::<(), BuilderInsertError>(()) && final(self).model()
                    == m && final(self).spec_values() == old(self).spec_values().push(val),
                Err(e) => res == Err::<(), BuilderInsertError>(e) && final(self).model()
                    == old(self).model() && final(self).spec_values() == old(self).spec_values(),
            },
    {
        self.0.insert(col, row, val)
    }

    /// Converts this builder into a valid Csc.
    pub fn build(self) -> (r: Csc<T>)
        requires
            self.wf(),
        ensures
            r.wf(),
            r.spec_ncols() == self.model().major_dim,
            r.spec_nrows() == self.model().minor_dim,
            r.matrix().spec_pattern().spec_entries() == self.model().entries,
            r.matrix().spec_values() == self.spec_values(),
    {
        Csc(self.0.build())
    }
}

} // verus!
