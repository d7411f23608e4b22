use vstd::prelude::*;

verus! {

/// An error when adding into the SparsityPatternBuilder
#[derive(Debug, Copy, Clone, PartialEq, Eq, Structural)]
pub enum BuilderInsertError {
    /// The major of the rejected entry lies before the builder's current
    /// major, which is carried.
    MajorTooLow(usize),
    /// Provided Minor, Current Minor
    MinorTooLow(usize, usize),
}

/// The minor indices of lane `i` of a compressed layout.
pub open spec fn lane_of(offsets: Seq<usize>, indices: Seq<usize>, i: int) -> Seq<usize> {
    indices.subrange(offsets[i] as int, offsets[i + 1] as int)
}

/// Whether lane `i` of a compressed layout ascends strictly.
pub open spec fn lane_sorted(offsets: Seq<usize>, indices: Seq<usize>, i: int) -> bool {
    forall|k: int, l: int|
        #![trigger indices[k], indices[l]]
        offsets[i] <= k < l < offsets[i + 1] ==> indices[k] < indices[l]
}

/// The invariant of a compressed layout: the offsets start at zero, never
/// decrease and end at the number of stored indices; each lane is strictly
/// ascending; every index is below `minor_dim`.
pub open spec fn layout_ok(offsets: Seq<usize>, indices: Seq<usize>, minor_dim: usize) -> bool {
    &&& offsets.len() >= 1
    &&& offsets[0] == 0
    &&& offsets.last() == indices.len()
    &&& forall|i: int, j: int|
        #![trigger offsets[i], offsets[j]]
        0 <= i <= j < offsets.len() ==> offsets[i] <= offsets[j]
    &&& forall|k: int| 0 <= k < indices.len() ==> #[trigger] indices[k] < minor_dim
    &&& forall|i: int| 0 <= i < offsets.len() - 1 ==> #[trigger] lane_sorted(offsets, indices, i)
}

/// The `(major, minor)` pairs of lanes `0..m` in storage order.
pub open spec fn entries_upto(offsets: Seq<usize>, indices: Seq<usize>, m: int) -> Seq<(int, int)>
    decreases m,
{
    if m <= 0 {
        Seq::empty()
    } else {
        entries_upto(offsets, indices, m - 1) + lane_of(offsets, indices, m - 1).map_values(
            |minor: usize| (m - 1, minor as int),
        )
    }
}

/// Entry `k` of the flattened lanes carries index `k` of the layout, tagged
/// with the lane that position `k` lies in.
pub proof fn lemma_entries_upto(offsets: Seq<usize>, indices: Seq<usize>, m: int)
    requires
        0 <= m < offsets.len(),
        offsets[0] == 0,
        offsets[m] <= indices.len(),
        forall|i: int, j: int|
            #![trigger offsets[i], offsets[j]]
            0 <= i <= j < offsets.len() ==> offsets[i] <= offsets[j],
    ensures
        entries_upto(offsets, indices, m).len() == offsets[m],
        forall|k: int|
            0 <= k < offsets[m] ==> (#[trigger] entries_upto(offsets, indices, m)[k]).1
                == indices[k] && 0 <= entries_upto(offsets, indices, m)[k].0 < m
                && offsets[entries_upto(offsets, indices, m)[k].0] <= k < offsets[entries_upto(
                offsets,
                indices,
                m,
            )[k].0 + 1],
        forall|i: int, k: int|
            #![trigger offsets[i], entries_upto(offsets, indices, m)[k]]
            0 <= i < m && offsets[i] <= k < offsets[i + 1] ==> entries_upto(
                offsets,
                indices,
                m,
            )[k].0 == i,
    decreases m,
{
    if m > 0 {
        lemma_entries_upto(offsets, indices, m - 1);
        assert(offsets[m - 1] <= offsets[m]);
        let head = entries_upto(offsets, indices, m - 1);
        let lane = lane_of(offsets, indices, m - 1);
        let tail = lane.map_values(|minor: usize| (m - 1, minor as int));
        let all = entries_upto(offsets, indices, m);
        assert(all == head + tail);
        assert(head.len() == offsets[m - 1]);
        assert(tail.len() == offsets[m] - offsets[m - 1]);
        assert forall|k: int| 0 <= k < offsets[m] implies (#[trigger] all[k]).1 == indices[k] && 0
            <= all[k].0 < m && (k >= offsets[m - 1] ==> all[k].0 == m - 1) && (k < offsets[m - 1]
            ==> all[k] == head[k]) && offsets[all[k].0] <= k < offsets[all[k].0 + 1] by {
            if k < head.len() {
                assert(all[k] == head[k]);
            } else {
                assert(all[k] == tail[k - head.len()]);
                assert(lane[k - head.len()] == indices[k]);
            }
        }
        assert forall|i: int, k: int|
            #![trigger offsets[i], all[k]]
            0 <= i < m && offsets[i] <= k < offsets[i + 1] implies all[k].0 == i by {
            assert(offsets[i + 1] <= offsets[m]);
            if i < m - 1 {
                assert(offsets[i + 1] <= offsets[m - 1]);
                assert(all[k] == head[k]);
                assert(head[k].0 == i);
            } else {
                assert(all[k].0 == m - 1);
            }
        }
    }
}

/// How the sparsity for a matrix is laid out
#[derive(Clone, PartialEq, Eq, Debug)]
pub struct SparsityPattern {
    pub(crate) major_offsets: Vec<usize>,
    pub(crate) minor_indices: Vec<usize>,
    pub minor_dim: usize,
}

impl SparsityPattern {
    /// Where each lane starts among the stored indices, and after the last
    /// lane, where the stored indices end.
    pub closed spec fn offsets(&self) -> Seq<usize> {
        self.major_offsets@
    }

    /// The stored minor indices, lane after lane.
    pub closed spec fn indices(&self) -> Seq<usize> {
        self.minor_indices@
    }

    /// The number of minor indices a lane ranges over: the field
    /// `minor_dim`.
    pub closed spec fn spec_minor_dim(&self) -> usize {
        self.minor_dim
    }

    /// The three views are the three fields.
    pub(crate) proof fn lemma_views(&self)
        ensures
            self.offsets() == self.major_offsets@,
            self.indices() == self.minor_indices@,
            self.spec_minor_dim() == self.minor_dim,
    {
    }

    /// The invariant of a pattern.
    pub open spec fn wf(&self) -> bool {
        layout_ok(self.offsets(), self.indices(), self.spec_minor_dim())
    }

    /// The number of lanes.
    pub open spec fn spec_major_dim(&self) -> int {
        self.offsets().len() - 1
    }

    /// The minor indices of lane `i`.
    pub open spec fn spec_lane(&self, i: int) -> Seq<usize> {
        lane_of(self.offsets(), self.indices(), i)
    }

    /// Whether the pattern stores the position `(major, minor)`.
    pub open spec fn has_entry(&self, major: int, minor: int) -> bool {
        &&& 0 <= major < self.spec_major_dim()
        &&& exists|k: int|
            self.offsets()[major] <= k < self.offsets()[major + 1] && #[trigger] self.indices()[k]
                == minor
    }

    /// The stored positions as `(major, minor)` pairs in storage order.
    pub open spec fn spec_entries(&self) -> Seq<(int, int)> {
        entries_upto(self.offsets(), self.indices(), self.spec_major_dim())
    }

    /// The number of lanes.
    pub fn major_dim(&self) -> (r: usize)
        requires
            self.wf(),
        ensures
            r == self.spec_major_dim(),
            r < usize::MAX,
    {
        self.major_offsets.len() - 1
    }

    /// The minor indices of lane `i`, ascending.
    pub fn lane(&self, i: usize) -> (r: &[usize])
        requires
            self.wf(),
            i < self.spec_major_dim(),
        ensures
            r@ == self.spec_lane(i as int),
    {
        assert(self.major_offsets.len() <= usize::MAX);
        let s = self.major_offsets[i];
        let e = self.major_offsets[i + 1];
        proof {
            assert(self.offsets()[i as int] <= self.offsets()[i + 1]);
            assert(self.offsets()[i + 1] <= self.offsets()[self.offsets().len() - 1]);
        }
        vstd::slice::slice_subrange(self.minor_indices.as_slice(), s, e)
    }

    /// The number of stored positions.
    pub fn nnz(&self) -> (r: usize)
        ensures
            r == self.indices().len(),
    {
        self.minor_indices.len()
    }

    /// The stored positions as `[major, minor]` pairs in storage order.
    pub fn entries(&self) -> (r: Vec<[usize; 2]>)
        requires
            self.wf(),
        ensures
            r@.len() == self.spec_entries().len(),
            forall|k: int|
                0 <= k < r@.len() ==> (#[trigger] r@[k])@.len() == 2 && r@[k]@[0]
                    == self.spec_entries()[k].0 && r@[k]@[1] == self.spec_entries()[k].1,
    {
        let n = self.major_dim();
        let mut out: Vec<[usize; 2]> = Vec::new();
        let mut i: usize = 0;
        while i < n
            invariant
                self.wf(),
                n == self.spec_major_dim(),
                0 <= i <= n,
                out@.len() == self.offsets()[i as int],
                forall|k: int|
                    0 <= k < out@.len() ==> (#[trigger] out@[k])@.len() == 2 && out@[k]@[0]
                        == entries_upto(self.offsets(), self.indices(), i as int)[k].0
                        && out@[k]@[1] == entries_upto(
                        self.offsets(),
                        self.indices(),
                        i as int,
                    )[k].1,
            decreases n - i,
        {
            let s = self.major_offsets[i];
            let e = self.major_offsets[i + 1];
            proof {
                assert(self.offsets()[i as int] <= self.offsets()[i + 1]);
                assert(self.offsets()[i + 1] <= self.offsets()[self.offsets().len() - 1]);
                lemma_entries_upto(self.offsets(), self.indices(), i as int);
                lemma_entries_upto(self.offsets(), self.indices(), i + 1);
            }
            let ghost next = entries_upto(self.offsets(), self.indices(), i + 1);
            let mut j: usize = s;
            while j < e
                invariant
                    self.wf(),
                    i < n,
                    n == self.spec_major_dim(),
                    s == self.offsets()[i as int],
                    e == self.offsets()[i + 1],
                    e <= self.indices().len(),
                    s <= j <= e,
                    out@.len() == j,
                    next == entries_upto(self.offsets(), self.indices(), i + 1),
                    next.len() == e,
                    forall|k: int| 0 <= k < e ==> (#[trigger] next[k]).1 == self.indices()[k],
                    forall|k: int| s <= k < e ==> (#[trigger] next[k]).0 == i,
                    forall|k: int|
                        0 <= k < out@.len() ==> (#[trigger] out@[k])@.len() == 2 && out@[k]@[0]
                            == next[k].0 && out@[k]@[1] == next[k].1,
                decreases e - j,
            {
                let pair: [usize; 2] = [i, self.minor_indices[j]];
                out.push(pair);
                j += 1;
            }
            i += 1;
        }
        proof {
            lemma_entries_upto(self.offsets(), self.indices(), n as int);
        }
        out
    }

    /// A copy of the pattern.
    pub fn duplicate(&self) -> (r: Self)
        ensures
            r.offsets() == self.offsets(),
            r.indices() == self.indices(),
            r.spec_minor_dim() == self.spec_minor_dim(),
    {
        let mut major_offsets: Vec<usize> = Vec::new();
        let mut k: usize = 0;
        while k < self.major_offsets.len()
            invariant
                0 <= k <= self.major_offsets@.len(),
                major_offsets@ == self.major_offsets@.take(k as int),
            decreases self.major_offsets@.len() - k,
        {
            major_offsets.push(self.major_offsets[k]);
            proof {
                assert(major_offsets@ =~= self.major_offsets@.take(k + 1));
            }
            k += 1;
        }
        let mut minor_indices: Vec<usize> = Vec::new();
        let mut k: usize = 0;
        while k < self.minor_indices.len()
            invariant
                0 <= k <= self.minor_indices@.len(),
                major_offsets@ == self.major_offsets@,
                minor_indices@ == self.minor_indices@.take(k as int),
            decreases self.minor_indices@.len() - k,
        {
            minor_indices.push(self.minor_indices[k]);
            proof {
                assert(minor_indices@ =~= self.minor_indices@.take(k + 1));
            }
            k += 1;
        }
        proof {
            assert(self.minor_indices@.take(k as int) =~= self.minor_indices@);
        }
        Self { major_offsets, minor_indices, minor_dim: self.minor_dim }
    }

    /// Creates the sparsity pattern of an identity matrix of size `n`.
    pub fn identity(n: usize) -> (r: Self)
        requires
            n < usize::MAX,
        ensures
            r.wf(),
            r.spec_minor_dim() == n,
            r.offsets() == Seq::new((n + 1) as nat, |i: int| i as usize),
            r.indices() == Seq::new(n as nat, |i: int| i as usize),
    {
        let mut major_offsets: Vec<usize> = Vec::new();
        let mut minor_indices: Vec<usize> = Vec::new();
        let mut i: usize = 0;
        while i < n
            invariant
                0 <= i <= n,
                major_offsets@ == Seq::new(i as nat, |k: int| k as usize),
                minor_indices@ == Seq::new(i as nat, |k: int| k as usize),
            decreases n - i,
        {
            major_offsets.push(i);
            minor_indices.push(i);
            i += 1;
            proof {
                assert(major_offsets@ =~= Seq::new(i as nat, |k: int| k as usize));
                assert(minor_indices@ =~= Seq::new(i as nat, |k: int| k as usize));
            }
        }
        major_offsets.push(n);
        proof {
            assert(major_offsets@ =~= Seq::new((n + 1) as nat, |k: int| k as usize));
        }
        Self { major_offsets, minor_indices, minor_dim: n }
    }
}

/// The flattened lanes `0..m` depend only on the first `m + 1` offsets and on
/// the indices below the last of them.
pub proof fn lemma_entries_upto_agree(
    offsets: Seq<usize>,
    indices: Seq<usize>,
    offsets2: Seq<usize>,
    indices2: Seq<usize>,
    m: int,
)
    requires
        0 <= m < offsets.len(),
        m < offsets2.len(),
        forall|i: int| 0 <= i <= m ==> #[trigger] offsets[i] == offsets2[i],
        forall|i: int, j: int|
            #![trigger offsets[i], offsets[j]]
            0 <= i <= j <= m ==> offsets[i] <= offsets[j],
        offsets[m] <= indices.len(),
        offsets[m] <= indices2.len(),
        forall|k: int| 0 <= k < offsets[m] ==> #[trigger] indices[k] == indices2[k],
    ensures
        entries_upto(offsets, indices, m) == entries_upto(offsets2, indices2, m),
    decreases m,
{
    if m > 0 {
        assert(offsets[m - 1] <= offsets[m]);
        lemma_entries_upto_agree(offsets, indices, offsets2, indices2, m - 1);
        assert(offsets[m - 1] == offsets2[m - 1] && offsets[m] == offsets2[m]);
        assert(lane_of(offsets, indices, m - 1) =~= lane_of(offsets2, indices2, m - 1));
    }
}

/// Lanes that hold nothing add nothing to the flattened lanes.
pub proof fn lemma_entries_upto_empty_lanes(
    offsets: Seq<usize>,
    indices: Seq<usize>,
    from: int,
    m: int,
)
    requires
        0 <= from <= m < offsets.len(),
        forall|i: int| from <= i <= m ==> #[trigger] offsets[i] == offsets[from],
        offsets[from] <= indices.len(),
    ensures
        entries_upto(offsets, indices, m) == entries_upto(offsets, indices, from),
    decreases m - from,
{
    if m > from {
        lemma_entries_upto_empty_lanes(offsets, indices, from, m - 1);
        assert(offsets[m - 1] == offsets[from] && offsets[m] == offsets[from]);
        assert(lane_of(offsets, indices, m - 1) =~= Seq::<usize>::empty());
        assert(entries_upto(offsets, indices, m) =~= entries_upto(offsets, indices, m - 1));
    }
}

/// The items of `s` whose major is at most `major`, in their order.
pub open spec fn keep_upto(s: Seq<(int, int)>, major: int) -> Seq<(int, int)>
    decreases s.len(),
{
    if s.len() == 0 {
        s
    } else if s.last().0 <= major {
        keep_upto(s.drop_last(), major).push(s.last())
    } else {
        keep_upto(s.drop_last(), major)
    }
}

/// Keeping the low majors of a sequence keeps all of its head, where the
/// head's majors are low, and none of its tail, where the tail's are not.
pub proof fn lemma_keep_upto_split(head: Seq<(int, int)>, tail: Seq<(int, int)>, major: int)
    requires
        forall|k: int| 0 <= k < head.len() ==> (#[trigger] head[k]).0 <= major,
        forall|k: int| 0 <= k < tail.len() ==> (#[trigger] tail[k]).0 > major,
    ensures
        keep_upto(head + tail, major) == head,
    decreases head.len() + tail.len(),
{
    let all = head + tail;
    if tail.len() > 0 {
        assert(all.last() == tail.last());
        assert(all.drop_last() =~= head + tail.drop_last());
        lemma_keep_upto_split(head, tail.drop_last(), major);
    } else if head.len() > 0 {
        assert(all =~= head);
        assert(head.drop_last() + tail =~= head.drop_last());
        lemma_keep_upto_split(head.drop_last(), tail, major);
        assert(head.drop_last().push(head.last()) =~= head);
    } else {
        assert(all =~= head);
    }
}

/// Keeping the low majors of a sequence whose majors are all low keeps it
/// whole.
pub proof fn lemma_keep_upto_all(s: Seq<(int, int)>, major: int)
    requires
        forall|k: int| 0 <= k < s.len() ==> (#[trigger] s[k]).0 <= major,
    ensures
        keep_upto(s, major) == s,
{
    lemma_keep_upto_split(s, Seq::empty(), major);
    assert(s + Seq::<(int, int)>::empty() =~= s);
}

/// Keeping the low majors of a sequence keeps a part of it.
pub proof fn lemma_keep_upto_len(s: Seq<(int, int)>, major: int)
    ensures
        keep_upto(s, major).len() <= s.len(),
    decreases s.len(),
{
    if s.len() > 0 {
        lemma_keep_upto_len(s.drop_last(), major);
    }
}

/// What a builder stands for: the dimensions it was made with, the major it
/// is filling, and the positions accepted so far, in the order in which they
/// came.
pub struct BuilderModel {
    pub major_dim: int,
    pub minor_dim: int,
    pub current: int,
    pub entries: Seq<(int, int)>,
}

impl BuilderModel {
    /// A builder that has accepted nothing.
    pub open spec fn fresh(major_dim: int, minor_dim: int) -> BuilderModel {
        BuilderModel { major_dim, minor_dim, current: 0, entries: Seq::empty() }
    }

    /// Whether the major being filled holds an entry already.
    pub open spec fn lane_started(self) -> bool {
        self.entries.len() > 0 && self.entries.last().0 == self.current
    }

    /// The outcome of offering `(major, minor)`: a major before the current
    /// one is refused, and so is a minor that does not lie after the last one
    /// of the current major; anything else is appended and makes `major` the
    /// current major.
    pub open spec fn insert(self, major: int, minor: int) -> Result<
        BuilderModel,
        BuilderInsertError,
    > {
        if major < self.current {
            Err(BuilderInsertError::MajorTooLow(self.current as usize))
        } else if major == self.current && self.lane_started() && minor <= self.entries.last().1 {
            Err(BuilderInsertError::MinorTooLow(minor as usize, self.entries.last().1 as usize))
        } else {
            Ok(BuilderModel { current: major, entries: self.entries.push((major, minor)), ..self })
        }
    }

    /// Whether `(major, minor)` is the entry accepted last, in the major
    /// being filled.
    pub open spec fn repeats_last(self, major: int, minor: int) -> bool {
        major == self.current && self.lane_started() && self.entries.last().1 == minor
    }

    /// The outcome of offering the items of `s` in turn, up to the first
    /// refusal.
    pub open spec fn insert_all(self, s: Seq<(int, int)>) -> Result<
        BuilderModel,
        BuilderInsertError,
    >
        decreases s.len(),
    {
        if s.len() == 0 {
            Ok(self)
        } else {
            match self.insert_all(s.drop_last()) {
                Ok(m) => m.insert(s.last().0, s.last().1),
                Err(e) => Err(e),
            }
        }
    }

    /// The builder after going back to `major`: that major is the current
    /// one again, and the entries of later majors are gone.
    pub open spec fn revert(self, major: int) -> BuilderModel {
        BuilderModel {
            current: major,
            entries: keep_upto(self.entries, major),
            ..self
        }
    }
}

/// Whether `s` ascends strictly in the order of storage: by major, and by
/// minor within a major.
pub open spec fn strictly_ordered(s: Seq<(int, int)>) -> bool {
    forall|i: int, j: int|
        0 <= i < j < s.len() ==> (#[trigger] s[i]).0 < (#[trigger] s[j]).0 || (s[i].0 == s[j].0
            && s[i].1 < s[j].1)
}

/// A fresh builder accepts every sequence of positions that ascends strictly
/// in the order of storage, and then holds exactly that sequence.
pub proof fn lemma_ordered_inserts_kept(major_dim: int, minor_dim: int, s: Seq<(int, int)>)
    requires
        strictly_ordered(s),
        forall|k: int| 0 <= k < s.len() ==> 0 <= (#[trigger] s[k]).0,
    ensures
        BuilderModel::fresh(major_dim, minor_dim).insert_all(s) == Ok::<
            BuilderModel,
            BuilderInsertError,
        >(
            BuilderModel {
                major_dim,
                minor_dim,
                current: if s.len() == 0 {
                    0
                } else {
                    s.last().0
                },
                entries: s,
            },
        ),
    decreases s.len(),
{
    let fresh = BuilderModel::fresh(major_dim, minor_dim);
    if s.len() == 0 {
        assert(s =~= Seq::<(int, int)>::empty());
    } else {
        let head = s.drop_last();
        lemma_ordered_inserts_kept(major_dim, minor_dim, head);
        let m = BuilderModel {
            major_dim,
            minor_dim,
            current: if head.len() == 0 {
                0
            } else {
                head.last().0
            },
            entries: head,
        };
        assert(BuilderModel::fresh(major_dim, minor_dim).insert_all(head) == Ok::<
            BuilderModel,
            BuilderInsertError,
        >(m));
        if head.len() > 0 {
            assert(head.last() == s[s.len() - 2]);
            assert(s[s.len() - 2].0 < s[s.len() - 1].0 || (s[s.len() - 2].0 == s[s.len() - 1].0
                && s[s.len() - 2].1 < s[s.len() - 1].1));
        }
        assert(head.push(s.last()) =~= s);
        assert(fresh.insert_all(s) == m.insert(s.last().0, s.last().1));
        assert(0 <= s[s.len() - 1].0);
    }
}

/// The layout after an accepted insertion: the majors between the current
/// one and `major` are closed empty, and `minor` opens or extends `major`.
proof fn lemma_insert_layout(
    offs: Seq<usize>,
    idx: Seq<usize>,
    minor_dim: usize,
    offs2: Seq<usize>,
    major: int,
    minor: usize,
)
    requires
        offs.len() >= 1,
        idx.len() < usize::MAX,
        layout_ok(offs.push(idx.len() as usize), idx, minor_dim),
        offs.len() - 1 <= major,
        offs2.len() == major + 1,
        forall|i: int| 0 <= i < offs.len() ==> #[trigger] offs2[i] == offs[i],
        forall|i: int| offs.len() <= i <= major ==> #[trigger] offs2[i] == idx.len(),
        minor < minor_dim,
        major == offs.len() - 1 && offs.last() < idx.len() ==> idx.last() < minor,
    ensures
        layout_ok(offs2.push((idx.len() + 1) as usize), idx.push(minor), minor_dim),
        entries_upto(offs2.push((idx.len() + 1) as usize), idx.push(minor), major + 1)
            == entries_upto(offs.push(idx.len() as usize), idx, offs.len() as int).push(
            (major, minor as int),
        ),
{
    let cm = offs.len() - 1;
    let len = idx.len() as int;
    let v = offs.push(len as usize);
    let v2 = offs2.push((len + 1) as usize);
    let idx2 = idx.push(minor);
    assert forall|i: int| 0 <= i < v.len() implies #[trigger] v[i] <= len by {
        assert(v[i] <= v[v.len() - 1]);
    }
    assert forall|i: int| 0 <= i <= cm implies #[trigger] v2[i] == v[i] by {
        assert(offs2[i] == offs[i]);
    }
    assert forall|i: int| cm < i <= major implies #[trigger] v2[i] == len by {
        assert(offs2[i] == len);
    }
    assert forall|i: int, j: int|
        #![trigger v2[i], v2[j]]
        0 <= i <= j < v2.len() implies v2[i] <= v2[j] by {
        if j <= cm {
            assert(v[i] <= v[j]);
        } else if i <= cm {
            assert(v[i] <= len);
        }
    }
    assert forall|i: int| 0 <= i < v2.len() - 1 implies #[trigger] lane_sorted(v2, idx2, i) by {
        assert forall|k: int, l: int|
            #![trigger idx2[k], idx2[l]]
            v2[i] <= k < l < v2[i + 1] implies idx2[k] < idx2[l] by {
            if i < cm {
                assert(lane_sorted(v, idx, i));
                assert(v2[i] == v[i] && v2[i + 1] == v[i + 1]);
                assert(idx[k] < idx[l]);
            } else if i == cm {
                assert(lane_sorted(v, idx, cm));
                assert(v2[i] == v[i]);
                if major == cm {
                    assert(v2[i + 1] == len + 1);
                    if l < len {
                        assert(idx[k] < idx[l]);
                    } else {
                        assert(offs.last() < idx.len());
                        if k < len - 1 {
                            assert(idx[k] < idx[len - 1]);
                        }
                    }
                } else {
                    assert(v2[i + 1] == len);
                    assert(idx[k] < idx[l]);
                }
            } else if i < major {
                assert(v2[i] == len && v2[i + 1] == len);
            } else {
                assert(v2[i] == len);
            }
        }
    }
    assert(layout_ok(v2, idx2, minor_dim));
    let tag = |m: usize| (major, m as int);
    if major == cm {
        lemma_entries_upto_agree(v, idx, v2, idx2, cm);
        assert(lane_of(v2, idx2, cm) =~= lane_of(v, idx, cm).push(minor));
        assert(lane_of(v2, idx2, cm).map_values(tag) =~= lane_of(v, idx, cm).map_values(tag).push(
            (major, minor as int),
        ));
        assert(entries_upto(v2, idx2, cm + 1) =~= entries_upto(v, idx, cm + 1).push(
            (major, minor as int),
        ));
    } else {
        assert(v2[cm + 1] == v[cm + 1]);
        lemma_entries_upto_agree(v, idx, v2, idx2, cm + 1);
        lemma_entries_upto_empty_lanes(v2, idx2, cm + 1, major);
        assert(lane_of(v2, idx2, major) =~= seq![minor]);
        assert(lane_of(v2, idx2, major).map_values(tag) =~= seq![(major, minor as int)]);
        assert(entries_upto(v2, idx2, major + 1) =~= entries_upto(v, idx, cm + 1).push(
            (major, minor as int),
        ));
    }
}

/// A builder that allows for constructing a sparsity pattern.
/// It requires elements to be added in sorted order. Specifically,
/// For each element the major must be >= the previous element's major.
/// If the major is the same, the minor must be in ascending order.
#[derive(Debug, Clone, PartialEq, Eq)]
pub struct SparsityPatternBuilder {
    buf: SparsityPattern,
    major_dim: usize,
}

impl View for SparsityPatternBuilder {
    type V = BuilderModel;

    closed spec fn view(&self) -> BuilderModel {
        BuilderModel {
            major_dim: self.major_dim as int,
            minor_dim: self.buf.minor_dim as int,
            current: self.buf.major_offsets@.len() - 1,
            entries: entries_upto(
                self.closed_offsets(),
                self.buf.minor_indices@,
                self.buf.major_offsets@.len() as int,
            ),
        }
    }
}

impl SparsityPatternBuilder {
    /// The offsets as they would be if the major being filled were closed.
    closed spec fn closed_offsets(&self) -> Seq<usize> {
        self.buf.major_offsets@.push(self.buf.minor_indices@.len() as usize)
    }

    /// The invariant of a builder: with the major being filled closed, the
    /// layout is that of a pattern; the current major does not pass the
    /// declared number of majors, and holds nothing once it equals it.
    pub closed spec fn wf(&self) -> bool {
        &&& self.buf.major_offsets@.len() >= 1
        &&& layout_ok(self.closed_offsets(), self.buf.minor_indices@, self.buf.minor_dim)
        &&& self.buf.major_offsets@.len() - 1 <= self.major_dim < usize::MAX
        &&& self.buf.major_offsets@.len() - 1 == self.major_dim
            ==> self.buf.major_offsets@.last() == self.buf.minor_indices@.len()
    }

    /// What the invariant means for the model: the current major lies within
    /// the declared number, the entries ascend strictly in the order of
    /// storage, none lies after the current major, and each is within the
    /// dimensions.
    pub proof fn lemma_wf_model(&self)
        requires
            self.wf(),
        ensures
            0 <= self@.current <= self@.major_dim < usize::MAX,
            0 <= self@.minor_dim <= usize::MAX,
            strictly_ordered(self@.entries),
            forall|k: int|
                0 <= k < self@.entries.len() ==> 0 <= (#[trigger] self@.entries[k]).0
                    <= self@.current && self@.entries[k].0 < self@.major_dim && 0
                    <= self@.entries[k].1 < self@.minor_dim,
    {
        let v = self.closed_offsets();
        let idx = self.buf.minor_indices@;
        let cm = self.buf.major_offsets@.len() - 1;
        let e = self@.entries;
        lemma_entries_upto(v, idx, cm + 1);
        assert forall|k: int| 0 <= k < e.len() implies 0 <= (#[trigger] e[k]).0 <= cm && e[k].0
            < self.major_dim && 0 <= e[k].1 < self.buf.minor_dim by {
            assert(e[k].1 == idx[k]);
            if cm == self.major_dim && e[k].0 == cm {
                assert(v[cm] <= k < v[cm + 1]);
            }
        }
        assert forall|i: int, j: int| 0 <= i < j < e.len() implies (#[trigger] e[i]).0 < (
        #[trigger] e[j]).0 || (e[i].0 == e[j].0 && e[i].1 < e[j].1) by {
            let a = e[i].0;
            let c = e[j].0;
            if a > c {
                assert(v[c + 1] <= v[a]);
            } else if a == c {
                assert(lane_sorted(v, idx, a));
                assert(idx[i] < idx[j]);
            }
        }
    }

    /// Constructs a new empty builder.
    pub fn new(major_dim: usize, minor_dim: usize) -> (r: Self)
        requires
            major_dim < usize::MAX,
        ensures
            r.wf(),
            r@ == BuilderModel::fresh(major_dim as int, minor_dim as int),
    {
        let r = Self {
            buf: SparsityPattern { major_offsets: vec![0], minor_indices: Vec::new(), minor_dim },
            major_dim,
        };
        proof {
            let v = r.closed_offsets();
            assert(v =~= seq![0usize, 0usize]);
            assert(lane_of(v, r.buf.minor_indices@, 0) =~= Seq::<usize>::empty());
            reveal_with_fuel(entries_upto, 2);
            assert(r@.entries =~= Seq::<(int, int)>::empty());
        }
        r
    }

    /// The number of non-zero entries inserted into `self`.
    pub fn num_entries(&self) -> (r: usize)
        requires
            self.wf(),
        ensures
            r == self@.entries.len(),
    {
        proof {
            lemma_entries_upto(
                self.closed_offsets(),
                self.buf.minor_indices@,
                self.buf.major_offsets@.len() as int,
            );
        }
        self.buf.minor_indices.len()
    }

    /// Whether the major being filled holds an entry, and which minor came
    /// last.
    proof fn lemma_last_entry(&self)
        requires
            self.wf(),
        ensures
            self@.entries.len() == self.buf.minor_indices@.len(),
            self@.lane_started() <==> self.buf.major_offsets@.last()
                < self.buf.minor_indices@.len(),
            self@.entries.len() > 0 ==> self@.entries.last().1 == self.buf.minor_indices@.last(),
    {
        let v = self.closed_offsets();
        let idx = self.buf.minor_indices@;
        let cm = self.buf.major_offsets@.len() - 1;
        lemma_entries_upto(v, idx, cm + 1);
        if idx.len() > 0 {
            let k = idx.len() - 1;
            let l = self@.entries[k].0;
            assert(v[l] <= k < v[l + 1]);
            if l < cm {
                assert(v[l + 1] <= v[cm]);
            }
        }
    }

    /// Allows for general assignment of indices
    pub fn insert(&mut self, maj: usize, min: usize) -> (res: Result<(), BuilderInsertError>)
        requires
            old(self).wf(),
            maj < old(self)@.major_dim,
            min < old(self)@.minor_dim,
        ensures
            final(self).wf(),
            match old(self)@.insert(maj as int, min as int) {
                Ok(m) => res == Ok::<(), BuilderInsertError>(()) && final(self)@ == m,
                Err(e) => res == Err::<(), BuilderInsertError>(e) && final(self)@ == old(self)@,
            },
    {
        proof {
            self.lemma_last_entry();
        }
        let curr_major = self.buf.major_offsets.len() - 1;
        // cannot go backwards in major
        if maj < curr_major {
            return Err(BuilderInsertError::MajorTooLow(curr_major));
        }
        let count = self.buf.minor_indices.len();
        // cannot go backwards in minor
        if maj == curr_major && self.buf.major_offsets[curr_major] < count && count > 0
            && min <= self.buf.minor_indices[count - 1] {
            return Err(BuilderInsertError::MinorTooLow(min, self.buf.minor_indices[count - 1]));
        }
        let ghost offs = self.buf.major_offsets@;
        let ghost idx = self.buf.minor_indices@;
        // add any advances in row.
        let mut m: usize = curr_major;
        while m < maj
            invariant
                curr_major <= m <= maj,
                curr_major == offs.len() - 1,
                self.major_dim == old(self).major_dim,
                self.buf.minor_dim == old(self).buf.minor_dim,
                self.buf.minor_indices@ == idx,
                count == idx.len(),
                self.buf.major_offsets@.len() == m + 1,
                forall|i: int| 0 <= i < offs.len() ==> #[trigger] self.buf.major_offsets@[i] == offs[i],
                forall|i: int| offs.len() <= i <= m ==> #[trigger] self.buf.major_offsets@[i] == count,
            decreases maj - m,
        {
            self.buf.major_offsets.push(count);
            m += 1;
        }
        self.buf.minor_indices.push(min);
        proof {
            assert(self.buf.minor_indices.len() <= usize::MAX);
            lemma_insert_layout(
                offs,
                idx,
                self.buf.minor_dim,
                self.buf.major_offsets@,
                maj as int,
                min,
            );
        }
        Ok(())
    }

    /// As `insert`, but for an entry that repeats the one accepted last: the
    /// builder then stays as it is and the result is `true`, so that the
    /// caller can add the entry's value to the one stored.
    pub fn insert_sum(&mut self, maj: usize, min: usize) -> (res: Result<bool, BuilderInsertError>)
        requires
            old(self).wf(),
            maj < old(self)@.major_dim,
            min < old(self)@.minor_dim,
        ensures
            final(self).wf(),
            if old(self)@.repeats_last(maj as int, min as int) {
                res == Ok::<bool, BuilderInsertError>(true) && final(self)@ == old(self)@
            } else {
                match old(self)@.insert(maj as int, min as int) {
                    Ok(m) => res == Ok::<bool, BuilderInsertError>(false) && final(self)@ == m,
                    Err(e) => res == Err::<bool, BuilderInsertError>(e) && final(self)@ == old(
                        self,
                    )@,
                }
            },
    {
        proof {
            self.lemma_last_entry();
        }
        let curr_major = self.buf.major_offsets.len() - 1;
        let count = self.buf.minor_indices.len();
        if maj == curr_major && self.buf.major_offsets[curr_major] < count && count > 0 && min
            == self.buf.minor_indices[count - 1] {
            return Ok(true);
        }
        match self.insert(maj, min) {
            Ok(()) => Ok(false),
            Err(e) => Err(e),
        }
    }

    /// Consumes self and outputs the constructed `SparsityPattern`.
    /// The major being filled and those after it are closed as they are.
    #[inline]
    pub fn build(self) -> (r: SparsityPattern)
        requires
            self.wf(),
        ensures
            r.wf(),
            r.spec_major_dim() == self@.major_dim,
            r.spec_minor_dim() == self@.minor_dim,
            r.spec_entries() == self@.entries,
    {
        let mut this = self;
        let ghost offs = this.buf.major_offsets@;
        let ghost idx = this.buf.minor_indices@;
        let ghost v = this.closed_offsets();
        let ghost cm = offs.len() - 1;
        let count = this.buf.minor_indices.len();
        this.buf.major_offsets.resize(this.major_dim + 1, count);
        proof {
            let f = this.buf.major_offsets@;
            assert(f.len() == this.major_dim + 1);
            assert forall|i: int| 0 <= i <= cm implies #[trigger] f[i] == v[i] by {
                if cm < this.major_dim {
                    assert(f.subrange(0, offs.len() as int)[i] == f[i]);
                }
            }
            assert forall|i: int| cm < i <= this.major_dim implies #[trigger] f[i] == count by {}
            assert forall|i: int| 0 <= i < v.len() implies #[trigger] v[i] <= count by {
                assert(v[i] <= v[v.len() - 1]);
            }
            assert forall|i: int, j: int|
                #![trigger f[i], f[j]]
                0 <= i <= j < f.len() implies f[i] <= f[j] by {
                if j <= cm {
                    assert(v[i] <= v[j]);
                } else if i <= cm {
                    assert(v[i] <= count);
                }
            }
            assert forall|i: int| 0 <= i < f.len() - 1 implies #[trigger] lane_sorted(
                f,
                idx,
                i,
            ) by {
                if i <= cm {
                    assert(lane_sorted(v, idx, i));
                    assert(f[i] == v[i]);
                    assert(f[i + 1] <= count);
                    assert(v[i + 1] == count || v[i + 1] == f[i + 1]);
                }
            }
            assert(this.buf.offsets() == f);
            if cm == this.major_dim {
                lemma_entries_upto_agree(v, idx, f, idx, cm);
                lemma_entries_upto_empty_lanes(v, idx, cm, cm + 1);
            } else {
                lemma_entries_upto_agree(v, idx, f, idx, cm + 1);
                lemma_entries_upto_empty_lanes(f, idx, cm + 1, this.major_dim as int);
            }
        }
        this.buf
    }

    /// Reverts the major index of `self` back to `maj`, deleting any entries ahead of it.
    /// Preserves entries in `maj`. Nothing changes, and the result is
    /// `false`, unless `maj` lies before the current major.
    pub fn revert_to_major(&mut self, maj: usize) -> (r: bool)
        requires
            old(self).wf(),
        ensures
            final(self).wf(),
            r == (maj < old(self)@.current),
            r ==> final(self)@ == old(self)@.revert(maj as int),
            !r ==> final(self)@ == old(self)@,
    {
        // preserve maj + 1 elements in self
        if maj >= self.buf.major_offsets.len() - 1 {
            return false;
        }
        let ghost offs = self.buf.major_offsets@;
        let ghost idx = self.buf.minor_indices@;
        let ghost v = self.closed_offsets();
        let ghost cm = offs.len() - 1;
        let last = self.buf.major_offsets[maj + 1];
        proof {
            assert(v[maj + 1] == last);
            assert(v[maj + 1] <= v[v.len() - 1]);
        }
        self.buf.major_offsets.truncate(maj + 1);
        self.buf.minor_indices.truncate(last);
        proof {
            let v2 = self.closed_offsets();
            let idx2 = self.buf.minor_indices@;
            assert forall|i: int| 0 <= i <= maj + 1 implies #[trigger] v2[i] == v[i] by {}
            assert forall|i: int, j: int|
                #![trigger v2[i], v2[j]]
                0 <= i <= j < v2.len() implies v2[i] <= v2[j] by {
                assert(v[i] <= v[j]);
            }
            assert forall|i: int| 0 <= i < v2.len() - 1 implies #[trigger] lane_sorted(
                v2,
                idx2,
                i,
            ) by {
                assert(lane_sorted(v, idx, i));
                assert(v2[i] == v[i]);
                assert(v2[i + 1] == v[i + 1]);
                assert(v[i + 1] <= v[maj + 1]);
            }
            lemma_entries_upto_agree(v, idx, v2, idx2, maj + 1);
            lemma_keep_upto_lanes(v, idx, maj as int, cm + 1);
        }
        true
    }

    /// Allows for rebuilding part of a sparsity pattern: the builder holds
    /// the entries of `sp`, and every major is closed until
    /// `revert_to_major` opens one again.
    pub fn from(sp: SparsityPattern) -> (r: Self)
        requires
            sp.wf(),
        ensures
            r.wf(),
            r@ == (BuilderModel {
                major_dim: sp.spec_major_dim(),
                minor_dim: sp.spec_minor_dim() as int,
                current: sp.spec_major_dim(),
                entries: sp.spec_entries(),
            }),
    {
        let major_dim = sp.major_dim();
        let r = SparsityPatternBuilder { major_dim, buf: sp };
        proof {
            let offs = sp.offsets();
            let idx = sp.indices();
            let v = r.closed_offsets();
            assert forall|i: int| 0 <= i < offs.len() implies #[trigger] v[i] == offs[i] by {}
            assert forall|i: int, j: int|
                #![trigger v[i], v[j]]
                0 <= i <= j < v.len() implies v[i] <= v[j] by {
                if j < offs.len() {
                    assert(offs[i] <= offs[j]);
                } else if i < offs.len() {
                    assert(offs[i] <= offs[offs.len() - 1]);
                }
            }
            assert forall|i: int| 0 <= i < v.len() - 1 implies #[trigger] lane_sorted(v, idx, i) by {
                if i < offs.len() - 1 {
                    assert(lane_sorted(offs, idx, i));
                    assert(v[i] == offs[i] && v[i + 1] == offs[i + 1]);
                } else {
                    assert(v[i] == offs[i]);
                }
            }
            assert(sp.major_offsets.len() <= usize::MAX);
            lemma_entries_upto_agree(offs, idx, v, idx, major_dim as int);
            lemma_entries_upto_empty_lanes(v, idx, major_dim as int, major_dim + 1);
        }
        r
    }

    /// Returns the current major being modified by `self`.
    pub fn current_major(&self) -> (r: usize)
        requires
            self.wf(),
        ensures
            r == self@.current,
    {
        self.buf.major_offsets.len() - 1
    }
}

/// Of the flattened lanes `0..m`, those whose major is at most `major` are
/// the flattened lanes `0..=major`.
proof fn lemma_keep_upto_lanes(offsets: Seq<usize>, indices: Seq<usize>, major: int, m: int)
    requires
        0 <= major < m < offsets.len(),
        offsets[0] == 0,
        offsets[m] <= indices.len(),
        forall|i: int, j: int|
            #![trigger offsets[i], offsets[j]]
            0 <= i <= j < offsets.len() ==> offsets[i] <= offsets[j],
    ensures
        keep_upto(entries_upto(offsets, indices, m), major) == entries_upto(
            offsets,
            indices,
            major + 1,
        ),
{
    let head = entries_upto(offsets, indices, major + 1);
    let all = entries_upto(offsets, indices, m);
    assert(offsets[major + 1] <= offsets[m]);
    lemma_entries_upto(offsets, indices, major + 1);
    lemma_entries_upto(offsets, indices, m);
    lemma_entries_upto_agree(offsets, indices, offsets, indices, major + 1);
    let tail = all.subrange(head.len() as int, all.len() as int);
    assert forall|k: int| 0 <= k < head.len() implies all[k] == head[k] by {
        let l = head[k].0;
        assert(offsets[l] <= k < offsets[l + 1]);
        assert(all[k].0 == l);
    }
    assert(all =~= head + tail);
    assert forall|k: int| 0 <= k < tail.len() implies (#[trigger] tail[k]).0 > major by {
        let p = head.len() + k;
        assert(tail[k] == all[p]);
        let l = all[p].0;
        assert(offsets[l] <= p < offsets[l + 1]);
        if l <= major {
            assert(offsets[l + 1] <= offsets[major + 1]);
        }
    }
    lemma_keep_upto_split(head, tail, major);
}

} // verus!
