use crate::builder::SparsityPattern;
use vstd::prelude::*;

verus! {

/// The number of `false` items of a sequence.
pub open spec fn count_false(s: Seq<bool>) -> nat
    decreases s.len(),
{
    if s.len() == 0 {
        0
    } else {
        count_false(s.drop_last()) + if s.last() { 0nat } else { 1nat }
    }
}

/// Setting a `false` item to `true` lowers the count of `false` items by one.
pub(crate) proof fn lemma_count_false_set(s: Seq<bool>, j: int)
    requires
        0 <= j < s.len(),
        !s[j],
    ensures
        count_false(s.update(j, true)) + 1 == count_false(s),
    decreases s.len(),
{
    let u = s.update(j, true);
    if j == s.len() - 1 {
        assert(u.drop_last() =~= s.drop_last());
    } else {
        lemma_count_false_set(s.drop_last(), j);
        assert(u.drop_last() =~= s.drop_last().update(j, true));
    }
}

/// Whether `w` is an item of `out`.
pub open spec fn holds_vertex(out: Seq<usize>, w: int) -> bool {
    exists|k: int| 0 <= k < out.len() && #[trigger] out[k] as int == w
}

/// Whether `j` is an item of `out`.
fn holds(out: &Vec<usize>, j: usize) -> (r: bool)
    ensures
        r == out@.contains(j),
        r == holds_vertex(out@, j as int),
{
    let mut k: usize = 0;
    while k < out.len()
        invariant
            0 <= k <= out@.len(),
            forall|e: int| 0 <= e < k ==> out@[e] != j,
        decreases out@.len() - k,
    {
        if out[k] == j {
            return true;
        }
        k += 1;
    }
    false
}

/// Whether `w` is one of the first `k` items of `post`.
pub open spec fn finished_before(post: Seq<usize>, k: int, w: int) -> bool {
    exists|e: int| 0 <= e < k && e < post.len() && #[trigger] post[e] as int == w
}

/// Puts the items of `v` in the opposite order.
fn reverse_in_place(v: &mut Vec<usize>)
    ensures
        final(v)@ == old(v)@.reverse(),
{
    let n = v.len();
    let mut i: usize = 0;
    while i < n / 2
        invariant
            0 <= i <= n / 2,
            n == old(v)@.len(),
            v@.len() == n,
            forall|k: int| 0 <= k < i ==> #[trigger] v@[k] == old(v)@[n - 1 - k],
            forall|k: int| n - i <= k < n ==> #[trigger] v@[k] == old(v)@[n - 1 - k],
            forall|k: int| i <= k < n - i ==> #[trigger] v@[k] == old(v)@[k],
        decreases n / 2 - i,
    {
        let front = v[i];
        let back = v[n - 1 - i];
        v[i] = back;
        v[n - 1 - i] = front;
        i += 1;
    }
    proof {
        assert forall|k: int| 0 <= k < n implies #[trigger] v@[k] == old(v)@[n - 1 - k] by {
            if i <= k < n - i {
                assert(v@[k] == old(v)@[k]);
            }
        }
        assert(v@ =~= old(v)@.reverse());
    }
}

/// Whether vertex `w` is marked in `out` or waits on `stack`.
pub open spec fn pending(out: Seq<bool>, stack: Seq<u32>, w: int) -> bool {
    ||| 0 <= w < out.len() && out[w]
    ||| exists|s: int| 0 <= s < stack.len() && #[trigger] stack[s] as int == w
}

impl SparsityPattern {
    /// The edges of the graph of a triangular solve: `j -> i` where lane `j`
    /// stores `i`, and `i` lies on or below the diagonal (`lower`), or on or
    /// above it.
    pub open spec fn edge(&self, lower: bool, j: int, i: int) -> bool {
        &&& self.has_entry(j, i)
        &&& if lower {
            i >= j
        } else {
            i <= j
        }
    }

    /// A walk along edges.
    pub open spec fn is_path(&self, lower: bool, p: Seq<int>) -> bool {
        &&& p.len() >= 1
        &&& forall|k: int| 0 <= k < p.len() - 1 ==> self.edge(lower, #[trigger] p[k], p[k + 1])
    }

    /// Whether `v` is reached from a vertex of `b` along edges: `v` is one of
    /// `b`, or the end of a walk that starts at one.
    pub open spec fn reaches(&self, lower: bool, b: Seq<usize>, v: int) -> bool {
        exists|p: Seq<int>|
            #![trigger self.is_path(lower, p)]
            self.is_path(lower, p) && p.last() == v && exists|t: int|
                0 <= t < b.len() && #[trigger] b[t] == p[0]
    }

    /// Whether every vertex reached from `b` is a lane of the pattern. A
    /// search walks the lane of each vertex that it reaches.
    pub open spec fn reaches_lanes_only(&self, lower: bool, b: Seq<usize>) -> bool {
        forall|v: int| #[trigger] self.reaches(lower, b, v) ==> v < self.spec_major_dim()
    }

    /// In a pattern that has no more minor indices than lanes, every vertex
    /// reached from lanes is a lane.
    pub proof fn lemma_square_reaches_lanes(&self, lower: bool, b: Seq<usize>)
        requires
            self.wf(),
            self.spec_minor_dim() <= self.spec_major_dim(),
            forall|t: int| 0 <= t < b.len() ==> (#[trigger] b[t]) < self.spec_major_dim(),
        ensures
            self.reaches_lanes_only(lower, b),
    {
        assert forall|v: int| #[trigger] self.reaches(lower, b, v) implies v
            < self.spec_major_dim() by {
            let p = choose|p: Seq<int>|
                #![trigger self.is_path(lower, p)]
                self.is_path(lower, p) && p.last() == v && exists|t: int|
                    0 <= t < b.len() && #[trigger] b[t] == p[0];
            if p.len() > 1 {
                assert(self.edge(lower, p[p.len() - 2], p[p.len() - 2 + 1]));
            }
        }
    }

    /// Along a walk in the graph of the upper triangle the vertices never
    /// ascend.
    proof fn lemma_upper_path_descends(&self, p: Seq<int>, k: int)
        requires
            self.is_path(false, p),
            0 <= k < p.len(),
        ensures
            p[k] <= p[0],
        decreases k,
    {
        if k > 0 {
            self.lemma_upper_path_descends(p, k - 1);
            assert(self.edge(false, p[k - 1], p[k - 1 + 1]));
        }
    }

    /// In the graph of the upper triangle every vertex reached from lanes is
    /// a lane.
    pub proof fn lemma_upper_reaches_lanes(&self, b: Seq<usize>)
        requires
            forall|t: int| 0 <= t < b.len() ==> (#[trigger] b[t]) < self.spec_major_dim(),
        ensures
            self.reaches_lanes_only(false, b),
    {
        assert forall|v: int| #[trigger] self.reaches(false, b, v) implies v
            < self.spec_major_dim() by {
            let p = choose|p: Seq<int>|
                #![trigger self.is_path(false, p)]
                self.is_path(false, p) && p.last() == v && exists|t: int|
                    0 <= t < b.len() && #[trigger] b[t] == p[0];
            self.lemma_upper_path_descends(p, p.len() - 1);
        }
    }

    /// The start vertices of a search that reaches lanes only are lanes.
    pub proof fn lemma_starts_are_lanes(&self, lower: bool, b: Seq<usize>)
        requires
            self.reaches_lanes_only(lower, b),
        ensures
            forall|t: int| 0 <= t < b.len() ==> (#[trigger] b[t]) < self.spec_major_dim(),
    {
        assert forall|t: int| 0 <= t < b.len() implies (#[trigger] b[t])
            < self.spec_major_dim() by {
            self.lemma_reaches_start(lower, b, t);
        }
    }

    /// A start vertex is reached.
    pub proof fn lemma_reaches_start(&self, lower: bool, b: Seq<usize>, t: int)
        requires
            0 <= t < b.len(),
        ensures
            self.reaches(lower, b, b[t] as int),
    {
        let p = seq![b[t] as int];
        assert(self.is_path(lower, p));
        assert(p.last() == b[t] as int);
    }

    /// The head of an edge from a reached vertex is reached.
    pub proof fn lemma_reaches_step(&self, lower: bool, b: Seq<usize>, j: int, i: int)
        requires
            self.reaches(lower, b, j),
            self.edge(lower, j, i),
        ensures
            self.reaches(lower, b, i),
    {
        let p = choose|p: Seq<int>|
            #![trigger self.is_path(lower, p)]
            self.is_path(lower, p) && p.last() == j && exists|t: int|
                0 <= t < b.len() && #[trigger] b[t] == p[0];
        let q = p.push(i);
        assert forall|k: int| 0 <= k < q.len() - 1 implies self.edge(
            lower,
            #[trigger] q[k],
            q[k + 1],
        ) by {
            if k < p.len() - 1 {
                assert(q[k] == p[k] && q[k + 1] == p[k + 1]);
            }
        }
        assert(self.is_path(lower, q));
        assert(q.last() == i);
        assert(q[0] == p[0]);
    }

    /// A set that holds the start vertices and every successor of its items
    /// holds every vertex of a walk from a start vertex.
    pub proof fn lemma_closed_holds_path(
        &self,
        lower: bool,
        inside: spec_fn(int) -> bool,
        p: Seq<int>,
        k: int,
    )
        requires
            self.is_path(lower, p),
            0 <= k < p.len(),
            inside(p[0]),
            forall|v: int, w: int| inside(v) && #[trigger] self.edge(lower, v, w) ==> inside(w),
        ensures
            inside(p[k]),
        decreases k,
    {
        if k > 0 {
            self.lemma_closed_holds_path(lower, inside, p, k - 1);
            assert(self.edge(lower, p[k - 1], p[k]));
        }
    }

    /// Position `x` of lane `j` is an entry of the pattern, and an edge where
    /// it lies on the side of the diagonal that the search follows.
    proof fn lemma_lane_edge(&self, lower: bool, j: int, x: int)
        requires
            self.wf(),
            0 <= j < self.spec_major_dim(),
            0 <= x < self.spec_lane(j).len(),
        ensures
            self.has_entry(j, self.spec_lane(j)[x] as int),
            self.spec_lane(j)[x] < self.spec_minor_dim(),
            (if lower {
                self.spec_lane(j)[x] >= j
            } else {
                self.spec_lane(j)[x] <= j
            }) ==> self.edge(lower, j, self.spec_lane(j)[x] as int),
    {
        assert(self.offsets()[j] <= self.offsets()[j + 1]);
        assert(self.offsets()[j + 1] <= self.offsets()[self.offsets().len() - 1]);
        let pos = self.offsets()[j] + x;
        assert(self.indices()[pos] == self.spec_lane(j)[x]);
    }

    /// Whether a search that stands at `j` goes on to the stored index `i`:
    /// to a row below the diagonal for a lower triangular search, above it
    /// for an upper one.
    pub open spec fn follows(lower: bool, j: int, i: int) -> bool {
        if lower {
            i > j
        } else {
            i < j
        }
    }

    /// How far the search can still go from lane `j`.
    pub open spec fn rank(&self, lower: bool, j: int) -> nat {
        if lower {
            (self.spec_major_dim() - j) as nat
        } else {
            j as nat
        }
    }

    /// The vertices finished once a depth-first search has gone on from
    /// `done` to `j`: `done` itself where it holds `j` already; else what the
    /// walk along lane `j` finishes, and then `j`. A vertex is finished once
    /// every vertex that it leads to is.
    pub open spec fn finish(&self, lower: bool, j: int, done: Seq<usize>) -> Seq<usize>
        decreases self.rank(lower, j), 1nat, 0nat,
    {
        if holds_vertex(done, j) || !(0 <= j < self.spec_major_dim()) {
            done
        } else {
            self.finish_lane(lower, j, 0, done).push(j as usize)
        }
    }

    /// The vertices finished once the search has walked lane `j` from its
    /// `k`-th step on: each step goes on to one stored index that the search
    /// follows, in ascending order of the indices for a lower triangular
    /// search and in descending order for an upper one.
    pub open spec fn finish_lane(
        &self,
        lower: bool,
        j: int,
        k: int,
        done: Seq<usize>,
    ) -> Seq<usize>
        decreases self.rank(lower, j), 0nat, self.spec_lane(j).len() - k,
    {
        let lane = self.spec_lane(j);
        if k < 0 || k >= lane.len() || !(0 <= j < self.spec_major_dim()) {
            done
        } else {
            let x = if lower {
                k
            } else {
                lane.len() - 1 - k
            };
            let i = lane[x] as int;
            let next = if Self::follows(lower, j, i) && 0 <= i < self.spec_major_dim() {
                self.finish(lower, i, done)
            } else {
                done
            };
            self.finish_lane(lower, j, k + 1, next)
        }
    }

    /// The vertices finished by searches from the first `t` of the start
    /// vertices `b`, one search after another, in the order in which they
    /// are finished.
    pub open spec fn search_finished(&self, lower: bool, b: Seq<usize>, t: int) -> Seq<usize>
        decreases t,
    {
        if t <= 0 {
            Seq::empty()
        } else {
            self.finish(lower, b[t - 1] as int, self.search_finished(lower, b, t - 1))
        }
    }

    /// The order that a search from `b` gives: the vertices reached, the one
    /// finished last first.
    pub open spec fn search_order(&self, lower: bool, b: Seq<usize>) -> Seq<usize> {
        self.search_finished(lower, b, b.len() as int).reverse()
    }

    /// Whether each item of `out` comes before every other item that it
    /// leads to: a topological order.
    pub open spec fn predecessors_first(&self, lower: bool, out: Seq<usize>) -> bool {
        forall|x: int, y: int|
            0 <= x < out.len() && 0 <= y < out.len() && out[x] != out[y] && #[trigger] self.edge(
                lower,
                out[x] as int,
                out[y] as int,
            ) ==> x < y
    }

    /// What holds of the vertices finished so far by a search from `b`: none
    /// occurs twice, each is a lane of the pattern and reached from `b`, and
    /// every other vertex that one leads to was finished before it.
    pub open spec fn finished_ok(&self, lower: bool, b: Seq<usize>, post: Seq<usize>) -> bool {
        &&& post.no_duplicates()
        &&& forall|k: int|
            0 <= k < post.len() ==> (#[trigger] post[k]) < self.spec_major_dim() && self.reaches(
                lower,
                b,
                post[k] as int,
            )
        &&& forall|k: int, w: int|
            0 <= k < post.len() && w != post[k] && #[trigger] self.edge(lower, post[k] as int, w)
                ==> finished_before(post, k, w)
    }

    /// The finished vertices stay in order when a vertex is added whose
    /// successors are all finished.
    proof fn lemma_finish_push(&self, lower: bool, b: Seq<usize>, post: Seq<usize>, j: usize)
        requires
            self.wf(),
            j < self.spec_major_dim(),
            self.reaches(lower, b, j as int),
            self.finished_ok(lower, b, post),
            !holds_vertex(post, j as int),
            forall|x: int|
                0 <= x < self.spec_lane(j as int).len() && Self::follows(
                    lower,
                    j as int,
                    self.spec_lane(j as int)[x] as int,
                ) ==> holds_vertex(post, #[trigger] self.spec_lane(j as int)[x] as int),
        ensures
            self.finished_ok(lower, b, post.push(j)),
    {
        let grown = post.push(j);
        assert(grown.no_duplicates()) by {
            assert forall|x: int, y: int|
                0 <= x < grown.len() && 0 <= y < grown.len() && x != y implies grown[x]
                != grown[y] by {
                if x < post.len() && y < post.len() {
                } else if x < post.len() {
                    assert(post[x] as int != j as int);
                } else {
                    assert(post[y] as int != j as int);
                }
            }
        }
        assert forall|k: int| 0 <= k < grown.len() implies (#[trigger] grown[k])
            < self.spec_major_dim() && self.reaches(lower, b, grown[k] as int) by {
            if k < post.len() {
                assert(grown[k] == post[k]);
            }
        }
        assert forall|k: int, w: int|
            0 <= k < grown.len() && w != grown[k] && #[trigger] self.edge(
                lower,
                grown[k] as int,
                w,
            ) implies finished_before(grown, k, w) by {
            if k < post.len() {
                assert(grown[k] == post[k]);
                assert(finished_before(post, k, w));
                let e = choose|e: int| 0 <= e < k && e < post.len() && #[trigger] post[e] as int == w;
                assert(grown[e] == post[e]);
            } else {
                assert(self.offsets()[j as int] <= self.offsets()[j + 1]);
                assert(self.offsets()[j + 1] <= self.offsets()[self.offsets().len() - 1]);
                let pos = choose|pos: int|
                    self.offsets()[j as int] <= pos < self.offsets()[j + 1]
                        && #[trigger] self.indices()[pos] == w;
                let x = pos - self.offsets()[j as int];
                assert(self.spec_lane(j as int)[x] == self.indices()[pos]);
                assert(holds_vertex(post, self.spec_lane(j as int)[x] as int));
                let e = choose|e: int| 0 <= e < post.len() && #[trigger] post[e] as int == w;
                assert(grown[e] == post[e]);
            }
        }
    }

    /// Depth-first search from `j`: appends to `out` the vertices reached
    /// from `j` that `out` does not hold yet, each once every vertex that it
    /// leads to is in `out`.
    fn finish_from(&self, lower: bool, j: usize, out: &mut Vec<usize>, Ghost(b): Ghost<Seq<usize>>)
        requires
            self.wf(),
            self.reaches_lanes_only(lower, b),
            j < self.spec_major_dim(),
            self.reaches(lower, b, j as int),
            self.finished_ok(lower, b, old(out)@),
        ensures
            final(out)@ == self.finish(lower, j as int, old(out)@),
            self.finished_ok(lower, b, final(out)@),
            final(out)@.len() >= old(out)@.len(),
            forall|k: int| 0 <= k < old(out)@.len() ==> #[trigger] final(out)@[k] == old(out)@[k],
            holds_vertex(final(out)@, j as int),
            forall|k: int|
                old(out)@.len() <= k < final(out)@.len() ==> (#[trigger] final(out)@[k]) as int
                    == j || Self::follows(lower, j as int, final(out)@[k] as int),
        decreases self.rank(lower, j as int),
    {
        if holds(out, j) {
            return ;
        }
        let ghost before = out@;
        let lane = self.lane(j);
        let len = lane.len();
        let ghost whole = self.finish_lane(lower, j as int, 0, before);
        let mut k: usize = 0;
        while k < len
            invariant
                self.wf(),
                self.reaches_lanes_only(lower, b),
                j < self.spec_major_dim(),
                self.reaches(lower, b, j as int),
                lane@ == self.spec_lane(j as int),
                len == lane@.len(),
                0 <= k <= len,
                before == old(out)@,
                out@.len() >= before.len(),
                forall|e: int| 0 <= e < before.len() ==> #[trigger] out@[e] == before[e],
                forall|e: int|
                    before.len() <= e < out@.len() ==> Self::follows(
                        lower,
                        j as int,
                        (#[trigger] out@[e]) as int,
                    ),
                !holds_vertex(before, j as int),
                self.finished_ok(lower, b, out@),
                self.finish_lane(lower, j as int, k as int, out@) == whole,
                forall|x: int|
                    0 <= x < len && (if lower {
                        x < k
                    } else {
                        x >= len - k
                    }) && Self::follows(lower, j as int, lane@[x] as int) ==> holds_vertex(
                        out@,
                        #[trigger] lane@[x] as int,
                    ),
            decreases len - k,
        {
            let x = if lower {
                k
            } else {
                len - 1 - k
            };
            let i = lane[x];
            let follow = if lower {
                i > j
            } else {
                i < j
            };
            let ghost mid = out@;
            if follow {
                proof {
                    self.lemma_lane_edge(lower, j as int, x as int);
                    self.lemma_reaches_step(lower, b, j as int, i as int);
                }
                self.finish_from(lower, i, out, Ghost(b));
                proof {
                    assert forall|e: int| before.len() <= e < out@.len() implies Self::follows(
                        lower,
                        j as int,
                        (#[trigger] out@[e]) as int,
                    ) by {
                        if e < mid.len() {
                            assert(out@[e] == mid[e]);
                        }
                    }
                }
            }
            proof {
                assert forall|y: int|
                    0 <= y < len && (if lower {
                        y < k + 1
                    } else {
                        y >= len - (k + 1)
                    }) && Self::follows(lower, j as int, lane@[y] as int) implies holds_vertex(
                    out@,
                    #[trigger] lane@[y] as int,
                ) by {
                    if y != x {
                        assert(holds_vertex(mid, lane@[y] as int));
                        let e = choose|e: int|
                            0 <= e < mid.len() && #[trigger] mid[e] as int == lane@[y] as int;
                        assert(out@[e] == mid[e]);
                    }
                }
                assert(self.finish_lane(lower, j as int, k as int, mid) == self.finish_lane(
                    lower,
                    j as int,
                    k + 1,
                    out@,
                ));
            }
            k += 1;
        }
        proof {
            assert(!holds_vertex(out@, j as int)) by {
                if holds_vertex(out@, j as int) {
                    let e = choose|e: int| 0 <= e < out@.len() && #[trigger] out@[e] as int == j as int;
                    if e < before.len() {
                        assert(before[e] == out@[e]);
                    }
                }
            }
            self.lemma_finish_push(lower, b, out@, j);
            assert(out@ == whole);
        }
        let ghost walked = out@;
        out.push(j);
        proof {
            assert(out@[walked.len() as int] as int == j as int);
        }
    }

    /// Finished vertices that hold the start vertices hold every vertex
    /// reached from them.
    proof fn lemma_finished_holds_reached(
        &self,
        lower: bool,
        b: Seq<usize>,
        post: Seq<usize>,
        v: int,
    )
        requires
            self.finished_ok(lower, b, post),
            forall|t: int| 0 <= t < b.len() ==> holds_vertex(post, #[trigger] b[t] as int),
            self.reaches(lower, b, v),
        ensures
            holds_vertex(post, v),
    {
        let p = choose|p: Seq<int>|
            #![trigger self.is_path(lower, p)]
            self.is_path(lower, p) && p.last() == v && exists|t: int|
                0 <= t < b.len() && #[trigger] b[t] == p[0];
        let inside = |x: int| holds_vertex(post, x);
        assert forall|x: int, w: int| inside(x) && #[trigger] self.edge(lower, x, w) implies inside(
            w,
        ) by {
            let k = choose|k: int| 0 <= k < post.len() && #[trigger] post[k] as int == x;
            if w != x {
                assert(self.edge(lower, post[k] as int, w));
                assert(finished_before(post, k, w));
            }
        }
        self.lemma_closed_holds_path(lower, inside, p, p.len() - 1);
    }

    /// The finished vertices, the one finished last first, are in
    /// topological order.
    proof fn lemma_reversed_is_topological(&self, lower: bool, b: Seq<usize>, post: Seq<usize>)
        requires
            self.finished_ok(lower, b, post),
        ensures
            post.reverse().no_duplicates(),
            self.predecessors_first(lower, post.reverse()),
            forall|v: int| holds_vertex(post.reverse(), v) <==> holds_vertex(post, v),
    {
        let out = post.reverse();
        let m = post.len() as int;
        assert(out.len() == m);
        assert forall|x: int| 0 <= x < m implies #[trigger] out[x] == post[m - 1 - x] by {}
        assert forall|x: int, y: int| 0 <= x < m && 0 <= y < m && x != y implies out[x]
            != out[y] by {
            assert(out[x] == post[m - 1 - x] && out[y] == post[m - 1 - y]);
        }
        assert forall|x: int, y: int|
            0 <= x < out.len() && 0 <= y < out.len() && out[x] != out[y] && #[trigger] self.edge(
                lower,
                out[x] as int,
                out[y] as int,
            ) implies x < y by {
            let k = m - 1 - x;
            assert(out[x] == post[k] && out[y] == post[m - 1 - y]);
            assert(self.edge(lower, post[k] as int, out[y] as int));
            assert(finished_before(post, k, out[y] as int));
            let e = choose|e: int|
                0 <= e < k && e < post.len() && #[trigger] post[e] as int == out[y] as int;
            assert(post[e] == post[m - 1 - y]);
        }
        assert forall|v: int| holds_vertex(out, v) <==> holds_vertex(post, v) by {
            if holds_vertex(out, v) {
                let x = choose|x: int| 0 <= x < out.len() && #[trigger] out[x] as int == v;
                assert(post[m - 1 - x] as int == v);
            }
            if holds_vertex(post, v) {
                let k = choose|k: int| 0 <= k < post.len() && #[trigger] post[k] as int == v;
                assert(out[m - 1 - k] == post[m - 1 - (m - 1 - k)]);
                assert(out[m - 1 - k] as int == v);
            }
        }
    }

    /// Searches from each vertex of `b` in turn, and puts the vertices
    /// finished in the opposite order.
    fn search(&self, lower: bool, b: &[usize], out: &mut Vec<usize>)
        requires
            self.wf(),
            self.reaches_lanes_only(lower, b@),
        ensures
            final(out)@ == self.search_order(lower, b@),
            final(out)@.no_duplicates(),
            forall|v: int| holds_vertex(final(out)@, v) <==> self.reaches(lower, b@, v),
            self.predecessors_first(lower, final(out)@),
    {
        out.clear();
        proof {
            self.lemma_starts_are_lanes(lower, b@);
        }
        let mut t: usize = 0;
        while t < b.len()
            invariant
                self.wf(),
                self.reaches_lanes_only(lower, b@),
                forall|e: int| 0 <= e < b@.len() ==> (#[trigger] b@[e]) < self.spec_major_dim(),
                0 <= t <= b@.len(),
                out@ == self.search_finished(lower, b@, t as int),
                self.finished_ok(lower, b@, out@),
                forall|e: int| 0 <= e < t ==> holds_vertex(out@, #[trigger] b@[e] as int),
            decreases b@.len() - t,
        {
            let ghost mid = out@;
            proof {
                self.lemma_reaches_start(lower, b@, t as int);
            }
            self.finish_from(lower, b[t], out, Ghost(b@));
            proof {
                assert forall|e: int| 0 <= e < t + 1 implies holds_vertex(
                    out@,
                    #[trigger] b@[e] as int,
                ) by {
                    if e < t {
                        let w = choose|w: int|
                            0 <= w < mid.len() && #[trigger] mid[w] as int == b@[e] as int;
                        assert(out@[w] == mid[w]);
                    }
                }
            }
            t += 1;
        }
        let ghost post = out@;
        proof {
            self.lemma_reversed_is_topological(lower, b@, post);
            assert forall|v: int| holds_vertex(post, v) <==> self.reaches(lower, b@, v) by {
                if holds_vertex(post, v) {
                    let k = choose|k: int| 0 <= k < post.len() && #[trigger] post[k] as int == v;
                    assert(self.reaches(lower, b@, post[k] as int));
                }
                if self.reaches(lower, b@, v) {
                    self.lemma_finished_holds_reached(lower, b@, post, v);
                }
            }
        }
        reverse_in_place(out);
        proof {
            assert forall|v: int| holds_vertex(out@, v) <==> self.reaches(lower, b@, v) by {
                assert(holds_vertex(post.reverse(), v) <==> holds_vertex(post, v));
                assert(holds_vertex(post, v) <==> self.reaches(lower, b@, v));
            }
        }
    }

    /// Computes the output sparsity pattern of `x` in `Ax = b`.
    /// where A's nonzero pattern is given by `self` and the non-zero indices
    /// of vector `b` are specified as a slice.
    /// The output is not necessarily in sorted order, but is topological sort order:
    /// each index comes before every other index that it leads to.
    /// Treats `self` as lower triangular, even if there are elements in the upper triangle.
    /// Acts as if b is one major lane (i.e. CSC matrix and one column)
    pub fn sparse_lower_triangular_solve(&self, b: &[usize], out: &mut Vec<usize>)
        requires
            self.wf(),
            self.reaches_lanes_only(true, b@),
        ensures
            final(out)@.no_duplicates(),
            forall|v: int| holds_vertex(final(out)@, v) <==> self.reaches(true, b@, v),
            self.predecessors_first(true, final(out)@),
            final(out)@ == self.search_order(true, b@),
    {
        self.search(true, b, out)
    }

    /// Computes the output sparsity pattern of `x` in `Ax = b`.
    /// where A's nonzero pattern is given by `self` and the non-zero indices
    /// of vector `b` are specified as a slice.
    /// The output is not necessarily in sorted order, but is topological sort order:
    /// each index comes before every other index that it leads to.
    /// Treats `self` as upper triangular, even if there are elements in the lower triangle.
    /// Acts as if b is one major lane (i.e. CSC matrix and one column)
    pub fn sparse_upper_triangular_solve(&self, b: &[usize], out: &mut Vec<usize>)
        requires
            self.wf(),
            forall|t: int| 0 <= t < b@.len() ==> (#[trigger] b@[t]) < self.spec_major_dim(),
        ensures
            final(out)@.no_duplicates(),
            forall|v: int| holds_vertex(final(out)@, v) <==> self.reaches(false, b@, v),
            self.predecessors_first(false, final(out)@),
            final(out)@ == self.search_order(false, b@),
    {
        proof {
            self.lemma_upper_reaches_lanes(b@);
        }
        self.search(false, b, out)
    }

    /// What holds of the marks and the stack during a search from `b`: there
    /// is one mark for each lane, and every marked vertex and every vertex
    /// on the stack is a lane of the pattern and reached from `b`.
    pub open spec fn marks_ok(&self, b: Seq<usize>, out: Seq<bool>, stack: Seq<u32>) -> bool {
        &&& out.len() == self.spec_major_dim()
        &&& forall|v: int| 0 <= v < out.len() && #[trigger] out[v] ==> self.reaches(true, b, v)
        &&& forall|s: int|
            0 <= s < stack.len() ==> (#[trigger] stack[s]) < out.len() && self.reaches(
                true,
                b,
                stack[s] as int,
            )
    }

    /// Whether every successor of a marked vertex other than `skip` is
    /// marked or waits on the stack.
    pub open spec fn closed_to(&self, out: Seq<bool>, stack: Seq<u32>, skip: int) -> bool {
        forall|v: int, w: int|
            0 <= v < out.len() && out[v] && v != skip && #[trigger] self.edge(true, v, w)
                ==> pending(out, stack, w)
    }

    /// Pushing a reached vertex keeps the marks and the stack in order.
    proof fn lemma_stack_push(
        &self,
        b: Seq<usize>,
        out: Seq<bool>,
        stack: Seq<u32>,
        skip: int,
        i: u32,
    )
        requires
            self.marks_ok(b, out, stack),
            self.closed_to(out, stack, skip),
            i < out.len(),
            self.reaches(true, b, i as int),
        ensures
            self.marks_ok(b, out, stack.push(i)),
            self.closed_to(out, stack.push(i), skip),
            pending(out, stack.push(i), i as int),
            forall|w: int| pending(out, stack, w) ==> pending(out, stack.push(i), w),
    {
        let grown = stack.push(i);
        assert(grown[stack.len() as int] as int == i as int);
        assert forall|w: int| pending(out, stack, w) implies pending(out, grown, w) by {
            if !(0 <= w < out.len() && out[w]) {
                let s = choose|s: int| 0 <= s < stack.len() && #[trigger] stack[s] as int == w;
                assert(grown[s] as int == w);
            }
        }
        assert forall|s: int| 0 <= s < grown.len() implies (#[trigger] grown[s]) < out.len()
            && self.reaches(true, b, grown[s] as int) by {
            if s < stack.len() {
                assert(grown[s] == stack[s]);
            }
        }
    }

    /// Popping a vertex and marking it keeps the marks and the stack in
    /// order, but for the successors of that vertex if it was not marked.
    proof fn lemma_stack_pop(&self, b: Seq<usize>, out: Seq<bool>, stack: Seq<u32>)
        requires
            self.marks_ok(b, out, stack),
            self.closed_to(out, stack, -1),
            stack.len() > 0,
        ensures
            self.marks_ok(b, out.update(stack.last() as int, true), stack.drop_last()),
            self.closed_to(
                out.update(stack.last() as int, true),
                stack.drop_last(),
                if out[stack.last() as int] {
                    -1
                } else {
                    stack.last() as int
                },
            ),
            forall|w: int|
                pending(out, stack, w) ==> pending(
                    out.update(stack.last() as int, true),
                    stack.drop_last(),
                    w,
                ),
    {
        let j = stack.last() as int;
        let marked = out.update(j, true);
        let rest = stack.drop_last();
        assert(stack[stack.len() - 1] < out.len());
        assert forall|w: int| pending(out, stack, w) implies pending(marked, rest, w) by {
            if !(0 <= w < out.len() && out[w]) {
                let s = choose|s: int| 0 <= s < stack.len() && #[trigger] stack[s] as int == w;
                if s < rest.len() {
                    assert(rest[s] as int == w);
                }
            }
        }
        assert forall|v: int| 0 <= v < marked.len() && #[trigger] marked[v] implies self.reaches(
            true,
            b,
            v,
        ) by {
            if v != j {
                assert(out[v]);
            }
        }
        assert forall|s: int| 0 <= s < rest.len() implies (#[trigger] rest[s]) < marked.len()
            && self.reaches(true, b, rest[s] as int) by {
            assert(rest[s] == stack[s]);
        }
        let skip = if out[j] {
            -1
        } else {
            j
        };
        assert forall|v: int, w: int|
            0 <= v < marked.len() && marked[v] && v != skip && #[trigger] self.edge(
                true,
                v,
                w,
            ) implies pending(marked, rest, w) by {
            assert(out[v]);
            assert(pending(out, stack, w));
        }
    }

    /// Once every successor of `j` is marked or waits on the stack, `j` need
    /// no longer be left out.
    proof fn lemma_stack_close(&self, out: Seq<bool>, stack: Seq<u32>, j: int)
        requires
            self.wf(),
            0 <= j < self.spec_major_dim(),
            self.closed_to(out, stack, j),
            forall|x: int|
                0 <= x < self.spec_lane(j).len() && self.spec_lane(j)[x] >= j ==> pending(
                    out,
                    stack,
                    #[trigger] self.spec_lane(j)[x] as int,
                ),
        ensures
            self.closed_to(out, stack, -1),
    {
        assert forall|v: int, w: int|
            0 <= v < out.len() && out[v] && v != -1 && #[trigger] self.edge(
                true,
                v,
                w,
            ) implies pending(out, stack, w) by {
            if v == j {
                assert(self.offsets()[j] <= self.offsets()[j + 1]);
                assert(self.offsets()[j + 1] <= self.offsets()[self.offsets().len() - 1]);
                let pos = choose|pos: int|
                    self.offsets()[j] <= pos < self.offsets()[j + 1]
                        && #[trigger] self.indices()[pos] == w;
                let y = pos - self.offsets()[j];
                assert(self.spec_lane(j)[y] == self.indices()[pos]);
                assert(pending(out, stack, self.spec_lane(j)[y] as int));
            }
        }
    }

    /// Marks that hold the start vertices and every successor of a marked
    /// vertex hold every vertex reached from the start vertices.
    proof fn lemma_marks_hold_reached(&self, b: Seq<usize>, out: Seq<bool>, v: int)
        requires
            self.closed_to(out, Seq::empty(), -1),
            forall|t: int| 0 <= t < b.len() ==> (#[trigger] b[t]) < out.len() && out[b[t] as int],
            self.reaches(true, b, v),
        ensures
            0 <= v < out.len() && out[v],
    {
        let p = choose|p: Seq<int>|
            #![trigger self.is_path(true, p)]
            self.is_path(true, p) && p.last() == v && exists|t: int|
                0 <= t < b.len() && #[trigger] b[t] == p[0];
        let inside = |x: int| 0 <= x < out.len() && out[x];
        assert forall|x: int, w: int| inside(x) && #[trigger] self.edge(true, x, w) implies inside(
            w,
        ) by {
            assert(pending(out, Seq::<u32>::empty(), w));
        }
        self.lemma_closed_holds_path(true, inside, p, p.len() - 1);
    }

    /// Computes the output sparsity pattern of `x` in `Ax = b`.
    /// where A's nonzero pattern is given by `self` and the non-zero indices
    /// of vector `b` are specified as a slice.
    /// The output marks, for each index, whether it belongs to the pattern;
    /// `stack` is working storage.
    /// Treats `self` as lower triangular, even if there are elements in the upper triangle.
    /// Acts as if b is one major lane (i.e. CSC matrix and one column)
    pub fn sparse_lower_triangular_solve_bool(
        &self,
        b: &[usize],
        out: &mut Vec<bool>,
        stack: &mut Vec<u32>,
    )
        requires
            self.wf(),
            self.reaches_lanes_only(true, b@),
            self.spec_major_dim() <= u32::MAX,
            old(out)@.len() == self.spec_major_dim(),
        ensures
            final(out)@.len() == self.spec_major_dim(),
            forall|v: int|
                0 <= v < self.spec_major_dim() ==> (#[trigger] final(out)@[v] <==> self.reaches(
                    true,
                    b@,
                    v,
                )),
            final(stack)@.len() == 0,
    {
        let n = out.len();
        proof {
            self.lemma_starts_are_lanes(true, b@);
        }
        let mut v: usize = 0;
        while v < n
            invariant
                out@.len() == n,
                0 <= v <= n,
                forall|e: int| 0 <= e < v ==> !out@[e],
            decreases n - v,
        {
            out[v] = false;
            v += 1;
        }
        stack.clear();
        let mut t: usize = 0;
        while t < b.len()
            invariant
                self.wf(),
                self.reaches_lanes_only(true, b@),
                self.spec_major_dim() <= u32::MAX,
                n == self.spec_major_dim(),
                forall|t: int| 0 <= t < b@.len() ==> (#[trigger] b@[t]) < self.spec_major_dim(),
                0 <= t <= b@.len(),
                stack@.len() == 0,
                self.marks_ok(b@, out@, stack@),
                self.closed_to(out@, stack@, -1),
                forall|e: int| 0 <= e < t ==> out@[(#[trigger] b@[e]) as int],
            decreases b@.len() - t,
        {
            let start = b[t];
            proof {
                self.lemma_reaches_start(true, b@, t as int);
                self.lemma_stack_push(b@, out@, stack@, -1, start as u32);
            }
            stack.push(start as u32);
            while stack.len() > 0
                invariant
                    self.wf(),
                    self.reaches_lanes_only(true, b@),
                    self.spec_major_dim() <= u32::MAX,
                    n == self.spec_major_dim(),
                    0 <= t < b@.len(),
                    start == b@[t as int],
                    self.marks_ok(b@, out@, stack@),
                    self.closed_to(out@, stack@, -1),
                    forall|e: int| 0 <= e < t ==> out@[(#[trigger] b@[e]) as int],
                    forall|e: int| 0 <= e < b@.len() ==> (#[trigger] b@[e]) < n,
                    pending(out@, stack@, start as int),
                decreases count_false(out@), stack@.len(),
            {
                let ghost out0 = out@;
                let ghost stack0 = stack@;
                proof {
                    self.lemma_stack_pop(b@, out0, stack0);
                }
                let j = stack.pop().unwrap() as usize;
                if !out[j] {
                    proof {
                        lemma_count_false_set(out0, j as int);
                    }
                    out[j] = true;
                    let lane = self.lane(j);
                    let len = lane.len();
                    let mut k: usize = 0;
                    while k < len
                        invariant
                            self.wf(),
                            self.reaches_lanes_only(true, b@),
                            self.spec_major_dim() <= u32::MAX,
                            n == self.spec_major_dim(),
                            j < n,
                            out@ == out0.update(j as int, true),
                            self.reaches(true, b@, j as int),
                            lane@ == self.spec_lane(j as int),
                            len == lane@.len(),
                            0 <= k <= len,
                            self.marks_ok(b@, out@, stack@),
                            self.closed_to(out@, stack@, j as int),
                            pending(out@, stack@, start as int),
                            forall|x: int|
                                0 <= x < k && lane@[x] >= j ==> pending(
                                    out@,
                                    stack@,
                                    #[trigger] lane@[x] as int,
                                ),
                        decreases len - k,
                    {
                        let i = lane[k];
                        if i >= j {
                            proof {
                                self.lemma_lane_edge(true, j as int, k as int);
                                self.lemma_reaches_step(true, b@, j as int, i as int);
                                self.lemma_stack_push(b@, out@, stack@, j as int, i as u32);
                            }
                            stack.push(i as u32);
                        }
                        k += 1;
                    }
                    proof {
                        self.lemma_stack_close(out@, stack@, j as int);
                    }
                } else {
                    assert(out@ =~= out0.update(j as int, true));
                }
            }
            proof {
                assert(out@[start as int]);
            }
            t += 1;
        }
        proof {
            assert(stack@ =~= Seq::<u32>::empty());
            assert forall|v: int| 0 <= v < self.spec_major_dim() implies (#[trigger] out@[v]
                <==> self.reaches(true, b@, v)) by {
                if self.reaches(true, b@, v) {
                    self.lemma_marks_hold_reached(b@, out@, v);
                }
            }
        }
    }

}

} // verus!
