use crate::builder::{lemma_keep_upto_all, BuilderModel};
use crate::csc::{is_diagonal, Csc, CscBuilder};
use crate::reach::holds_vertex;
use crate::resort::{
    lemma_relabel_almost, lemma_relabelled_lane_moved, lemma_same_pairs_trans, pair_in,
    pair_in_relabelled, pass_down, pass_up, relabel, relabelled_lane,
};
use crate::scalar::{abs_lt_test, finite_test, is_quotient, zero_test, Scalar};
use crate::triangular::component;
use vstd::prelude::*;

verus! {

/// Why a factorization failed, with the column at which it did.
#[derive(Debug, Copy, Clone, PartialEq, Eq, Structural)]
pub enum FactorizationError {
    /// The column offers no pivot on or below the diagonal, or the pivot
    /// chosen is exactly zero.
    RankDeficient(usize),
    /// A value of the column is not finite.
    NotFinite(usize),
}

/// Whether `pat` ascends strictly.
pub open spec fn ascending(pat: Seq<usize>) -> bool {
    forall|i: int, j: int| #![trigger pat[i], pat[j]] 0 <= i < j < pat.len() ==> pat[i] < pat[j]
}

/// Whether `choice` holds the choice of a pivot after each entry of a
/// column: none at first, written `-1`, and then as `picked` says.
pub open spec fn is_choice_trace<T: Scalar>(
    pat: Seq<usize>,
    val: Seq<T>,
    ci: int,
    choice: Seq<int>,
) -> bool {
    &&& choice.len() == pat.len() + 1
    &&& choice[0] == -1
    &&& forall|k: int|
        0 <= k < pat.len() ==> #[trigger] picked(pat, val, ci, k, choice[k], choice[k + 1])
}

/// The choice of a pivot for column `ci`: `best` is the position of the
/// first entry, among those on or below the diagonal, that no later one was
/// found larger than in absolute value, or `-1` where there is no entry on or
/// below the diagonal.
pub open spec fn first_largest<T: Scalar>(pat: Seq<usize>, val: Seq<T>, ci: int, best: int) -> bool {
    exists|choice: Seq<int>|
        #[trigger] is_choice_trace(pat, val, ci, choice) && choice[pat.len() as int] == best
}

/// How entry `k` changes the choice: an entry above the diagonal leaves it;
/// the first entry on or below the diagonal is chosen; a later one is chosen
/// where the choice so far compares smaller in absolute value.
pub open spec fn picked<T: Scalar>(
    pat: Seq<usize>,
    val: Seq<T>,
    ci: int,
    k: int,
    prev: int,
    best: int,
) -> bool {
    if pat[k] < ci {
        best == prev
    } else if prev < 0 {
        best == k
    } else {
        exists|smaller: bool|
            #[trigger] abs_lt_test(val[prev], val[k], smaller) && best == if smaller {
                k
            } else {
                prev
            }
    }
}

/// What is stored for a value `v` of column `ci` at `row`: below the
/// diagonal the value divided by the pivot, elsewhere the value.
pub open spec fn emitted<T: Scalar>(v: T, pivot: T, row: int, ci: int, out: T) -> bool {
    if row > ci {
        is_quotient(v, pivot, out)
    } else {
        out == v
    }
}

/// The indices that `marks` marks, ascending.
fn marked_indices(marks: &Vec<bool>, out: &mut Vec<usize>)
    ensures
        ascending(final(out)@),
        forall|k: int| 0 <= k < final(out)@.len() ==> (#[trigger] final(out)@[k]) < marks@.len(),
        forall|v: int|
            0 <= v < marks@.len() ==> (#[trigger] holds_vertex(final(out)@, v) <==> marks@[v]),
{
    out.clear();
    let mut i: usize = 0;
    while i < marks.len()
        invariant
            0 <= i <= marks@.len(),
            ascending(out@),
            forall|k: int| 0 <= k < out@.len() ==> (#[trigger] out@[k]) < i,
            forall|v: int| 0 <= v < i ==> (holds_vertex(out@, v) <==> marks@[v]),
        decreases marks@.len() - i,
    {
        let ghost before = out@;
        if marks[i] {
            out.push(i);
            proof {
                assert(out@[before.len() as int] as int == i);
                assert forall|v: int| 0 <= v < i + 1 implies (holds_vertex(out@, v) <==> marks@[v]) by {
                    if v < i {
                        if holds_vertex(before, v) {
                            let k = choose|k: int|
                                0 <= k < before.len() && #[trigger] before[k] as int == v;
                            assert(out@[k] == before[k]);
                        }
                        if holds_vertex(out@, v) {
                            let k = choose|k: int| 0 <= k < out@.len() && #[trigger] out@[k] as int == v;
                            assert(before[k] == out@[k]);
                        }
                    }
                }
                assert forall|a: int, b: int|
                    #![trigger out@[a], out@[b]]
                    0 <= a < b < out@.len() implies out@[a] < out@[b] by {
                    assert(out@[a] == before[a]);
                    if b < before.len() {
                        assert(out@[b] == before[b]);
                    }
                }
            }
        } else {
            proof {
                assert forall|v: int| 0 <= v < i + 1 implies (holds_vertex(out@, v) <==> marks@[v]) by {
                    if holds_vertex(out@, v) {
                        let k = choose|k: int| 0 <= k < out@.len() && #[trigger] out@[k] as int == v;
                        assert(out@[k] < i);
                    }
                }
            }
        }
        i += 1;
    }
}

/// Chooses the pivot of column `ci`: the first of the entries on or below
/// the diagonal that are largest in absolute value.
fn choose_pivot<T: Scalar>(pat: &Vec<usize>, val: &Vec<T>, ci: usize) -> (r: Option<usize>)
    requires
        pat@.len() == val@.len(),
    ensures
        first_largest(
            pat@,
            val@,
            ci as int,
            match r {
                Some(k) => k as int,
                None => -1,
            },
        ),
        r matches Some(k) ==> k < pat@.len() && pat@[k as int] >= ci,
{
    let mut best: Option<usize> = None;
    let ghost mut choice: Seq<int> = seq![-1int];
    let mut k: usize = 0;
    while k < pat.len()
        invariant
            0 <= k <= pat@.len(),
            pat@.len() == val@.len(),
            choice.len() == k + 1,
            choice[0] == -1,
            choice[k as int] == match best {
                Some(b) => b as int,
                None => -1,
            },
            forall|e: int|
                0 <= e < k ==> #[trigger] picked(pat@, val@, ci as int, e, choice[e], choice[e + 1]),
            best matches Some(b) ==> b < k && pat@[b as int] >= ci,
        decreases pat@.len() - k,
    {
        let ghost prev = choice[k as int];
        if pat[k] >= ci {
            match best {
                None => {
                    best = Some(k);
                },
                Some(b) => {
                    let smaller = val[b].abs_lt(val[k]);
                    proof {
                        assert(abs_lt_test(val@[b as int], val@[k as int], smaller));
                    }
                    if smaller {
                        best = Some(k);
                    }
                },
            }
        }
        proof {
            let now = match best {
                Some(b) => b as int,
                None => -1,
            };
            assert(picked(pat@, val@, ci as int, k as int, prev, now));
            let grown = choice.push(now);
            assert forall|e: int| 0 <= e < k + 1 implies #[trigger] picked(
                pat@,
                val@,
                ci as int,
                e,
                grown[e],
                grown[e + 1],
            ) by {
                if e < k {
                    assert(grown[e] == choice[e] && grown[e + 1] == choice[e + 1]);
                    assert(picked(pat@, val@, ci as int, e, choice[e], choice[e + 1]));
                }
            }
            choice = grown;
        }
        k += 1;
    }
    proof {
        assert(is_choice_trace(pat@, val@, ci as int, choice));
    }
    best
}

/// Exchanges the rows `a` and `b` in the pattern of a column and puts it
/// back in ascending order, its values moving with their rows.
fn exchange_in_column<T>(pat: &mut Vec<usize>, val: &mut Vec<T>, a: usize, b: usize)
    requires
        old(pat)@.len() == old(val)@.len(),
        ascending(old(pat)@),
    ensures
        final(pat)@.len() == old(pat)@.len(),
        final(val)@.len() == old(val)@.len(),
        ascending(final(pat)@),
        relabelled_lane(
            old(pat)@,
            old(val)@,
            final(pat)@,
            final(val)@,
            0,
            old(pat)@.len() as int,
            a as int,
            b as int,
        ),
{
    let ghost pat0 = pat@;
    let ghost val0 = val@;
    let count = pat.len();
    let mut k: usize = 0;
    while k < count
        invariant
            0 <= k <= count,
            count == pat0.len(),
            pat@.len() == count,
            val@ == val0,
            forall|x: int|
                0 <= x < k ==> (#[trigger] pat@[x]) == relabel(pat0[x] as int, a as int, b as int),
            forall|x: int| k <= x < count ==> #[trigger] pat@[x] == pat0[x],
        decreases count - k,
    {
        let row = pat[k];
        if row == a {
            pat[k] = b;
        } else if row == b {
            pat[k] = a;
        }
        k += 1;
    }
    let ghost pat1 = pat@;
    let ghost marks = lemma_relabel_almost(pat0, pat1, 0, count as int, a, b);
    let lo = pass_up(pat, val, 0, count, Ghost(marks.0), Ghost(marks.1));
    let ghost pat2 = pat@;
    let ghost val2 = val@;
    pass_down(pat, val, 0, count, lo);
    proof {
        lemma_same_pairs_trans(pat1, val0, pat2, val2, pat@, val@, 0, count as int);
        lemma_relabelled_lane_moved(
            pat0,
            val0,
            pat1,
            val0,
            pat@,
            val@,
            0,
            count as int,
            a as int,
            b as int,
        );
    }
}

/// The state of a factorization between two columns: the factor so far,
/// the matrix with the rows exchanged so far, and the pivot vector.
pub struct FactorState<T> {
    pub lu: Csc<T>,
    pub a: Csc<T>,
    pub pivot: Seq<usize>,
}

/// Whether `pat` holds, ascending, the columns of `lu` that are reached from
/// `rows` in the graph of its lower triangle.
pub open spec fn is_reach_pattern<T>(lu: Csc<T>, rows: Seq<usize>, pat: Seq<usize>) -> bool {
    &&& ascending(pat)
    &&& forall|k: int| 0 <= k < pat.len() ==> (#[trigger] pat[k]) < lu.spec_ncols()
    &&& forall|v: int|
        0 <= v < lu.spec_ncols() ==> (#[trigger] holds_vertex(pat, v)
            <==> lu.matrix().spec_pattern().reaches(true, rows, v))
}

/// Whether the value that column `ci` of `lu` stores for entry `k` of the
/// solved column is what `emitted` says, and has tested finite. The entry's
/// row is that of the pattern, with the diagonal and the pivot's row
/// exchanged.
pub open spec fn column_value<T: Scalar>(
    lu: Csc<T>,
    pat: Seq<usize>,
    val: Seq<T>,
    best: int,
    ci: int,
    k: int,
) -> bool {
    let row = relabel(pat[k] as int, ci, pat[best] as int);
    &&& emitted(val[k], val[best], row, ci, lu.value_at(row, ci))
    &&& finite_test(lu.value_at(row, ci), true)
}

/// Whether `out` is what would be stored for entry `k` of the solved column,
/// and has tested not finite.
pub open spec fn value_rejected<T: Scalar>(
    pat: Seq<usize>,
    val: Seq<T>,
    best: int,
    ci: int,
    k: int,
    out: T,
) -> bool {
    &&& 0 <= k < pat.len()
    &&& emitted(val[k], val[best], relabel(pat[k] as int, ci, pat[best] as int), ci, out)
    &&& finite_test(out, false)
}

/// Whether column `ci` takes the state `s` to `t`, with `pat` and `val` the
/// pattern and the values of the solved column, and `best` the position of
/// the pivot in them:
/// the pattern is the set reached from the rows of column `ci` of the matrix;
/// the values solve that column against the factor so far, with a unit
/// diagonal; the pivot is the first largest entry on or below the diagonal
/// and has tested non-zero; the diagonal and the pivot's row are exchanged
/// in the pivot vector, in the matrix and in the factor so far; and the
/// factor gains column `ci`, which stores every entry of the solved column,
/// those below the diagonal divided by the pivot.
pub open spec fn column_done<T: Scalar>(
    ci: int,
    s: FactorState<T>,
    t: FactorState<T>,
    pat: Seq<usize>,
    val: Seq<T>,
    best: int,
) -> bool {
    let row = pat[best] as int;
    &&& is_reach_pattern(s.lu, s.a.spec_col_rows(ci), pat)
    &&& val.len() == pat.len()
    &&& s.lu.sparse_solves(true, s.a.spec_col_rows(ci), s.a.spec_col_values(ci), pat, val)
    &&& 0 <= best < pat.len()
    &&& pat[best] >= ci
    &&& first_largest(pat, val, ci, best)
    &&& zero_test(val[best], false)
    &&& t.pivot == s.pivot.update(ci, s.pivot[row]).update(row, s.pivot[ci])
    &&& t.a.wf()
    &&& t.a.matrix().swapped_from(s.a.matrix(), ci, row)
    &&& t.lu.wf()
    &&& t.lu.spec_nrows() == s.lu.spec_nrows()
    &&& t.lu.spec_ncols() == s.lu.spec_ncols()
    &&& forall|r: int, c: int|
        c != ci ==> (#[trigger] t.lu.has(r, c) <==> s.lu.has(relabel(r, ci, row), c))
    &&& forall|r: int, c: int|
        c != ci && t.lu.has(r, c) ==> #[trigger] t.lu.value_at(r, c) == s.lu.value_at(
            relabel(r, ci, row),
            c,
        )
    &&& forall|r: int| #[trigger] t.lu.has(r, ci) <==> holds_vertex(pat, relabel(r, ci, row))
    &&& forall|k: int| 0 <= k < pat.len() ==> #[trigger] column_value(t.lu, pat, val, best, ci, k)
}

/// Whether column `ci` fails in the state `s` with the error `e`: there is no
/// entry on or below the diagonal, or the pivot has tested zero, or a value
/// to be stored has tested not finite.
pub open spec fn column_failed<T: Scalar>(
    ci: int,
    s: FactorState<T>,
    e: FactorizationError,
    pat: Seq<usize>,
    val: Seq<T>,
    best: int,
) -> bool {
    &&& is_reach_pattern(s.lu, s.a.spec_col_rows(ci), pat)
    &&& val.len() == pat.len()
    &&& s.lu.sparse_solves(true, s.a.spec_col_rows(ci), s.a.spec_col_values(ci), pat, val)
    &&& -1 <= best < pat.len()
    &&& first_largest(pat, val, ci, best)
    &&& if best < 0 {
        e == FactorizationError::RankDeficient(ci as usize)
    } else {
        ||| e == FactorizationError::RankDeficient(ci as usize) && zero_test(val[best], true)
        ||| e == FactorizationError::NotFinite(ci as usize) && zero_test(val[best], false)
            && exists|k: int, out: T| #[trigger] value_rejected(pat, val, best, ci, k, out)
    }
}

/// Whether column `ci` takes the state `s` to `t`.
pub open spec fn column_ok<T: Scalar>(ci: int, s: FactorState<T>, t: FactorState<T>) -> bool {
    exists|pat: Seq<usize>, val: Seq<T>, best: int| #[trigger] column_done(ci, s, t, pat, val, best)
}

/// Whether column `ci` fails in the state `s` with the error `e`.
pub open spec fn column_fails<T: Scalar>(ci: int, s: FactorState<T>, e: FactorizationError) -> bool {
    exists|pat: Seq<usize>, val: Seq<T>, best: int|
        #[trigger] column_failed(ci, s, e, pat, val, best)
}

/// What holds of the state before column `ci` of a factorization of size
/// `n`: the factor and the matrix are `n` by `n`, the factor stores nothing
/// in column `ci` or after it, and the pivot vector holds each of `0..n`
/// once.
pub open spec fn state_ok<T>(n: int, ci: int, s: FactorState<T>) -> bool {
    &&& s.lu.wf()
    &&& s.lu.spec_nrows() == n
    &&& s.lu.spec_ncols() == n
    &&& s.a.wf()
    &&& s.a.spec_nrows() == n
    &&& s.a.spec_ncols() == n
    &&& s.pivot.len() == n
    &&& s.pivot.no_duplicates()
    &&& forall|i: int| 0 <= i < n ==> (#[trigger] s.pivot[i]) < n
    &&& forall|k: int| 0 <= k < s.lu.spec_entries().len() ==> (#[trigger] s.lu.spec_entries()[k]).0 < ci
}

/// A matrix is itself with a row exchanged with itself.
pub(crate) proof fn lemma_swapped_with_itself<T>(m: Csc<T>, x: int)
    ensures
        m.matrix().swapped_from(m.matrix(), x, x),
{
    assert forall|major: int, minor: int| #[trigger]
        m.matrix().has(major, minor) implies m.matrix().has(major, relabel(minor, x, x))
        && m.matrix().value_at(major, relabel(minor, x, x)) == m.matrix().value_at(major, minor) by {
        assert(relabel(minor, x, x) == minor);
    }
}

/// The factor with one more column stores what it stored, and the new
/// column.
pub(crate) proof fn lemma_column_added<T>(
    before: Csc<T>,
    after: Csc<T>,
    ci: int,
    pat: Seq<usize>,
    outs: Seq<T>,
)
    requires
        before.wf(),
        after.wf(),
        after.spec_nrows() == before.spec_nrows(),
        after.spec_ncols() == before.spec_ncols(),
        0 <= ci < before.spec_ncols(),
        outs.len() == pat.len(),
        forall|k: int|
            0 <= k < before.spec_entries().len() ==> (#[trigger] before.spec_entries()[k]).0 < ci,
        after.spec_entries() == before.spec_entries() + Seq::new(
            pat.len(),
            |k: int| (ci, pat[k] as int),
        ),
        after.spec_values() == before.spec_values() + outs,
    ensures
        forall|r: int, c: int| c != ci ==> (#[trigger] after.has(r, c) <==> before.has(r, c)),
        forall|r: int, c: int|
            c != ci && after.has(r, c) ==> #[trigger] after.value_at(r, c) == before.value_at(r, c),
        forall|r: int| #[trigger] after.has(r, ci) <==> holds_vertex(pat, r),
        forall|k: int| 0 <= k < pat.len() ==> #[trigger] after.value_at(pat[k] as int, ci) == outs[k],
        forall|k: int|
            0 <= k < after.spec_entries().len() ==> (#[trigger] after.spec_entries()[k]).0 < ci + 1,
{
    let eb = before.spec_entries();
    let ea = after.spec_entries();
    let col = Seq::new(pat.len(), |k: int| (ci, pat[k] as int));
    assert(eb.len() == before.spec_values().len()) by {
        if eb.len() > 0 {
            before.lemma_entry_lookup(0);
        } else {
            let p = before.matrix().spec_pattern();
            crate::builder::lemma_entries_upto(p.offsets(), p.indices(), p.spec_major_dim());
        }
    }
    assert forall|r: int, c: int| c != ci implies (#[trigger] after.has(r, c) <==> before.has(
        r,
        c,
    )) by {
        if after.has(r, c) {
            let k = after.lemma_has_entry(r, c);
            if k >= eb.len() {
                assert(ea[k] == col[k - eb.len()]);
            }
            assert(ea[k] == eb[k]);
            before.lemma_entry_lookup(k);
        }
        if before.has(r, c) {
            let k = before.lemma_has_entry(r, c);
            assert(ea[k] == eb[k]);
            after.lemma_entry_lookup(k);
        }
    }
    assert forall|r: int, c: int| c != ci && after.has(r, c) implies #[trigger] after.value_at(
        r,
        c,
    ) == before.value_at(r, c) by {
        let k = after.lemma_has_entry(r, c);
        if k >= eb.len() {
            assert(ea[k] == col[k - eb.len()]);
        }
        assert(ea[k] == eb[k]);
        before.lemma_entry_lookup(k);
        after.lemma_entry_lookup(k);
    }
    assert forall|r: int| #[trigger] after.has(r, ci) <==> holds_vertex(pat, r) by {
        if after.has(r, ci) {
            let k = after.lemma_has_entry(r, ci);
            if k < eb.len() {
                assert(ea[k] == eb[k]);
                assert(eb[k].0 < ci);
            }
            assert(ea[k] == col[k - eb.len()]);
            assert(pat[k - eb.len()] as int == r);
        }
        if holds_vertex(pat, r) {
            let k = choose|k: int| 0 <= k < pat.len() && #[trigger] pat[k] as int == r;
            assert(ea[eb.len() + k] == col[k]);
            after.lemma_entry_lookup(eb.len() + k);
        }
    }
    assert forall|k: int| 0 <= k < pat.len() implies #[trigger] after.value_at(pat[k] as int, ci)
        == outs[k] by {
        assert(ea[eb.len() + k] == col[k]);
        after.lemma_entry_lookup(eb.len() + k);
    }
    assert forall|k: int| 0 <= k < ea.len() implies (#[trigger] ea[k]).0 < ci + 1 by {
        if k < eb.len() {
            assert(ea[k] == eb[k]);
        } else {
            assert(ea[k] == col[k - eb.len()]);
        }
    }
}

/// Appends the solved column to the factor that the builder holds: each
/// value is divided by the pivot where its row lies below the diagonal, is
/// tested, and is stored if it is finite.
fn emit_column<T: Scalar>(
    builder: &mut CscBuilder<T>,
    pat: &Vec<usize>,
    val: &Vec<T>,
    ci: usize,
    pivot: T,
) -> (res: Result<(), FactorizationError>)
    requires
        old(builder).wf(),
        pat@.len() == val@.len(),
        ascending(pat@),
        ci < old(builder).model().major_dim,
        forall|k: int| 0 <= k < pat@.len() ==> (#[trigger] pat@[k]) < old(builder).model().minor_dim,
        old(builder).model().current == ci,
        forall|k: int|
            0 <= k < old(builder).model().entries.len() ==> (
            #[trigger] old(builder).model().entries[k]).0 < ci,
    ensures
        final(builder).wf(),
        match res {
            Ok(()) => {
                &&& final(builder).model().major_dim == old(builder).model().major_dim
                &&& final(builder).model().minor_dim == old(builder).model().minor_dim
                &&& final(builder).model().entries == old(builder).model().entries
                    + Seq::new(pat@.len(), |k: int| (ci as int, pat@[k] as int))
                &&& final(builder).spec_values().len() == old(
                    builder,
                ).spec_values().len() + pat@.len()
                &&& final(builder).spec_values().take(
                    old(builder).spec_values().len() as int,
                ) == old(builder).spec_values()
                &&& forall|k: int|
                    0 <= k < pat@.len() ==> emitted(
                        val@[k],
                        pivot,
                        pat@[k] as int,
                        ci as int,
                        #[trigger] final(builder).spec_values()[old(
                            builder,
                        ).spec_values().len() + k],
                    ) && finite_test(
                        final(builder).spec_values()[old(builder).spec_values().len()
                            + k],
                        true,
                    )
            },
            Err(e) => e == FactorizationError::NotFinite(ci) && exists|k: int, out: T|
                0 <= k < pat@.len() && #[trigger] emitted(
                    val@[k],
                    pivot,
                    pat@[k] as int,
                    ci as int,
                    out,
                ) && finite_test(out, false),
        },
{
    let ghost e0 = builder.model().entries;
    let ghost v0 = builder.spec_values();
    proof {
        builder.lemma_wf_model();
        assert(e0 + Seq::new(0, |k: int| (ci as int, pat@[k] as int)) =~= e0);
        assert(v0.take(v0.len() as int) =~= v0);
    }
    let mut i: usize = 0;
    while i < pat.len()
        invariant
            0 <= i <= pat@.len(),
            pat@.len() == val@.len(),
            ascending(pat@),
            builder.wf(),
            e0 == old(builder).model().entries,
            v0 == old(builder).spec_values(),
            v0.len() == e0.len(),
            forall|k: int| 0 <= k < e0.len() ==> (#[trigger] e0[k]).0 < ci,
            ci < builder.model().major_dim,
            builder.model().major_dim == old(builder).model().major_dim,
            builder.model().minor_dim == old(builder).model().minor_dim,
            forall|k: int|
                0 <= k < pat@.len() ==> (#[trigger] pat@[k]) < builder.model().minor_dim,
            builder.model().current == ci,
            builder.model().entries == e0 + Seq::new(
                i as nat,
                |k: int| (ci as int, pat@[k] as int),
            ),
            builder.spec_values().len() == v0.len() + i,
            builder.spec_values().take(v0.len() as int) == v0,
            forall|k: int|
                0 <= k < i ==> emitted(
                    val@[k],
                    pivot,
                    pat@[k] as int,
                    ci as int,
                    #[trigger] builder.spec_values()[v0.len() + k],
                ) && finite_test(builder.spec_values()[v0.len() + k], true),
        decreases pat@.len() - i,
    {
        let row = pat[i];
        let v = val[i];
        let out = if row > ci {
            v.div(pivot)
        } else {
            v
        };
        let finite = out.is_finite();
        proof {
            assert(emitted(v, pivot, row as int, ci as int, out));
            assert(finite_test(out, finite));
        }
        if !finite {
            return Err(FactorizationError::NotFinite(ci));
        }
        let ghost model = builder.model();
        let ghost values = builder.spec_values();
        proof {
            let col = Seq::new(i as nat, |k: int| (ci as int, pat@[k] as int));
            if model.lane_started() {
                if i == 0 {
                    assert(model.entries =~= e0);
                    assert(e0[e0.len() - 1].0 < ci);
                } else {
                    assert(model.entries.last() == col[i - 1]);
                    assert(pat@[i - 1] < pat@[i as int]);
                }
            }
            assert(model.insert(ci as int, row as int) is Ok);
        }
        let ins = builder.insert(row, ci, out);
        proof {
            let col = Seq::new(i as nat, |k: int| (ci as int, pat@[k] as int));
            let grown = Seq::new((i + 1) as nat, |k: int| (ci as int, pat@[k] as int));
            assert((e0 + col).push((ci as int, row as int)) =~= e0 + grown);
            let now = builder.spec_values();
            assert(now == values.push(out));
            assert(now.take(v0.len() as int) =~= values.take(v0.len() as int));
            assert forall|k: int| 0 <= k < i + 1 implies emitted(
                val@[k],
                pivot,
                pat@[k] as int,
                ci as int,
                #[trigger] now[v0.len() + k],
            ) && finite_test(now[v0.len() + k], true) by {
                if k < i {
                    assert(now[v0.len() + k] == values[v0.len() + k]);
                }
            }
        }
        i += 1;
    }
    Ok(())
}

/// A column holds its own pairs, relabelled by an exchange of a row with
/// itself.
proof fn lemma_relabelled_lane_itself<T>(pat: Seq<usize>, val: Seq<T>, x: int)
    requires
        pat.len() == val.len(),
    ensures
        relabelled_lane(pat, val, pat, val, 0, pat.len() as int, x, x),
{
    let e = pat.len() as int;
    assert forall|k0: int| 0 <= k0 < e implies #[trigger] pair_in(
        pat,
        val,
        0,
        e,
        relabel(pat[k0] as int, x, x),
        val[k0],
    ) by {
        assert(pat[k0] == relabel(pat[k0] as int, x, x));
    }
    assert forall|k: int| 0 <= k < e implies #[trigger] pair_in_relabelled(
        pat,
        val,
        0,
        e,
        x,
        x,
        pat[k] as int,
        val[k],
    ) by {
        assert(relabel(pat[k] as int, x, x) == pat[k] as int);
    }
}

/// The factor after a column is what `column_done` asks of it, given what
/// the exchange of rows did to the factor and to the solved column, and what
/// the new column stores.
proof fn lemma_column_combined<T: Scalar>(
    ci: int,
    row: int,
    lu: Csc<T>,
    lu_s: Csc<T>,
    next: Csc<T>,
    pat: Seq<usize>,
    val: Seq<T>,
    pat2: Seq<usize>,
    val2: Seq<T>,
    outs: Seq<T>,
    pivot: T,
)
    requires
        lu_s.matrix().swapped_from(lu.matrix(), ci, row),
        pat.len() == val.len(),
        pat2.len() == pat.len(),
        val2.len() == pat.len(),
        outs.len() == pat.len(),
        relabelled_lane(pat, val, pat2, val2, 0, pat.len() as int, ci, row),
        forall|r: int, c: int| c != ci ==> (#[trigger] next.has(r, c) <==> lu_s.has(r, c)),
        forall|r: int, c: int|
            c != ci && next.has(r, c) ==> #[trigger] next.value_at(r, c) == lu_s.value_at(r, c),
        forall|r: int| #[trigger] next.has(r, ci) <==> holds_vertex(pat2, r),
        forall|k: int| 0 <= k < pat2.len() ==> #[trigger] next.value_at(pat2[k] as int, ci) == outs[k],
        forall|k: int|
            0 <= k < pat2.len() ==> emitted(val2[k], pivot, pat2[k] as int, ci, #[trigger] outs[k])
                && finite_test(outs[k], true),
    ensures
        forall|r: int, c: int|
            c != ci ==> (#[trigger] next.has(r, c) <==> lu.has(relabel(r, ci, row), c)),
        forall|r: int, c: int|
            c != ci && next.has(r, c) ==> #[trigger] next.value_at(r, c) == lu.value_at(
                relabel(r, ci, row),
                c,
            ),
        forall|r: int| #[trigger] next.has(r, ci) <==> holds_vertex(pat, relabel(r, ci, row)),
        forall|k: int|
            0 <= k < pat.len() ==> emitted(
                val[k],
                pivot,
                relabel(pat[k] as int, ci, row),
                ci,
                #[trigger] next.value_at(relabel(pat[k] as int, ci, row), ci),
            ) && finite_test(next.value_at(relabel(pat[k] as int, ci, row), ci), true),
{
    let e = pat.len() as int;
    assert forall|r: int, c: int| c != ci implies (#[trigger] next.has(r, c) <==> lu.has(
        relabel(r, ci, row),
        c,
    )) by {
        let rr = relabel(r, ci, row);
        assert(relabel(rr, ci, row) == r);
        if next.has(r, c) {
            assert(lu_s.has(r, c));
            assert(lu_s.matrix().has(c, r));
            assert(lu.matrix().has(c, rr));
        }
        if lu.has(rr, c) {
            assert(lu.matrix().has(c, rr));
            assert(lu_s.matrix().has(c, relabel(rr, ci, row)));
            assert(lu_s.has(r, c));
        }
    }
    assert forall|r: int, c: int| c != ci && next.has(r, c) implies #[trigger] next.value_at(r, c)
        == lu.value_at(relabel(r, ci, row), c) by {
        let rr = relabel(r, ci, row);
        assert(relabel(rr, ci, row) == r);
        assert(lu_s.has(r, c));
        assert(lu_s.matrix().has(c, r));
        assert(lu.matrix().has(c, rr));
        assert(lu_s.matrix().value_at(c, relabel(rr, ci, row)) == lu.matrix().value_at(c, rr));
    }
    assert forall|r: int| #[trigger] next.has(r, ci) <==> holds_vertex(
        pat,
        relabel(r, ci, row),
    ) by {
        let rr = relabel(r, ci, row);
        assert(relabel(rr, ci, row) == r);
        if next.has(r, ci) {
            assert(holds_vertex(pat2, r));
            let k = choose|k: int| 0 <= k < pat2.len() && #[trigger] pat2[k] as int == r;
            assert(pair_in_relabelled(pat, val, 0, e, ci, row, pat2[k] as int, val2[k]));
            let k0 = choose|k0: int|
                0 <= k0 < e && relabel((#[trigger] pat[k0]) as int, ci, row) == pat2[k] as int
                    && val[k0] == val2[k];
            assert(pat[k0] as int == rr);
        }
        if holds_vertex(pat, rr) {
            let k0 = choose|k0: int| 0 <= k0 < pat.len() && #[trigger] pat[k0] as int == rr;
            assert(pair_in(pat2, val2, 0, e, relabel(pat[k0] as int, ci, row), val[k0]));
            let k = choose|k: int|
                0 <= k < e && (#[trigger] pat2[k]) == relabel(pat[k0] as int, ci, row) && val2[k]
                    == val[k0];
            assert(pat2[k] as int == r);
            assert(holds_vertex(pat2, r));
        }
    }
    assert forall|k0: int| 0 <= k0 < pat.len() implies emitted(
        val[k0],
        pivot,
        relabel(pat[k0] as int, ci, row),
        ci,
        #[trigger] next.value_at(relabel(pat[k0] as int, ci, row), ci),
    ) && finite_test(next.value_at(relabel(pat[k0] as int, ci, row), ci), true) by {
        assert(pair_in(pat2, val2, 0, e, relabel(pat[k0] as int, ci, row), val[k0]));
        let k = choose|k: int|
            0 <= k < e && (#[trigger] pat2[k]) == relabel(pat[k0] as int, ci, row) && val2[k]
                == val[k0];
        assert(next.value_at(pat2[k] as int, ci) == outs[k]);
        assert(emitted(val2[k], pivot, pat2[k] as int, ci, outs[k]) && finite_test(outs[k], true));
    }
}

/// The factor with its rows exchanged stores nothing in column `ci` or after
/// it, as before.
proof fn lemma_swapped_still_empty<T>(lu: Csc<T>, lu_s: Csc<T>, ci: int, a: int, b: int)
    requires
        lu.wf(),
        lu_s.wf(),
        lu_s.matrix().swapped_from(lu.matrix(), a, b),
        forall|k: int| 0 <= k < lu.spec_entries().len() ==> (#[trigger] lu.spec_entries()[k]).0 < ci,
    ensures
        forall|k: int|
            0 <= k < lu_s.spec_entries().len() ==> (#[trigger] lu_s.spec_entries()[k]).0 < ci,
        lu_s.spec_entries().len() == lu_s.spec_values().len(),
{
    assert forall|k: int| 0 <= k < lu_s.spec_entries().len() implies (
    #[trigger] lu_s.spec_entries()[k]).0 < ci by {
        lu_s.lemma_entry_lookup(k);
        let c = lu_s.spec_entries()[k].0;
        let r = lu_s.spec_entries()[k].1;
        assert(lu_s.matrix().has(c, r));
        assert(lu.matrix().has(c, relabel(r, a, b)));
        let k2 = lu.lemma_has_entry(relabel(r, a, b), c);
    }
    let p = lu_s.matrix().spec_pattern();
    crate::builder::lemma_entries_upto(p.offsets(), p.indices(), p.spec_major_dim());
}

/// Exchanging two items of a sequence that holds each of `0..n` once leaves
/// one that does.
proof fn lemma_pivot_exchanged(pivot: Seq<usize>, n: int, a: int, b: int)
    requires
        pivot.len() == n,
        0 <= a < n,
        0 <= b < n,
        pivot.no_duplicates(),
        forall|i: int| 0 <= i < n ==> (#[trigger] pivot[i]) < n,
    ensures
        pivot.update(a, pivot[b]).update(b, pivot[a]).len() == n,
        pivot.update(a, pivot[b]).update(b, pivot[a]).no_duplicates(),
        forall|i: int|
            0 <= i < n ==> (#[trigger] pivot.update(a, pivot[b]).update(b, pivot[a])[i]) < n,
{
    let q = pivot.update(a, pivot[b]).update(b, pivot[a]);
    assert forall|i: int, j: int| 0 <= i < q.len() && 0 <= j < q.len() && i != j implies q[i]
        != q[j] by {
        let oi = if i == a {
            b
        } else if i == b {
            a
        } else {
            i
        };
        let oj = if j == a {
            b
        } else if j == b {
            a
        } else {
            j
        };
        assert(q[i] == pivot[oi] && q[j] == pivot[oj]);
    }
    assert forall|i: int| 0 <= i < n implies (#[trigger] q[i]) < n by {
        let oi = if i == a {
            b
        } else if i == b {
            a
        } else {
            i
        };
        assert(q[i] == pivot[oi]);
    }
}

/// Works out column `ci` of the factor: finds the pattern of the solved
/// column, solves it against the factor so far, chooses the pivot, exchanges
/// rows where the pivot is not on the diagonal, and appends the column to
/// the factor.
fn factor_column<T: Scalar>(
    lu: Csc<T>,
    a: &mut Csc<T>,
    pivot: &mut Vec<usize>,
    ci: usize,
    val_buf: &mut Vec<T>,
    pat_contains: &mut Vec<bool>,
    pat_buf: &mut Vec<usize>,
    stack: &mut Vec<u32>,
) -> (res: Result<Csc<T>, FactorizationError>)
    requires
        state_ok(lu.spec_ncols(), ci as int, FactorState { lu, a: *old(a), pivot: old(pivot)@ }),
        ci < lu.spec_ncols(),
        lu.spec_ncols() <= u32::MAX,
        old(pat_contains)@.len() == lu.spec_ncols(),
    ensures
        final(pat_contains)@.len() == old(pat_contains)@.len(),
        match res {
            Ok(next) => {
                &&& column_ok(
                    ci as int,
                    FactorState { lu, a: *old(a), pivot: old(pivot)@ },
                    FactorState { lu: next, a: *final(a), pivot: final(pivot)@ },
                )
                &&& state_ok(
                    lu.spec_ncols(),
                    ci + 1,
                    FactorState { lu: next, a: *final(a), pivot: final(pivot)@ },
                )
            },
            Err(e) => column_fails(
                ci as int,
                FactorState { lu, a: *old(a), pivot: old(pivot)@ },
                e,
            ),
        },
{
    let ghost s = FactorState { lu, a: *old(a), pivot: old(pivot)@ };
    let n = lu.ncols();
    let mut curr_mat = lu;
    let (col_vals, col_ris) = a.col(ci);
    let ghost rows = col_ris@;
    let ghost vals = col_vals@;
    proof {
        assert forall|q: int| 0 <= q < rows.len() implies (#[trigger] rows[q]) < n by {
            s.a.lemma_col_entry(ci as int, q);
        }
        if rows.len() > 0 {
            s.a.lemma_col_entry(ci as int, 0);
        } else {
            assert(vals.len() == 0);
        }
    }
    proof {
        s.lu.matrix().spec_pattern().lemma_square_reaches_lanes(true, rows);
    }
    curr_mat.pattern().sparse_lower_triangular_solve_bool(col_ris, pat_contains, stack);
    marked_indices(pat_contains, pat_buf);
    val_buf.resize(pat_buf.len(), T::zero());
    curr_mat.sparse_lower_triangular_solve_sorted(
        col_ris,
        col_vals,
        pat_buf.as_slice(),
        val_buf.as_mut_slice(),
        true,
    );
    let ghost pat = pat_buf@;
    let ghost val = val_buf@;
    proof {
        let marks = pat_contains@;
        assert forall|v: int| 0 <= v < s.lu.spec_ncols() implies (#[trigger] holds_vertex(pat, v)
            <==> s.lu.matrix().spec_pattern().reaches(true, rows, v)) by {
            assert(marks[v] <==> s.lu.matrix().spec_pattern().reaches(true, rows, v));
            assert(holds_vertex(pat, v) <==> marks[v]);
        }
        assert(is_reach_pattern(s.lu, rows, pat));
    }
    // find optimal pivot
    let best = match choose_pivot(pat_buf, val_buf, ci) {
        Some(best) => best,
        None => {
            proof {
                assert(column_failed(
                    ci as int,
                    s,
                    FactorizationError::RankDeficient(ci),
                    pat,
                    val,
                    -1,
                ));
            }
            return Err(FactorizationError::RankDeficient(ci));
        },
    };
    let ukk = val_buf[best];
    let zero = ukk.is_zero();
    proof {
        assert(zero_test(val[best as int], zero));
    }
    if zero {
        proof {
            assert(column_failed(
                ci as int,
                s,
                FactorizationError::RankDeficient(ci),
                pat,
                val,
                best as int,
            ));
        }
        return Err(FactorizationError::RankDeficient(ci));
    }
    let best_row = pat_buf[best];
    if best_row != ci {
        exchange_in_column(pat_buf, val_buf, ci, best_row);
        let t = pivot[ci];
        pivot[ci] = pivot[best_row];
        pivot[best_row] = t;
        curr_mat.swap_rows(ci, best_row);
        a.swap_rows(ci, best_row);
    } else {
        proof {
            lemma_relabelled_lane_itself(pat, val, ci as int);
            lemma_swapped_with_itself(s.lu, ci as int);
            lemma_swapped_with_itself(s.a, ci as int);
            assert(pivot@ =~= s.pivot.update(ci as int, s.pivot[ci as int]).update(
                ci as int,
                s.pivot[ci as int],
            ));
        }
    }
    let ghost lu_s = curr_mat;
    let ghost pat2 = pat_buf@;
    let ghost val2 = val_buf@;
    proof {
        lemma_pivot_exchanged(s.pivot, n as int, ci as int, best_row as int);
        lemma_swapped_still_empty(s.lu, lu_s, ci as int, ci as int, best_row as int);
        lemma_keep_upto_all(lu_s.spec_entries(), ci as int);
        assert forall|k: int| 0 <= k < pat2.len() implies (#[trigger] pat2[k]) < n by {
            assert(pair_in_relabelled(
                pat,
                val,
                0,
                pat.len() as int,
                ci as int,
                best_row as int,
                pat2[k] as int,
                val2[k],
            ));
            let k0 = choose|k0: int|
                0 <= k0 < pat.len() && relabel((#[trigger] pat[k0]) as int, ci as int, best_row as int)
                    == pat2[k] as int && val[k0] == val2[k];
            assert(pat[k0] < n);
        }
    }
    // convert builder back to matrix
    let mut builder = CscBuilder::from_mat(curr_mat);
    let reverted = builder.revert_to_col(ci);
    proof {
        assert(builder.spec_values() =~= lu_s.spec_values());
    }
    match emit_column(&mut builder, pat_buf, val_buf, ci, ukk) {
        Ok(()) => {},
        Err(e) => {
            proof {
                let w = choose|k: int, out: T|
                    0 <= k < pat2.len() && #[trigger] emitted(
                        val2[k],
                        ukk,
                        pat2[k] as int,
                        ci as int,
                        out,
                    ) && finite_test(out, false);
                let k = w.0;
                let out = w.1;
                assert(pair_in_relabelled(
                    pat,
                    val,
                    0,
                    pat.len() as int,
                    ci as int,
                    best_row as int,
                    pat2[k] as int,
                    val2[k],
                ));
                let k0 = choose|k0: int|
                    0 <= k0 < pat.len() && relabel(
                        (#[trigger] pat[k0]) as int,
                        ci as int,
                        best_row as int,
                    ) == pat2[k] as int && val[k0] == val2[k];
                assert(value_rejected(pat, val, best as int, ci as int, k0, out));
                assert(column_failed(ci as int, s, e, pat, val, best as int));
            }
            return Err(e);
        },
    }
    let ghost outs = builder.spec_values().skip(lu_s.spec_values().len() as int);
    proof {
        assert(builder.spec_values() =~= lu_s.spec_values() + outs);
    }
    let next = builder.build();
    proof {
        let t = FactorState { lu: next, a: *a, pivot: pivot@ };
        lemma_column_added(lu_s, next, ci as int, pat2, outs);
        assert forall|k: int| 0 <= k < pat2.len() implies emitted(
            val2[k],
            ukk,
            pat2[k] as int,
            ci as int,
            #[trigger] outs[k],
        ) && finite_test(outs[k], true) by {
            assert(outs[k] == next.spec_values()[lu_s.spec_values().len() + k]);
        }
        lemma_column_combined(
            ci as int,
            best_row as int,
            s.lu,
            lu_s,
            next,
            pat,
            val,
            pat2,
            val2,
            outs,
            ukk,
        );
        assert forall|k: int| 0 <= k < pat.len() implies #[trigger] column_value(
            next,
            pat,
            val,
            best as int,
            ci as int,
            k,
        ) by {
            let r = relabel(pat[k] as int, ci as int, best_row as int);
            assert(emitted(val[k], ukk, r, ci as int, next.value_at(r, ci as int)));
        }
        assert(column_done(ci as int, s, t, pat, val, best as int));
    }
    Ok(next)
}

/// Whether `s` is the state that a factorization of `a` starts in: a copy of
/// the matrix, an empty factor of its size, and the pivot vector
/// `0, 1, 2, ...`.
pub open spec fn initial_state<T>(a: Csc<T>, s: FactorState<T>) -> bool {
    &&& s.a.same_as(a)
    &&& s.lu.wf()
    &&& s.lu.spec_nrows() == a.spec_ncols()
    &&& s.lu.spec_ncols() == a.spec_ncols()
    &&& s.lu.spec_entries().len() == 0
    &&& s.pivot == Seq::new(a.spec_ncols() as nat, |i: int| i as usize)
}

/// Whether `states` holds the states of a factorization of `a`, as far as it
/// got: the first is where it starts, each is in order, and each column
/// takes one to the next.
pub open spec fn is_factor_trace<T: Scalar>(a: Csc<T>, states: Seq<FactorState<T>>) -> bool {
    &&& 1 <= states.len() <= a.spec_ncols() + 1
    &&& initial_state(a, states[0])
    &&& forall|ci: int| 0 <= ci < states.len() ==> #[trigger] state_ok(a.spec_ncols(), ci, states[ci])
    &&& forall|ci: int|
        0 <= ci < states.len() - 1 ==> #[trigger] column_ok(ci, states[ci], states[ci + 1])
}

/// `b` with its items taken in the order of `pivot`.
pub open spec fn permuted<T>(b: Seq<T>, pivot: Seq<usize>) -> Seq<T> {
    Seq::new(b.len(), |i: int| b[pivot[i] as int])
}

/// Constructs an LU Factorization using a left-looking approach.
/// This means it will construct each column, starting from the leftmost one.
pub struct LeftLookingLUFactorization<T> {
    /// A single matrix stores both the lower and upper triangular components
    l_u: Csc<T>,
    pivot: Vec<usize>,
}

impl<T> LeftLookingLUFactorization<T> {
    /// The joint L\U matrix.
    pub closed spec fn spec_lu(&self) -> Csc<T> {
        self.l_u
    }

    /// The pivot vector: item `i` is the row of the matrix that row `i` of
    /// the factor stands for.
    pub closed spec fn spec_pivot(&self) -> Seq<usize> {
        self.pivot@
    }

    /// The invariant of a factorization: the factor is square, and the pivot
    /// vector holds each of its rows once.
    pub open spec fn wf(&self) -> bool {
        &&& self.spec_lu().wf()
        &&& self.spec_lu().spec_nrows() == self.spec_lu().spec_ncols()
        &&& self.spec_pivot().len() == self.spec_lu().spec_ncols()
        &&& self.spec_pivot().no_duplicates()
        &&& forall|i: int|
            0 <= i < self.spec_pivot().len() ==> (#[trigger] self.spec_pivot()[i])
                < self.spec_pivot().len()
    }

    /// Returns the joint L\U matrix. Here, `L` implicitly has 1 along the diagonal.
    /// Do not forget that there is a pivot if reading from this matrix
    #[inline]
    pub fn lu(&self) -> (r: &Csc<T>)
        ensures
            *r == self.spec_lu(),
    {
        &self.l_u
    }

    /// Pivot vector for the LU matrix
    #[inline]
    pub fn pivot(&self) -> (r: &[usize])
        ensures
            r@ == self.spec_pivot(),
    {
        self.pivot.as_slice()
    }
}

impl<T: Scalar> LeftLookingLUFactorization<T> {
    /// Whether `res` is an outcome of the factorization whose states are
    /// `states`: the factor and the pivot vector of the last state, once
    /// every column is done and every stored value has tested finite; or the
    /// error with which the next column fails; or, once every column is
    /// done, a column that stores a value which has tested not finite.
    pub open spec fn is_outcome(
        a: Csc<T>,
        states: Seq<FactorState<T>>,
        res: Result<Self, FactorizationError>,
    ) -> bool {
        let last = states[states.len() - 1];
        match res {
            Ok(f) => {
                &&& states.len() == a.spec_ncols() + 1
                &&& f.spec_lu() == last.lu
                &&& f.spec_pivot() == last.pivot
                &&& forall|r: int, c: int| #[trigger]
                    last.lu.has(r, c) ==> finite_test(last.lu.value_at(r, c), true)
            },
            Err(e) => {
                ||| states.len() <= a.spec_ncols() && column_fails(states.len() - 1, last, e)
                ||| states.len() == a.spec_ncols() + 1 && exists|r: int, c: int|
                    e == FactorizationError::NotFinite(c as usize) && #[trigger] last.lu.has(r, c)
                        && finite_test(last.lu.value_at(r, c), false)
            },
        }
    }

    /// Whether `res` is an outcome of the factorization of `a`, column by
    /// column, in the scalar's arithmetic.
    pub open spec fn factorizes(a: Csc<T>, res: Result<Self, FactorizationError>) -> bool {
        exists|states: Seq<FactorState<T>>|
            is_factor_trace(a, states) && #[trigger] Self::is_outcome(a, states, res)
    }

    /// Whether `x` is a result of solving with the factorization for the
    /// right-hand side `b`: `b` is taken in the order of the pivot vector,
    /// solved against the lower triangle with a unit diagonal, and the
    /// result against the upper triangle.
    pub open spec fn solved(&self, b: Seq<T>, x: Seq<T>) -> bool {
        exists|y: Seq<T>|
            #![trigger self.spec_lu().solves(false, false, y, x)]
            self.spec_lu().solves(true, true, permuted(b, self.spec_pivot()), y)
                && self.spec_lu().solves(false, false, y, x)
    }

    /// Computes `x` in `LUx = b`, where `b` is a dense vector.
    /// The output will be stored in b, and buf is used as a temporary buffer.
    pub fn solve(&self, b: &mut [T], buf: &mut [T])
        requires
            self.wf(),
            old(b)@.len() == self.spec_pivot().len(),
            old(buf)@.len() == old(b)@.len(),
        ensures
            final(b)@.len() == old(b)@.len(),
            final(buf)@.len() == old(buf)@.len(),
            self.solved(old(b)@, final(b)@),
    {
        let n = b.len();
        // apply pivot to b
        let mut i: usize = 0;
        while i < n
            invariant
                0 <= i <= n,
                n == b@.len(),
                buf@.len() == n,
                b@ == old(b)@,
                forall|e: int| 0 <= e < i ==> #[trigger] buf@[e] == b@[e],
            decreases n - i,
        {
            buf[i] = b[i];
            i += 1;
        }
        let mut i: usize = 0;
        while i < n
            invariant
                0 <= i <= n,
                n == b@.len(),
                buf@.len() == n,
                buf@ =~= old(b)@,
                self.wf(),
                self.spec_pivot().len() == n,
                forall|e: int| 0 <= e < i ==> #[trigger] b@[e] == buf@[self.spec_pivot()[e] as int],
            decreases n - i,
        {
            b[i] = buf[self.pivot[i]];
            i += 1;
        }
        assert(b@ =~= permuted(old(b)@, self.spec_pivot()));
        // Implementation: Solve two systems: Ly = b, then Ux = y.
        self.l_u.dense_lower_triangular_solve(b, buf, true);
        self.l_u.dense_upper_triangular_solve(buf, b);
    }

    /// Computes `x` in `LUx = b`, where `b` is a dense vector.
    /// The output will be stored in b, and buf is used as a temporary buffer.
    /// Each item of `b` holds one entry of `N` right-hand sides; each of them
    /// is solved as `solve` solves one.
    pub fn solve_arr<const N: usize>(&self, b: &mut [[T; N]], buf: &mut [[T; N]])
        requires
            self.wf(),
            old(b)@.len() == self.spec_pivot().len(),
            old(buf)@.len() == old(b)@.len(),
        ensures
            final(b)@.len() == old(b)@.len(),
            final(buf)@.len() == old(buf)@.len(),
            forall|d: int|
                0 <= d < N ==> #[trigger] self.solved(component(old(b)@, d), component(final(b)@, d)),
    {
        let n = b.len();
        // apply pivot to b
        let mut i: usize = 0;
        while i < n
            invariant
                0 <= i <= n,
                n == b@.len(),
                buf@.len() == n,
                b@ == old(b)@,
                forall|e: int| 0 <= e < i ==> #[trigger] buf@[e] == b@[e],
            decreases n - i,
        {
            buf[i] = b[i];
            i += 1;
        }
        let mut i: usize = 0;
        while i < n
            invariant
                0 <= i <= n,
                n == b@.len(),
                buf@.len() == n,
                buf@ =~= old(b)@,
                self.wf(),
                self.spec_pivot().len() == n,
                forall|e: int| 0 <= e < i ==> #[trigger] b@[e] == buf@[self.spec_pivot()[e] as int],
            decreases n - i,
        {
            b[i] = buf[self.pivot[i]];
            i += 1;
        }
        let ghost rhs = b@;
        proof {
            assert forall|d: int| 0 <= d < N implies #[trigger] component(rhs, d) == permuted(
                component(old(b)@, d),
                self.spec_pivot(),
            ) by {
                assert(component(rhs, d) =~= permuted(component(old(b)@, d), self.spec_pivot()));
            }
        }
        // Implementation: Solve two systems: Ly = b, then Ux = y.
        self.l_u.dense_lower_triangular_solve_arr(b, buf, true);
        let ghost mid = buf@;
        self.l_u.dense_upper_triangular_solve_arr(buf, b);
        proof {
            assert forall|d: int| 0 <= d < N implies #[trigger] self.solved(
                component(old(b)@, d),
                component(b@, d),
            ) by {
                assert(self.spec_lu().solves(true, true, component(rhs, d), component(mid, d)));
                assert(self.spec_lu().solves(false, false, component(mid, d), component(b@, d)));
            }
        }
    }

    /// Construct a new sparse LU factorization
    /// from a given CSC matrix.
    /// Fails where a column offers no pivot that tests non-zero, or a value
    /// to be stored tests not finite.
    pub fn new(a: &Csc<T>) -> (res: Result<Self, FactorizationError>)
        requires
            a.wf(),
            a.spec_nrows() == a.spec_ncols(),
            a.spec_ncols() <= u32::MAX,
        ensures
            res matches Ok(f) ==> f.wf() && f.spec_lu().spec_ncols() == a.spec_ncols(),
            Self::factorizes(*a, res),
    {
        let mut work = a.duplicate();
        let n = work.ncols();
        let mut pivot: Vec<usize> = Vec::new();
        let mut i: usize = 0;
        while i < n
            invariant
                0 <= i <= n,
                pivot@ == Seq::new(i as nat, |k: int| k as usize),
            decreases n - i,
        {
            pivot.push(i);
            proof {
                assert(pivot@ =~= Seq::new((i + 1) as nat, |k: int| k as usize));
            }
            i += 1;
        }
        // this initially starts as an identity  matrix.
        // but the ones are all implicit.
        let csc_builder: CscBuilder<T> = CscBuilder::new(n, n);
        let mut curr_mat = csc_builder.build();
        let mut val_buf: Vec<T> = Vec::new();
        let mut pat_contains: Vec<bool> = Vec::new();
        let mut i: usize = 0;
        while i < n
            invariant
                0 <= i <= n,
                pat_contains@.len() == i,
            decreases n - i,
        {
            pat_contains.push(false);
            i += 1;
        }
        let mut pat_buf: Vec<usize> = Vec::new();
        let mut stack: Vec<u32> = Vec::new();
        let ghost mut states: Seq<FactorState<T>> = seq![
            FactorState { lu: curr_mat, a: work, pivot: pivot@ },
        ];
        let mut ci: usize = 0;
        while ci < n
            invariant
                0 <= ci <= n,
                n == a.spec_ncols(),
                n <= u32::MAX,
                pat_contains@.len() == n,
                states.len() == ci + 1,
                is_factor_trace(*a, states),
                states[ci as int] == (FactorState { lu: curr_mat, a: work, pivot: pivot@ }),
                state_ok(n as int, ci as int, states[ci as int]),
            decreases n - ci,
        {
            match factor_column(
                curr_mat,
                &mut work,
                &mut pivot,
                ci,
                &mut val_buf,
                &mut pat_contains,
                &mut pat_buf,
                &mut stack,
            ) {
                Ok(next) => {
                    curr_mat = next;
                },
                Err(e) => {
                    proof {
                        assert(Self::is_outcome(*a, states, Err(e)));
                    }
                    return Err(e);
                },
            }
            proof {
                let t = FactorState { lu: curr_mat, a: work, pivot: pivot@ };
                let grown = states.push(t);
                assert forall|e: int| 0 <= e < grown.len() - 1 implies #[trigger] column_ok(
                    e,
                    grown[e],
                    grown[e + 1],
                ) by {
                    if e < ci {
                        assert(grown[e] == states[e] && grown[e + 1] == states[e + 1]);
                        assert(column_ok(e, states[e], states[e + 1]));
                    }
                }
                assert forall|e: int| 0 <= e < grown.len() implies #[trigger] state_ok(
                    n as int,
                    e,
                    grown[e],
                ) by {
                    if e <= ci {
                        assert(grown[e] == states[e]);
                        assert(state_ok(n as int, e, states[e]));
                    }
                }
                states = grown;
            }
            ci += 1;
        }
        let l_u = curr_mat;
        let mut c: usize = 0;
        while c < n
            invariant
                0 <= c <= n,
                l_u.wf(),
                n == l_u.spec_ncols(),
                n == a.spec_ncols(),
                states.len() == n + 1,
                is_factor_trace(*a, states),
                states[n as int].lu == l_u,
                forall|e: int, q: int|
                    0 <= e < c && 0 <= q < l_u.spec_col_values(e).len() ==> finite_test(
                        #[trigger] l_u.spec_col_values(e)[q],
                        true,
                    ),
            decreases n - c,
        {
            let (vals, rows) = l_u.col(c);
            let mut q: usize = 0;
            while q < vals.len()
                invariant
                    0 <= q <= vals@.len(),
                    c < n,
                    l_u.wf(),
                    n == l_u.spec_ncols(),
                    n == a.spec_ncols(),
                    states.len() == n + 1,
                    is_factor_trace(*a, states),
                    states[n as int].lu == l_u,
                    vals@ == l_u.spec_col_values(c as int),
                    forall|w: int| 0 <= w < q ==> finite_test(#[trigger] vals@[w], true),
                decreases vals@.len() - q,
            {
                let finite = vals[q].is_finite();
                if !finite {
                    proof {
                        assert(finite_test(vals@[q as int], false));
                        let last = states[states.len() - 1];
                        if l_u.spec_col_rows(c as int).len() > 0 {
                            l_u.lemma_col_entry(c as int, 0);
                        }
                        l_u.lemma_col_entry(c as int, q as int);
                        let r = l_u.spec_col_rows(c as int)[q as int] as int;
                        assert(last.lu.has(r, c as int) && finite_test(
                            last.lu.value_at(r, c as int),
                            false,
                        ));
                        assert(Self::is_outcome(
                            *a,
                            states,
                            Err(FactorizationError::NotFinite(c)),
                        ));
                    }
                    return Err(FactorizationError::NotFinite(c));
                }
                q += 1;
            }
            c += 1;
        }
        let f = Self { l_u, pivot };
        proof {
            let last = states[states.len() - 1];
            assert forall|r: int, c: int| #[trigger] last.lu.has(r, c) implies finite_test(
                last.lu.value_at(r, c),
                true,
            ) by {
                let q = l_u.lemma_col_has(c, r);
                l_u.lemma_col_entry(c, q);
            }
            assert(Self::is_outcome(*a, states, Ok(f)));
        }
        Ok(f)
    }
}

/// A column that stores its diagonal entry and nothing else holds one row
/// and one value.
pub(crate) proof fn lemma_diagonal_column<T>(m: Csc<T>, c: int)
    requires
        m.wf(),
        0 <= c < m.spec_ncols(),
        m.has(c, c),
        forall|r: int| m.has(r, c) ==> r == c,
    ensures
        m.spec_col_rows(c) == seq![c as usize],
        m.spec_col_values(c) == seq![m.value_at(c, c)],
{
    let rows = m.spec_col_rows(c);
    let vals = m.spec_col_values(c);
    let q = m.lemma_col_has(c, c);
    m.lemma_col_sorted(c);
    m.lemma_col_entry(c, q);
    assert forall|w: int| 0 <= w < rows.len() implies rows[w] == c by {
        m.lemma_col_entry(c, w);
    }
    if rows.len() > 1 {
        assert(rows[0] < rows[1]);
    }
    assert(rows =~= seq![c as usize]);
    assert(vals =~= seq![m.value_at(c, c)]);
}

/// From a column that stores nothing, only the column itself is reached.
pub(crate) proof fn lemma_reach_from_empty_column<T>(lu: Csc<T>, k: int, v: int)
    requires
        forall|r: int| !lu.has(r, k),
        0 <= k <= usize::MAX,
    ensures
        lu.matrix().spec_pattern().reaches(true, seq![k as usize], v) <==> v == k,
{
    let p = lu.matrix().spec_pattern();
    let b = seq![k as usize];
    if p.reaches(true, b, v) {
        let path = choose|path: Seq<int>|
            #![trigger p.is_path(true, path)]
            p.is_path(true, path) && path.last() == v && exists|t: int|
                0 <= t < b.len() && #[trigger] b[t] == path[0];
        assert(path[0] == k);
        if path.len() > 1 {
            assert(p.edge(true, path[0], path[1]));
            assert(lu.has(path[1], k));
        }
    }
    if v == k {
        p.lemma_reaches_start(true, b, 0);
    }
}

/// An ascending pattern that holds `k` and nothing else is `[k]`.
pub(crate) proof fn lemma_single_pattern(pat: Seq<usize>, k: int, n: int)
    requires
        0 <= k < n,
        ascending(pat),
        forall|i: int| 0 <= i < pat.len() ==> (#[trigger] pat[i]) < n,
        forall|v: int| 0 <= v < n ==> (#[trigger] holds_vertex(pat, v) <==> v == k),
    ensures
        pat == seq![k as usize],
{
    assert(holds_vertex(pat, k));
    assert forall|i: int| 0 <= i < pat.len() implies pat[i] == k by {
        assert(pat[i] < n);
        assert(holds_vertex(pat, pat[i] as int));
    }
    if pat.len() > 1 {
        assert(pat[0] < pat[1]);
    }
    assert(pat =~= seq![k as usize]);
}

/// The sparse solve of a single entry over the pattern of that entry, with a
/// unit diagonal, gives the entry back.
pub(crate) proof fn lemma_single_solve<T: Scalar>(lu: Csc<T>, k: usize, v: T, val: Seq<T>)
    requires
        lu.sparse_solves(true, seq![k], seq![v], seq![k], val),
    ensures
        val == seq![v],
{
    let pat = seq![k];
    let w = choose|z: T, trace: Seq<Seq<T>>|
        crate::scalar::is_zero_of(z) && #[trigger] lu.is_sparse_trace(
            true,
            seq![k],
            seq![v],
            pat,
            val,
            z,
            trace,
        );
    let z = w.0;
    let trace = w.1;
    reveal_with_fuel(crate::triangular::scattered, 2);
    assert(trace[0][0] == v);
    assert(lu.sparse_step(true, pat, 0, trace[0], trace[1]));
    assert(val =~= seq![v]);
}

/// What holds of the states of the factorization of a diagonal matrix `a`
/// before column `k`: the factor is the part of `a` before that column, the
/// matrix is as it was and the pivot vector is `0, 1, 2, ...`.
pub open spec fn diagonal_state<T>(a: Csc<T>, k: int, s: FactorState<T>) -> bool {
    let n = a.spec_ncols();
    &&& s.lu.wf()
    &&& s.lu.spec_nrows() == n
    &&& s.lu.spec_ncols() == n
    &&& forall|r: int, c: int| #[trigger] s.lu.has(r, c) <==> (0 <= c < k && r == c)
    &&& forall|c: int| 0 <= c < k ==> #[trigger] s.lu.value_at(c, c) == a.value_at(c, c)
    &&& s.a.wf()
    &&& s.a.spec_nrows() == n
    &&& s.a.spec_ncols() == n
    &&& forall|r: int, c: int| #[trigger] s.a.has(r, c) <==> a.has(r, c)
    &&& forall|c: int| 0 <= c < n ==> #[trigger] s.a.value_at(c, c) == a.value_at(c, c)
    &&& s.pivot == Seq::new(n as nat, |i: int| i as usize)
}

/// Whether `v` never tests zero and always tests finite.
pub open spec fn tests_regular<T: Scalar>(v: T) -> bool {
    &&& forall|t: bool| #[trigger] zero_test(v, t) ==> !t
    &&& forall|t: bool| #[trigger] finite_test(v, t) ==> t
}

/// Whether the error `e` names column `c` of the diagonal matrix `a`, and
/// the diagonal value of that column has tested zero, or not finite.
pub open spec fn refused_at<T: Scalar>(a: Csc<T>, e: FactorizationError, c: int) -> bool {
    ||| e == FactorizationError::RankDeficient(c as usize) && zero_test(a.value_at(c, c), true)
    ||| e == FactorizationError::NotFinite(c as usize) && finite_test(a.value_at(c, c), false)
}

/// What column `k` of a diagonal matrix solves to, in a state of its
/// factorization: the pattern `[k]`, the diagonal value, and the pivot in
/// the first place.
proof fn lemma_diagonal_column_solved<T: Scalar>(
    a: Csc<T>,
    k: int,
    s: FactorState<T>,
    pat: Seq<usize>,
    val: Seq<T>,
    best: int,
)
    requires
        a.wf(),
        a.spec_nrows() == a.spec_ncols(),
        is_diagonal(a),
        0 <= k < a.spec_ncols(),
        diagonal_state(a, k, s),
        is_reach_pattern(s.lu, s.a.spec_col_rows(k), pat),
        val.len() == pat.len(),
        s.lu.sparse_solves(true, s.a.spec_col_rows(k), s.a.spec_col_values(k), pat, val),
        first_largest(pat, val, k, best),
    ensures
        pat == seq![k as usize],
        val == seq![a.value_at(k, k)],
        best == 0,
{
    let n = a.spec_ncols();
    assert(a.has(k, k));
    assert(s.a.has(k, k));
    assert forall|r: int| s.a.has(r, k) implies r == k by {
        assert(a.has(r, k));
    }
    lemma_diagonal_column(s.a, k);
    assert(k < usize::MAX) by {
        s.a.lemma_col_entry(k, 0);
    }
    assert forall|v: int| 0 <= v < n implies (#[trigger] holds_vertex(pat, v) <==> v == k) by {
        lemma_reach_from_empty_column(s.lu, k, v);
    }
    lemma_single_pattern(pat, k, n);
    lemma_single_solve(s.lu, k as usize, s.a.value_at(k, k), val);
    let choice = choose|choice: Seq<int>|
        #[trigger] is_choice_trace(pat, val, k, choice) && choice[pat.len() as int] == best;
    assert(picked(pat, val, k, 0, choice[0], choice[1]));
}

/// One column of the factorization of a diagonal matrix whose values are
/// regular takes a state that is in order to one that is.
proof fn lemma_diagonal_step<T: Scalar>(a: Csc<T>, k: int, s: FactorState<T>, t: FactorState<T>)
    requires
        a.wf(),
        a.spec_nrows() == a.spec_ncols(),
        is_diagonal(a),
        0 <= k < a.spec_ncols(),
        diagonal_state(a, k, s),
        column_ok(k, s, t),
    ensures
        diagonal_state(a, k + 1, t),
{
    let n = a.spec_ncols();
    let w = choose|pat: Seq<usize>, val: Seq<T>, best: int|
        #[trigger] column_done(k, s, t, pat, val, best);
    let pat = w.0;
    let val = w.1;
    let best = w.2;
    lemma_diagonal_column_solved(a, k, s, pat, val, best);
    let row = pat[best] as int;
    assert(row == k);
    assert(t.pivot =~= s.pivot);
    assert forall|r: int, c: int| #[trigger] t.a.has(r, c) <==> a.has(r, c) by {
        assert(relabel(r, k, k) == r);
        if t.a.has(r, c) {
            assert(t.a.matrix().has(c, r));
            assert(s.a.matrix().has(c, relabel(r, k, k)));
            assert(s.a.has(r, c));
        }
        if a.has(r, c) {
            assert(s.a.has(r, c));
            assert(s.a.matrix().has(c, r));
            assert(t.a.matrix().has(c, relabel(r, k, k)));
        }
    }
    assert forall|c: int| 0 <= c < n implies #[trigger] t.a.value_at(c, c) == a.value_at(c, c) by {
        assert(relabel(c, k, k) == c);
        assert(a.has(c, c));
        assert(s.a.has(c, c));
        assert(s.a.matrix().has(c, c));
        assert(t.a.matrix().value_at(c, relabel(c, k, row)) == s.a.matrix().value_at(c, c));
        assert(s.a.value_at(c, c) == a.value_at(c, c));
    }
    assert forall|r: int, c: int| #[trigger] t.lu.has(r, c) <==> (0 <= c < k + 1 && r == c) by {
        assert(relabel(r, k, k) == r);
        if c != k {
            assert(t.lu.has(r, c) <==> s.lu.has(relabel(r, k, row), c));
        } else {
            assert(t.lu.has(r, k) <==> holds_vertex(pat, relabel(r, k, row)));
            if holds_vertex(pat, r) {
                let i = choose|i: int| 0 <= i < pat.len() && #[trigger] pat[i] as int == r;
            }
            if r == k {
                assert(pat[0] as int == k);
            }
        }
    }
    assert forall|c: int| 0 <= c < k + 1 implies #[trigger] t.lu.value_at(c, c) == a.value_at(
        c,
        c,
    ) by {
        assert(relabel(c, k, k) == c);
        if c < k {
            assert(t.lu.has(c, c));
            assert(t.lu.value_at(c, c) == s.lu.value_at(relabel(c, k, row), c));
        } else {
            assert(column_value(t.lu, pat, val, best, k, 0));
        }
    }
}

/// Column `k` of the factorization of a diagonal matrix fails only where
/// the diagonal value of that column has tested zero, or not finite.
proof fn lemma_diagonal_never_fails<T: Scalar>(
    a: Csc<T>,
    k: int,
    s: FactorState<T>,
    e: FactorizationError,
)
    requires
        a.wf(),
        a.spec_nrows() == a.spec_ncols(),
        is_diagonal(a),
        0 <= k < a.spec_ncols(),
        diagonal_state(a, k, s),
        column_fails(k, s, e),
    ensures
        refused_at(a, e, k),
{
    let w = choose|pat: Seq<usize>, val: Seq<T>, best: int|
        #[trigger] column_failed(k, s, e, pat, val, best);
    let pat = w.0;
    let val = w.1;
    let best = w.2;
    lemma_diagonal_column_solved(a, k, s, pat, val, best);
    let v = a.value_at(k, k);
    if zero_test(val[best], true) {
        assert(zero_test(v, true));
    } else {
        let x = choose|i: int, out: T| #[trigger] value_rejected(pat, val, best, k, i, out);
        assert(relabel(k, k, k) == k);
        assert(x.1 == v);
        assert(finite_test(v, false));
    }
}

/// The states of the factorization of a diagonal matrix whose values are
/// regular are all in order.
proof fn lemma_diagonal_trace<T: Scalar>(a: Csc<T>, states: Seq<FactorState<T>>, k: int)
    requires
        a.wf(),
        a.spec_nrows() == a.spec_ncols(),
        is_diagonal(a),
        is_factor_trace(a, states),
        0 <= k < states.len(),
    ensures
        diagonal_state(a, k, states[k]),
    decreases k,
{
    let n = a.spec_ncols();
    if k == 0 {
        let s = states[0];
        assert forall|r: int, c: int| #[trigger] s.lu.has(r, c) <==> (0 <= c < 0 && r == c) by {
            if s.lu.has(r, c) {
                let i = s.lu.lemma_has_entry(r, c);
            }
        }
    } else {
        lemma_diagonal_trace(a, states, k - 1);
        assert(column_ok(k - 1, states[k - 1], states[k - 1 + 1]));
        lemma_diagonal_step(a, k - 1, states[k - 1], states[k]);
    }
}

/// Whether the factor and the pivot vector of `f` are those of the diagonal
/// matrix `a`: the factor stores the same values at the same places, and
/// the pivot vector is `0, 1, 2, ...`.
pub open spec fn factors_into_itself<T>(a: Csc<T>, f: LeftLookingLUFactorization<T>) -> bool {
    &&& f.spec_pivot() == Seq::new(a.spec_ncols() as nat, |i: int| i as usize)
    &&& f.spec_lu().spec_nrows() == a.spec_nrows()
    &&& f.spec_lu().spec_ncols() == a.spec_ncols()
    &&& forall|r: int, c: int| #[trigger] f.spec_lu().has(r, c) <==> a.has(r, c)
    &&& forall|c: int|
        0 <= c < a.spec_ncols() ==> #[trigger] f.spec_lu().value_at(c, c) == a.value_at(c, c)
}

/// Every outcome of the factorization of a matrix that stores its diagonal
/// and nothing else, such as the identity: where it succeeds, the factor is
/// the matrix itself and the pivot vector is `0, 1, 2, ...`; where it fails,
/// the error names a column whose diagonal value has tested zero, or not
/// finite. So it succeeds wherever no diagonal value tests so.
pub proof fn lemma_diagonal_factors_into_itself<T: Scalar>(
    a: Csc<T>,
    res: Result<LeftLookingLUFactorization<T>, FactorizationError>,
)
    requires
        a.wf(),
        a.spec_nrows() == a.spec_ncols(),
        is_diagonal(a),
        LeftLookingLUFactorization::factorizes(a, res),
    ensures
        match res {
            Ok(f) => factors_into_itself(a, f),
            Err(e) => exists|c: int| 0 <= c < a.spec_ncols() && #[trigger] refused_at(a, e, c),
        },
        (forall|c: int| 0 <= c < a.spec_ncols() ==> tests_regular(#[trigger] a.value_at(c, c)))
            ==> res is Ok,
{
    let n = a.spec_ncols();
    let states = choose|states: Seq<FactorState<T>>|
        is_factor_trace(a, states) && #[trigger] LeftLookingLUFactorization::is_outcome(
            a,
            states,
            res,
        );
    let k = states.len() - 1;
    let last = states[k];
    lemma_diagonal_trace(a, states, k);
    match res {
        Ok(f) => {
            assert forall|r: int, c: int| #[trigger] f.spec_lu().has(r, c) <==> a.has(r, c) by {}
        },
        Err(e) => {
            if states.len() <= n && column_fails(k, last, e) {
                lemma_diagonal_never_fails(a, k, last, e);
                assert(refused_at(a, e, k));
            } else {
                let w = choose|r: int, c: int|
                    e == FactorizationError::NotFinite(c as usize) && #[trigger] last.lu.has(r, c)
                        && finite_test(last.lu.value_at(r, c), false);
                assert(last.lu.value_at(w.1, w.1) == a.value_at(w.1, w.1));
                assert(refused_at(a, e, w.1));
            }
            let c = choose|c: int| 0 <= c < n && #[trigger] refused_at(a, e, c);
            if tests_regular(a.value_at(c, c)) {
                assert(!zero_test(a.value_at(c, c), true));
                assert(!finite_test(a.value_at(c, c), false));
            }
        },
    }
}

/// Whether the factor `lu` stores the diagonal entry of each of its first
/// `k` columns, with a value that has tested non-zero.
pub open spec fn pivots_stored<T: Scalar>(lu: Csc<T>, k: int) -> bool {
    forall|c: int| 0 <= c < k ==> #[trigger] lu.has(c, c) && zero_test(lu.value_at(c, c), false)
}

/// Each state of a factorization stores the pivots of the columns done so
/// far on the diagonal of the factor.
proof fn lemma_pivots_stored<T: Scalar>(a: Csc<T>, states: Seq<FactorState<T>>, k: int)
    requires
        is_factor_trace(a, states),
        0 <= k < states.len(),
    ensures
        pivots_stored(states[k].lu, k),
    decreases k,
{
    if k > 0 {
        lemma_pivots_stored(a, states, k - 1);
        let ci = k - 1;
        let s = states[ci];
        let t = states[k];
        assert(column_ok(ci, states[ci], states[ci + 1]));
        let w = choose|pat: Seq<usize>, val: Seq<T>, best: int|
            #[trigger] column_done(ci, s, t, pat, val, best);
        let pat = w.0;
        let val = w.1;
        let best = w.2;
        let row = pat[best] as int;
        assert forall|c: int| 0 <= c < k implies #[trigger] t.lu.has(c, c) && zero_test(
            t.lu.value_at(c, c),
            false,
        ) by {
            if c < ci {
                assert(relabel(c, ci, row) == c);
                assert(s.lu.has(c, c));
                assert(t.lu.has(c, c) <==> s.lu.has(relabel(c, ci, row), c));
                assert(t.lu.value_at(c, c) == s.lu.value_at(relabel(c, ci, row), c));
            } else {
                assert(relabel(ci, ci, row) == row);
                assert(pat[best] as int == row);
                assert(holds_vertex(pat, row));
                assert(t.lu.has(ci, ci) <==> holds_vertex(pat, relabel(ci, ci, row)));
                assert(column_value(t.lu, pat, val, best, ci, best));
                assert(relabel(row, ci, row) == ci);
            }
        }
    }
}

/// A factorization that succeeds stores the pivot of each column on the
/// diagonal of the factor, and each pivot has tested non-zero.
pub proof fn lemma_factor_has_pivots<T: Scalar>(
    a: Csc<T>,
    res: Result<LeftLookingLUFactorization<T>, FactorizationError>,
)
    requires
        LeftLookingLUFactorization::factorizes(a, res),
        res is Ok,
    ensures
        pivots_stored(res->Ok_0.spec_lu(), a.spec_ncols()),
{
    let states = choose|states: Seq<FactorState<T>>|
        is_factor_trace(a, states) && #[trigger] LeftLookingLUFactorization::is_outcome(
            a,
            states,
            res,
        );
    lemma_pivots_stored(a, states, a.spec_ncols());
}

} // verus!
