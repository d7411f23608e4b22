use crate::csc::Csc;
use crate::exact::{
    diagonal_regular, difference, exact_arithmetic, product, quotient, sum, the_zero,
};
use crate::reach::holds_vertex;
use crate::resort::relabel;
use crate::scalar::{is_zero_of, zero_test, Scalar};
use crate::sparse_lu::{
    column_done, column_ok, column_value, is_factor_trace, is_reach_pattern, lemma_factor_has_pivots,
    pivots_stored, state_ok, FactorState, FactorizationError, LeftLookingLUFactorization,
};
use crate::triangular::scattered;
use vstd::prelude::*;

verus! {

/// Whether the scalar's arithmetic is exact, as far as a factorization needs
/// it: what a substitution needs, and besides, zero is one value, a value
/// that tests non-zero is not zero, and `(u / d) * d = u` for `d` other than
/// zero.
pub open spec fn exact_field<T: Scalar>() -> bool {
    &&& exact_arithmetic::<T>()
    &&& forall|z: T| #[trigger] is_zero_of(z) ==> z == the_zero::<T>()
    &&& forall|v: T| #[trigger] zero_test(v, false) ==> v != the_zero::<T>()
    &&& forall|u: T, d: T| d != the_zero::<T>() ==> #[trigger] product(quotient(u, d), d) == u
}

/// The entry of the matrix at `(r, c)`: the stored value, or zero where none
/// is stored.
pub open spec fn entry<T: Scalar>(m: Csc<T>, r: int, c: int) -> T {
    if m.has(r, c) {
        m.value_at(r, c)
    } else {
        the_zero()
    }
}

/// What entry `i` of a sparse solve takes off the entry of row `q`: the
/// value stored at `(q, pat[i])` times the solved entry `i`, or zero where
/// none is stored.
pub open spec fn sparse_term<T: Scalar>(
    lu: Csc<T>,
    pat: Seq<usize>,
    val: Seq<T>,
    q: int,
    i: int,
) -> T {
    if lu.has(q, pat[i] as int) {
        product(lu.value_at(q, pat[i] as int), val[i])
    } else {
        the_zero()
    }
}

/// What the first `i` entries of a sparse solve take off the entry of row
/// `q`.
pub open spec fn sparse_sum<T: Scalar>(
    lu: Csc<T>,
    pat: Seq<usize>,
    val: Seq<T>,
    q: int,
    i: int,
) -> T
    decreases i,
{
    if i <= 0 {
        the_zero()
    } else {
        sum(sparse_sum(lu, pat, val, q, i - 1), sparse_term(lu, pat, val, q, i - 1))
    }
}

/// Every vector of a sparse solve has the length of the pattern.
proof fn lemma_sparse_lengths<T: Scalar>(
    lu: Csc<T>,
    rows: Seq<usize>,
    vals: Seq<T>,
    pat: Seq<usize>,
    x: Seq<T>,
    z: T,
    trace: Seq<Seq<T>>,
    k: int,
)
    requires
        lu.is_sparse_trace(true, rows, vals, pat, x, z, trace),
        0 <= k <= pat.len(),
    ensures
        trace[k].len() == pat.len(),
    decreases k,
{
    if k > 0 {
        lemma_sparse_lengths(lu, rows, vals, pat, x, z, trace, k - 1);
        assert(lu.sparse_step(true, pat, k - 1, trace[k - 1], trace[k - 1 + 1]));
    }
}

/// An entry of a sparse solve with a unit diagonal stays as it is from its
/// own step on.
proof fn lemma_sparse_settles<T: Scalar>(
    lu: Csc<T>,
    rows: Seq<usize>,
    vals: Seq<T>,
    pat: Seq<usize>,
    x: Seq<T>,
    z: T,
    trace: Seq<Seq<T>>,
    j: int,
    k: int,
)
    requires
        lu.is_sparse_trace(true, rows, vals, pat, x, z, trace),
        0 <= j < k <= pat.len(),
    ensures
        trace[k].len() == pat.len(),
        trace[j].len() == pat.len(),
        trace[k][j] == trace[j][j],
    decreases k,
{
    lemma_sparse_lengths(lu, rows, vals, pat, x, z, trace, k);
    lemma_sparse_lengths(lu, rows, vals, pat, x, z, trace, k - 1);
    lemma_sparse_lengths(lu, rows, vals, pat, x, z, trace, j);
    assert(lu.sparse_step(true, pat, k - 1, trace[k - 1], trace[k - 1 + 1]));
    if k - 1 > j {
        lemma_sparse_settles(lu, rows, vals, pat, x, z, trace, j, k - 1);
        assert(lu.sparse_entry(pat, k - 1, j, trace[k - 1], trace[k]));
    }
}

/// After `k` steps of a sparse solve in exact arithmetic, an entry whose
/// step is still to come is what the right-hand side holds at its row, less
/// what the entries done so far take off it.
proof fn lemma_sparse_exact<T: Scalar>(
    lu: Csc<T>,
    rows: Seq<usize>,
    vals: Seq<T>,
    pat: Seq<usize>,
    x: Seq<T>,
    z: T,
    trace: Seq<Seq<T>>,
    j: int,
    k: int,
)
    requires
        exact_arithmetic::<T>(),
        lu.is_sparse_trace(true, rows, vals, pat, x, z, trace),
        0 <= k <= j < pat.len(),
    ensures
        trace[k].len() == pat.len(),
        trace[k][j] == difference(
            scattered(rows, vals, vals.len() as int, pat[j] as int, z),
            sparse_sum(lu, pat, x, pat[j] as int, k),
        ),
    decreases k,
{
    let n = pat.len() as int;
    let rhs = scattered(rows, vals, vals.len() as int, pat[j] as int, z);
    lemma_sparse_lengths(lu, rows, vals, pat, x, z, trace, k);
    if k > 0 {
        let i = k - 1;
        lemma_sparse_exact(lu, rows, vals, pat, x, z, trace, j, i);
        let u = trace[i];
        let y = trace[k];
        let s = sparse_sum(lu, pat, x, pat[j] as int, i);
        let t = sparse_term(lu, pat, x, pat[j] as int, i);
        assert(lu.sparse_step(true, pat, i, u, trace[i + 1]));
        assert(lu.sparse_entry(pat, i, j, u, y));
        lemma_sparse_settles(lu, rows, vals, pat, x, z, trace, i, n);
        assert(y[i] == u[i]);
        assert(x[i] == y[i]);
        if lu.has(pat[j] as int, pat[i] as int) {
            let v = lu.value_at(pat[j] as int, pat[i] as int);
            let p = choose|p: T|
                crate::scalar::is_product(v, y[i], p) && crate::scalar::is_difference(
                    u[j],
                    p,
                    y[j],
                );
            assert(p == product(v, y[i]));
            assert(y[j] == difference(u[j], p));
            assert(difference(difference(rhs, s), t) == difference(rhs, sum(s, t)));
        } else {
            assert(sum(s, the_zero::<T>()) == s);
        }
    } else {
        assert(difference(rhs, the_zero::<T>()) == rhs);
    }
}

/// In exact arithmetic each entry of the result of a sparse solve with a
/// unit diagonal is what the right-hand side holds at its row, less what the
/// entries before it take off it.
pub proof fn lemma_sparse_solved<T: Scalar>(
    lu: Csc<T>,
    rows: Seq<usize>,
    vals: Seq<T>,
    pat: Seq<usize>,
    x: Seq<T>,
    j: int,
) -> (z: T)
    requires
        exact_arithmetic::<T>(),
        lu.sparse_solves(true, rows, vals, pat, x),
        0 <= j < pat.len(),
    ensures
        is_zero_of(z),
        x.len() == pat.len(),
        x[j] == difference(
            scattered(rows, vals, vals.len() as int, pat[j] as int, z),
            sparse_sum(lu, pat, x, pat[j] as int, j),
        ),
{
    let w = choose|z: T, trace: Seq<Seq<T>>|
        is_zero_of(z) && #[trigger] lu.is_sparse_trace(true, rows, vals, pat, x, z, trace);
    let z = w.0;
    let trace = w.1;
    lemma_sparse_exact(lu, rows, vals, pat, x, z, trace, j, j);
    lemma_sparse_settles(lu, rows, vals, pat, x, z, trace, j, pat.len() as int);
    z
}

/// What a right-hand side given by ascending rows holds at a row: the value
/// that comes with the row, or `z` where the row is not among them.
pub proof fn lemma_scattered_lookup<T>(rows: Seq<usize>, vals: Seq<T>, upto: int, row: int, z: T)
    requires
        rows.len() == vals.len(),
        0 <= upto <= rows.len(),
        forall|a: int, b: int|
            #![trigger rows[a], rows[b]]
            0 <= a < b < rows.len() ==> rows[a] < rows[b],
    ensures
        forall|t: int|
            0 <= t < upto && rows[t] == row ==> scattered(rows, vals, upto, row, z) == #[trigger] vals[t],
        (forall|t: int| 0 <= t < upto ==> #[trigger] rows[t] != row) ==> scattered(
            rows,
            vals,
            upto,
            row,
            z,
        ) == z,
    decreases upto,
{
    if upto > 0 {
        lemma_scattered_lookup(rows, vals, upto - 1, row, z);
        if rows[upto - 1] == row {
            assert forall|t: int| 0 <= t < upto && rows[t] == row implies scattered(
                rows,
                vals,
                upto,
                row,
                z,
            ) == #[trigger] vals[t] by {
                if t < upto - 1 {
                    assert(rows[t] < rows[upto - 1]);
                }
            }
        }
    }
}

/// Term `k` of the entry at `(r, c)` of the product of the two triangles of
/// a factor: the lower one, with a unit diagonal, times the upper one.
pub open spec fn factor_term<T: Scalar>(lu: Csc<T>, r: int, k: int, c: int) -> T {
    if k > c || k > r || !lu.has(k, c) {
        the_zero()
    } else if k == r {
        lu.value_at(r, c)
    } else if lu.has(r, k) {
        product(lu.value_at(r, k), lu.value_at(k, c))
    } else {
        the_zero()
    }
}

/// The entry at `(r, c)` of the product of the two triangles of a factor,
/// summed over the first `upto` terms.
pub open spec fn factor_sum<T: Scalar>(lu: Csc<T>, r: int, c: int, upto: int) -> T
    decreases upto,
{
    if upto <= 0 {
        the_zero()
    } else {
        sum(factor_sum(lu, r, c, upto - 1), factor_term(lu, r, upto - 1, c))
    }
}

/// Terms that are zero add nothing to what a sparse solve takes off an
/// entry.
proof fn lemma_sparse_sum_rests<T: Scalar>(
    lu: Csc<T>,
    pat: Seq<usize>,
    val: Seq<T>,
    q: int,
    from: int,
    to: int,
)
    requires
        exact_arithmetic::<T>(),
        0 <= from <= to,
        forall|i: int| from <= i < to ==> !lu.has(q, #[trigger] pat[i] as int),
    ensures
        sparse_sum(lu, pat, val, q, to) == sparse_sum(lu, pat, val, q, from),
    decreases to - from,
{
    if to > from {
        lemma_sparse_sum_rests(lu, pat, val, q, from, to - 1);
        assert(!lu.has(q, pat[to - 1] as int));
        assert(sum(sparse_sum(lu, pat, val, q, to - 1), the_zero::<T>()) == sparse_sum(
            lu,
            pat,
            val,
            q,
            to - 1,
        ));
    }
}

/// Terms that are zero add nothing to an entry of the product of the two
/// triangles.
proof fn lemma_factor_sum_rests<T: Scalar>(lu: Csc<T>, r: int, c: int, from: int, to: int)
    requires
        exact_arithmetic::<T>(),
        0 <= from <= to,
        forall|k: int| from <= k < to ==> #[trigger] factor_term(lu, r, k, c) == the_zero::<T>(),
    ensures
        factor_sum(lu, r, c, to) == factor_sum(lu, r, c, from),
    decreases to - from,
{
    if to > from {
        lemma_factor_sum_rests(lu, r, c, from, to - 1);
        assert(factor_term(lu, r, to - 1, c) == the_zero::<T>());
        assert(sum(factor_sum(lu, r, c, to - 1), the_zero::<T>()) == factor_sum(lu, r, c, to - 1));
    }
}

/// What a column of a factorization rests on: exact arithmetic, a state in
/// order, and the column done.
pub open spec fn column_facts<T: Scalar>(
    n: int,
    ci: int,
    s: FactorState<T>,
    t: FactorState<T>,
    pat: Seq<usize>,
    val: Seq<T>,
    best: int,
) -> bool {
    &&& exact_field::<T>()
    &&& 0 <= ci < n
    &&& state_ok(n, ci, s)
    &&& column_done(ci, s, t, pat, val, best)
}

/// A factor in order before column `ci` stores nothing in that column or
/// after it.
proof fn lemma_stored_before<T>(n: int, ci: int, s: FactorState<T>, r: int, c: int)
    requires
        state_ok(n, ci, s),
        s.lu.has(r, c),
    ensures
        0 <= c < ci,
        0 <= r < n,
{
    let k = s.lu.lemma_has_entry(r, c);
    s.lu.lemma_entry_lookup(k);
}

/// A row that a column reached stores an entry in, below the diagonal of
/// that column, is reached too.
proof fn lemma_fill_in_pattern<T: Scalar>(
    n: int,
    ci: int,
    s: FactorState<T>,
    pat: Seq<usize>,
    q: int,
    k: int,
)
    requires
        state_ok(n, ci, s),
        is_reach_pattern(s.lu, s.a.spec_col_rows(ci), pat),
        holds_vertex(pat, k),
        s.lu.has(q, k),
        q > k,
    ensures
        holds_vertex(pat, q),
{
    let p = s.lu.matrix().spec_pattern();
    let rows = s.a.spec_col_rows(ci);
    lemma_stored_before(n, ci, s, q, k);
    assert(p.has_entry(k, q));
    assert(p.edge(true, k, q));
    assert(p.reaches(true, rows, k));
    p.lemma_reaches_step(true, rows, k, q);
}

/// What the right-hand side of column `ci` holds at row `q`: the entry of
/// the matrix; and a row at which the matrix stores an entry is reached.
proof fn lemma_right_hand_side<T: Scalar>(
    n: int,
    ci: int,
    s: FactorState<T>,
    pat: Seq<usize>,
    q: int,
    z: T,
)
    requires
        exact_field::<T>(),
        0 <= ci < n,
        0 <= q < n,
        state_ok(n, ci, s),
        is_reach_pattern(s.lu, s.a.spec_col_rows(ci), pat),
        is_zero_of(z),
    ensures
        scattered(
            s.a.spec_col_rows(ci),
            s.a.spec_col_values(ci),
            s.a.spec_col_values(ci).len() as int,
            q,
            z,
        ) == entry(s.a, q, ci),
        s.a.has(q, ci) ==> holds_vertex(pat, q),
{
    let rows = s.a.spec_col_rows(ci);
    let vals = s.a.spec_col_values(ci);
    let p = s.lu.matrix().spec_pattern();
    s.a.lemma_col_sorted(ci);
    if rows.len() > 0 {
        s.a.lemma_col_entry(ci, 0);
    } else {
        assert(vals.len() == 0);
    }
    lemma_scattered_lookup(rows, vals, rows.len() as int, q, z);
    if s.a.has(q, ci) {
        let w = s.a.lemma_col_has(ci, q);
        s.a.lemma_col_entry(ci, w);
        p.lemma_reaches_start(true, rows, w);
    } else {
        assert forall|w: int| 0 <= w < rows.len() implies #[trigger] rows[w] != q by {
            s.a.lemma_col_entry(ci, w);
        }
    }
}

/// What column `ci` of the new factor stores at a row above the diagonal
/// that the pattern holds: the solved value of that row.
proof fn lemma_upper_entry<T: Scalar>(
    n: int,
    ci: int,
    s: FactorState<T>,
    t: FactorState<T>,
    pat: Seq<usize>,
    val: Seq<T>,
    best: int,
    i: int,
)
    requires
        column_facts(n, ci, s, t, pat, val, best),
        0 <= i < pat.len(),
        pat[i] < ci,
    ensures
        t.lu.has(pat[i] as int, ci),
        t.lu.value_at(pat[i] as int, ci) == val[i],
{
    let row = pat[best] as int;
    let k = pat[i] as int;
    assert(relabel(k, ci, row) == k);
    assert(holds_vertex(pat, k));
    assert(t.lu.has(k, ci) <==> holds_vertex(pat, relabel(k, ci, row)));
    assert(column_value(t.lu, pat, val, best, ci, i));
}

/// What column `ci` of the new factor stores for entry `j` of the solved
/// column on or below the diagonal: on the diagonal the pivot, below it the
/// solved value divided by the pivot, so that it times the pivot is the
/// solved value.
proof fn lemma_lower_entry<T: Scalar>(
    n: int,
    ci: int,
    s: FactorState<T>,
    t: FactorState<T>,
    pat: Seq<usize>,
    val: Seq<T>,
    best: int,
    j: int,
)
    requires
        column_facts(n, ci, s, t, pat, val, best),
        0 <= j < pat.len(),
        pat[j] >= ci,
    ensures
        t.lu.has(ci, ci),
        t.lu.value_at(ci, ci) == val[best],
        val[best] != the_zero::<T>(),
        relabel(pat[j] as int, ci, pat[best] as int) >= ci,
        t.lu.has(relabel(pat[j] as int, ci, pat[best] as int), ci),
        relabel(pat[j] as int, ci, pat[best] as int) == ci ==> j == best,
        relabel(pat[j] as int, ci, pat[best] as int) > ci ==> product(
            t.lu.value_at(relabel(pat[j] as int, ci, pat[best] as int), ci),
            t.lu.value_at(ci, ci),
        ) == val[j],
{
    let row = pat[best] as int;
    let q = pat[j] as int;
    let r = relabel(q, ci, row);
    assert(relabel(row, ci, row) == ci);
    assert(relabel(r, ci, row) == q);
    assert(holds_vertex(pat, row));
    assert(holds_vertex(pat, q));
    assert(t.lu.has(ci, ci) <==> holds_vertex(pat, relabel(ci, ci, row)));
    assert(t.lu.has(r, ci) <==> holds_vertex(pat, relabel(r, ci, row)));
    assert(column_value(t.lu, pat, val, best, ci, best));
    assert(column_value(t.lu, pat, val, best, ci, j));
    if r == ci {
        assert(q == row);
        if j < best {
            assert(pat[j] < pat[best]);
        } else if best < j {
            assert(pat[best] < pat[j]);
        }
    } else {
        assert(t.lu.value_at(r, ci) == quotient(val[j], val[best]));
    }
}

/// The first `upto` terms of an entry of column `ci` of the product, for
/// `upto` up to the entry's row and the diagonal: they are what the entries
/// of the solved column above row `upto` take off the entry of the row in a
/// sparse solve. The result is the number of those entries.
proof fn lemma_product_prefix<T: Scalar>(
    n: int,
    ci: int,
    s: FactorState<T>,
    t: FactorState<T>,
    pat: Seq<usize>,
    val: Seq<T>,
    best: int,
    r: int,
    upto: int,
) -> (i: int)
    requires
        column_facts(n, ci, s, t, pat, val, best),
        0 <= r < n,
        0 <= upto <= ci,
        upto <= r,
    ensures
        0 <= i <= pat.len(),
        forall|e: int| 0 <= e < i ==> (#[trigger] pat[e]) < upto,
        i < pat.len() ==> pat[i] >= upto,
        factor_sum(t.lu, r, ci, upto) == sparse_sum(
            s.lu,
            pat,
            val,
            relabel(r, ci, pat[best] as int),
            i,
        ),
    decreases upto,
{
    let row = pat[best] as int;
    let q = relabel(r, ci, row);
    if upto == 0 {
        0
    } else {
        let i0 = lemma_product_prefix(n, ci, s, t, pat, val, best, r, upto - 1);
        let k = upto - 1;
        assert(relabel(k, ci, row) == k);
        assert(t.lu.has(r, k) <==> s.lu.has(relabel(r, ci, row), k));
        if i0 < pat.len() && pat[i0] == k {
            lemma_upper_entry(n, ci, s, t, pat, val, best, i0);
            if t.lu.has(r, k) {
                assert(t.lu.value_at(r, k) == s.lu.value_at(relabel(r, ci, row), k));
            }
            assert(factor_term(t.lu, r, k, ci) == sparse_term(s.lu, pat, val, q, i0));
            assert forall|e: int| 0 <= e < i0 + 1 implies (#[trigger] pat[e]) < upto by {
                if e < i0 {
                    assert(pat[e] < upto - 1);
                }
            }
            if i0 + 1 < pat.len() {
                assert(pat[i0] < pat[i0 + 1]);
            }
            i0 + 1
        } else {
            if holds_vertex(pat, k) {
                let m = choose|m: int| 0 <= m < pat.len() && #[trigger] pat[m] as int == k;
                if m < i0 {
                    assert(pat[m] < upto - 1);
                } else if m > i0 {
                    assert(pat[i0] < pat[m]);
                }
            }
            assert(t.lu.has(k, ci) <==> holds_vertex(pat, relabel(k, ci, row)));
            assert(factor_term(t.lu, r, k, ci) == the_zero::<T>());
            assert(sum(factor_sum(t.lu, r, ci, k), the_zero::<T>()) == factor_sum(t.lu, r, ci, k));
            i0
        }
    }
}

/// Row `r` of column `ci` of the product of the two triangles of the new
/// factor is the entry of the matrix, before the rows were exchanged, at the
/// row that `r` stood for.
proof fn lemma_new_column<T: Scalar>(
    n: int,
    ci: int,
    s: FactorState<T>,
    t: FactorState<T>,
    pat: Seq<usize>,
    val: Seq<T>,
    best: int,
    r: int,
)
    requires
        column_facts(n, ci, s, t, pat, val, best),
        0 <= r < n,
    ensures
        factor_sum(t.lu, r, ci, n) == entry(s.a, relabel(r, ci, pat[best] as int), ci),
{
    let row = pat[best] as int;
    let q = relabel(r, ci, row);
    let m = if r < ci {
        r
    } else {
        ci
    };
    let rows = s.a.spec_col_rows(ci);
    let vals = s.a.spec_col_values(ci);
    let zero = the_zero::<T>();
    assert(0 <= row < n);
    assert(0 <= q < n);
    assert(relabel(q, ci, row) == r);
    let im = lemma_product_prefix(n, ci, s, t, pat, val, best, r, m);
    let before = sparse_sum(s.lu, pat, val, q, im);
    assert(factor_sum(t.lu, r, ci, m) == before);
    // the terms after the diagonal are zero
    assert forall|k: int| m + 1 <= k < n implies #[trigger] factor_term(t.lu, r, k, ci)
        == zero by {}
    lemma_factor_sum_rests(t.lu, r, ci, m + 1, n);
    assert(factor_sum(t.lu, r, ci, m + 1) == sum(before, factor_term(t.lu, r, m, ci)));
    lemma_lower_entry(n, ci, s, t, pat, val, best, best);
    if holds_vertex(pat, q) {
        let j = choose|j: int| 0 <= j < pat.len() && #[trigger] pat[j] as int == q;
        let z = lemma_sparse_solved(s.lu, rows, vals, pat, val, j);
        lemma_right_hand_side(n, ci, s, pat, q, z);
        // what comes before the diagonal is what the solve took off the entry
        assert(im <= j) by {
            if im > j {
                assert(pat[j] < m);
            }
        }
        assert forall|e: int| im <= e < j implies !s.lu.has(q, #[trigger] pat[e] as int) by {
            assert(pat[im] <= pat[e]);
            if r < ci {
                assert(pat[e] < pat[j]);
            } else if s.lu.has(q, pat[e] as int) {
                lemma_stored_before(n, ci, s, q, pat[e] as int);
            }
        }
        lemma_sparse_sum_rests(s.lu, pat, val, q, im, j);
        assert(val[j] == difference(entry(s.a, q, ci), before));
        // the diagonal term is the solved entry
        if r < ci {
            lemma_upper_entry(n, ci, s, t, pat, val, best, j);
        } else {
            lemma_lower_entry(n, ci, s, t, pat, val, best, j);
        }
        assert(factor_term(t.lu, r, m, ci) == val[j]);
        assert(sum(before, difference(entry(s.a, q, ci), before)) == entry(s.a, q, ci));
    } else {
        let z = choose|z: T| is_zero_of(z);
        assert(holds_vertex(pat, row));
        let zz = lemma_sparse_solved(s.lu, rows, vals, pat, val, best);
        lemma_right_hand_side(n, ci, s, pat, q, zz);
        assert(entry(s.a, q, ci) == zero);
        assert forall|e: int| 0 <= e < im implies !s.lu.has(q, #[trigger] pat[e] as int) by {
            if s.lu.has(q, pat[e] as int) {
                assert(holds_vertex(pat, pat[e] as int));
                lemma_fill_in_pattern(n, ci, s, pat, q, pat[e] as int);
            }
        }
        lemma_sparse_sum_rests(s.lu, pat, val, q, 0, im);
        assert(before == zero);
        assert(t.lu.has(r, ci) <==> holds_vertex(pat, relabel(r, ci, row)));
        assert(factor_term(t.lu, r, m, ci) == zero);
        assert(sum(zero, zero) == zero);
    }
}

/// A column before `ci` of the product of the two triangles has, in the new
/// factor, at each row what it had in the old one at the row that this row
/// stood for.
proof fn lemma_earlier_column<T: Scalar>(
    n: int,
    ci: int,
    s: FactorState<T>,
    t: FactorState<T>,
    pat: Seq<usize>,
    val: Seq<T>,
    best: int,
    r: int,
    c: int,
    upto: int,
)
    requires
        column_facts(n, ci, s, t, pat, val, best),
        0 <= r < n,
        0 <= c < ci,
        0 <= upto,
    ensures
        factor_sum(t.lu, r, c, upto) == factor_sum(
            s.lu,
            relabel(r, ci, pat[best] as int),
            c,
            upto,
        ),
    decreases upto,
{
    let row = pat[best] as int;
    let q = relabel(r, ci, row);
    if upto > 0 {
        lemma_earlier_column(n, ci, s, t, pat, val, best, r, c, upto - 1);
        let k = upto - 1;
        if k <= c {
            assert(relabel(k, ci, row) == k);
            assert(t.lu.has(k, c) <==> s.lu.has(relabel(k, ci, row), c));
            assert(t.lu.has(r, k) <==> s.lu.has(relabel(r, ci, row), k));
            assert(t.lu.has(r, c) <==> s.lu.has(relabel(r, ci, row), c));
            if t.lu.has(k, c) {
                assert(t.lu.value_at(k, c) == s.lu.value_at(relabel(k, ci, row), c));
            }
            if t.lu.has(r, k) {
                assert(t.lu.value_at(r, k) == s.lu.value_at(relabel(r, ci, row), k));
            }
            if t.lu.has(r, c) {
                assert(t.lu.value_at(r, c) == s.lu.value_at(relabel(r, ci, row), c));
            }
        }
        assert(factor_term(t.lu, r, k, c) == factor_term(s.lu, q, k, c));
    }
}

/// A row of the matrix and its item of the pivot vector move together.
proof fn lemma_rows_moved<T: Scalar>(
    n: int,
    ci: int,
    s: FactorState<T>,
    t: FactorState<T>,
    pat: Seq<usize>,
    val: Seq<T>,
    best: int,
    r: int,
    c: int,
)
    requires
        column_facts(n, ci, s, t, pat, val, best),
        0 <= r < n,
    ensures
        entry(t.a, r, c) == entry(s.a, relabel(r, ci, pat[best] as int), c),
        t.pivot[r] == s.pivot[relabel(r, ci, pat[best] as int)],
{
    let row = pat[best] as int;
    let q = relabel(r, ci, row);
    assert(relabel(q, ci, row) == r);
    if t.a.has(r, c) {
        assert(t.a.matrix().has(c, r));
        assert(s.a.matrix().has(c, relabel(r, ci, row)));
    }
    if s.a.has(q, c) {
        assert(s.a.matrix().has(c, q));
        assert(t.a.matrix().has(c, relabel(q, ci, row)));
        assert(t.a.matrix().value_at(c, relabel(q, ci, row)) == s.a.matrix().value_at(c, q));
    }
}

/// What holds before column `ci` of a factorization of `a` in exact
/// arithmetic: each column before `ci` of the product of the two triangles
/// of the factor is that column of the matrix with its rows exchanged so
/// far, and row `r` of that matrix is row `pivot[r]` of `a`.
pub open spec fn factored_before<T: Scalar>(a: Csc<T>, n: int, ci: int, s: FactorState<T>) -> bool {
    &&& forall|r: int, c: int|
        0 <= r < n && 0 <= c < ci ==> #[trigger] factor_sum(s.lu, r, c, n) == entry(s.a, r, c)
    &&& forall|r: int, c: int|
        0 <= r < n ==> #[trigger] entry(s.a, r, c) == entry(a, s.pivot[r] as int, c)
}

/// One column keeps the product of the two triangles equal to the matrix.
proof fn lemma_factored_step<T: Scalar>(
    a: Csc<T>,
    n: int,
    ci: int,
    s: FactorState<T>,
    t: FactorState<T>,
)
    requires
        exact_field::<T>(),
        0 <= ci < n,
        state_ok(n, ci, s),
        column_ok(ci, s, t),
        factored_before(a, n, ci, s),
    ensures
        factored_before(a, n, ci + 1, t),
{
    let w = choose|pat: Seq<usize>, val: Seq<T>, best: int|
        #[trigger] column_done(ci, s, t, pat, val, best);
    let pat = w.0;
    let val = w.1;
    let best = w.2;
    let row = pat[best] as int;
    assert(column_facts(n, ci, s, t, pat, val, best));
    assert forall|r: int, c: int| 0 <= r < n implies #[trigger] entry(t.a, r, c) == entry(
        a,
        t.pivot[r] as int,
        c,
    ) by {
        let q = relabel(r, ci, row);
        lemma_rows_moved(n, ci, s, t, pat, val, best, r, c);
        assert(entry(s.a, q, c) == entry(a, s.pivot[q] as int, c));
    }
    assert forall|r: int, c: int| 0 <= r < n && 0 <= c < ci + 1 implies #[trigger] factor_sum(
        t.lu,
        r,
        c,
        n,
    ) == entry(t.a, r, c) by {
        let q = relabel(r, ci, row);
        lemma_rows_moved(n, ci, s, t, pat, val, best, r, c);
        if c < ci {
            lemma_earlier_column(n, ci, s, t, pat, val, best, r, c, n);
            assert(factor_sum(s.lu, q, c, n) == entry(s.a, q, c));
        } else {
            lemma_new_column(n, ci, s, t, pat, val, best, r);
        }
    }
}

/// Each state of a factorization in exact arithmetic has the product of the
/// two triangles equal to the matrix, as far as the factor goes.
proof fn lemma_factored_trace<T: Scalar>(a: Csc<T>, states: Seq<FactorState<T>>, k: int)
    requires
        exact_field::<T>(),
        is_factor_trace(a, states),
        0 <= k < states.len(),
    ensures
        factored_before(a, a.spec_ncols(), k, states[k]),
    decreases k,
{
    let n = a.spec_ncols();
    if k == 0 {
        let s = states[0];
        assert(state_ok(n, 0, s));
        assert forall|r: int, c: int| 0 <= r < n implies #[trigger] entry(s.a, r, c) == entry(
            a,
            s.pivot[r] as int,
            c,
        ) by {
            assert(s.pivot[r] as int == r);
            assert(s.a.has(r, c) == a.has(r, c));
            assert(s.a.value_at(r, c) == a.value_at(r, c));
        }
    } else {
        lemma_factored_trace(a, states, k - 1);
        assert(state_ok(n, k - 1, states[k - 1]));
        assert(column_ok(k - 1, states[k - 1], states[k - 1 + 1]));
        lemma_factored_step(a, n, k - 1, states[k - 1], states[k]);
    }
}

/// In exact arithmetic a factorization that succeeds factors the matrix:
/// the product of the lower triangle of the factor, with a unit diagonal,
/// and its upper triangle has at `(r, c)` the entry of the matrix at
/// `(pivot[r], c)`.
pub proof fn lemma_exact_factorization<T: Scalar>(
    a: Csc<T>,
    res: Result<LeftLookingLUFactorization<T>, FactorizationError>,
)
    requires
        exact_field::<T>(),
        LeftLookingLUFactorization::factorizes(a, res),
        res is Ok,
    ensures
        forall|r: int, c: int|
            0 <= r < a.spec_ncols() && 0 <= c < a.spec_ncols() ==> #[trigger] factor_sum(
                res->Ok_0.spec_lu(),
                r,
                c,
                a.spec_ncols(),
            ) == entry(a, res->Ok_0.spec_pivot()[r] as int, c),
{
    let n = a.spec_ncols();
    let states = choose|states: Seq<FactorState<T>>|
        is_factor_trace(a, states) && #[trigger] LeftLookingLUFactorization::is_outcome(
            a,
            states,
            res,
        );
    lemma_factored_trace(a, states, n);
    let last = states[n];
    assert forall|r: int, c: int| 0 <= r < n && 0 <= c < n implies #[trigger] factor_sum(
        res->Ok_0.spec_lu(),
        r,
        c,
        n,
    ) == entry(a, res->Ok_0.spec_pivot()[r] as int, c) by {
        assert(factor_sum(last.lu, r, c, n) == entry(last.a, r, c));
        assert(entry(last.a, r, c) == entry(a, last.pivot[r] as int, c));
    }
}

/// In exact arithmetic the factor of a factorization that succeeds stores
/// its diagonal, which holds no zero, so that solving with it solves the
/// factored system.
pub proof fn lemma_exact_factor_regular<T: Scalar>(
    a: Csc<T>,
    res: Result<LeftLookingLUFactorization<T>, FactorizationError>,
)
    requires
        exact_field::<T>(),
        LeftLookingLUFactorization::factorizes(a, res),
        res is Ok,
    ensures
        res->Ok_0.spec_lu().spec_ncols() == a.spec_ncols(),
        diagonal_regular(res->Ok_0.spec_lu()),
{
    let n = a.spec_ncols();
    let lu = res->Ok_0.spec_lu();
    let states = choose|states: Seq<FactorState<T>>|
        is_factor_trace(a, states) && #[trigger] LeftLookingLUFactorization::is_outcome(
            a,
            states,
            res,
        );
    assert(state_ok(n, n, states[n]));
    lemma_factor_has_pivots(a, res);
    assert forall|c: int| 0 <= c < lu.spec_ncols() implies #[trigger] lu.has(c, c) && lu.value_at(
        c,
        c,
    ) != the_zero::<T>() by {
        assert(lu.has(c, c) && zero_test(lu.value_at(c, c), false));
    }
}

} // verus!
