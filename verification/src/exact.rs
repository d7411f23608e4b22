use crate::csc::Csc;
use crate::sparse_lu::{permuted, LeftLookingLUFactorization};
use crate::scalar::{
    is_difference, is_product, is_quotient, is_sum, is_zero_of, Scalar,
};
use crate::triangular::{eliminated_side, step_col};
use vstd::prelude::*;

verus! {

/// The scalar's zero.
pub open spec fn the_zero<T: Scalar>() -> T {
    choose|z: T| is_zero_of(z)
}

/// The scalar's `a + b`.
pub open spec fn sum<T: Scalar>(a: T, b: T) -> T {
    choose|r: T| is_sum(a, b, r)
}

/// The scalar's `a - b`.
pub open spec fn difference<T: Scalar>(a: T, b: T) -> T {
    choose|r: T| is_difference(a, b, r)
}

/// The scalar's `a * b`.
pub open spec fn product<T: Scalar>(a: T, b: T) -> T {
    choose|r: T| is_product(a, b, r)
}

/// The scalar's `a / b`.
pub open spec fn quotient<T: Scalar>(a: T, b: T) -> T {
    choose|r: T| is_quotient(a, b, r)
}

/// Whether the scalar's arithmetic is exact, as far as a substitution needs
/// it: subtraction, multiplication and division give one result each, and
/// `(b - s) - t = b - (s + t)`, `s + 0 = s`, `d * (u / d) = u` for `d` other
/// than zero, `s + (b - s) = b` and `b - 0 = b`. Arithmetic that rounds is
/// not exact.
pub open spec fn exact_arithmetic<T: Scalar>() -> bool {
    &&& forall|a: T, b: T, r: T| #[trigger] is_difference(a, b, r) ==> r == difference(a, b)
    &&& forall|a: T, b: T, r: T| #[trigger] is_product(a, b, r) ==> r == product(a, b)
    &&& forall|a: T, b: T, r: T| #[trigger] is_quotient(a, b, r) ==> r == quotient(a, b)
    &&& forall|b: T, s: T, t: T| #[trigger]
        difference(difference(b, s), t) == difference(b, sum(s, t))
    &&& forall|s: T| #[trigger] sum(s, the_zero::<T>()) == s
    &&& forall|u: T, d: T| d != the_zero::<T>() ==> #[trigger] product(d, quotient(u, d)) == u
    &&& forall|s: T, b: T| #[trigger] sum(s, difference(b, s)) == b
    &&& forall|b: T| #[trigger] difference(b, the_zero::<T>()) == b
}

/// The step of a solve of size `n` that works on column `c`.
pub open spec fn step_of(lower: bool, n: int, c: int) -> int {
    if lower {
        c
    } else {
        n - 1 - c
    }
}

/// What column `c` of the triangle of `a` adds to row `r` of the product of
/// that triangle and `x`: on the diagonal `x[r]` times the diagonal value,
/// or `x[r]` where the diagonal is taken as one; at a stored position of the
/// triangle its value times `x[c]`; elsewhere zero.
pub open spec fn row_term<T: Scalar>(
    a: Csc<T>,
    lower: bool,
    unit: bool,
    x: Seq<T>,
    r: int,
    c: int,
) -> T {
    if c == r {
        if unit {
            x[r]
        } else {
            product(a.value_at(r, r), x[r])
        }
    } else if eliminated_side(lower, c, r) && a.has(r, c) {
        product(a.value_at(r, c), x[c])
    } else {
        the_zero()
    }
}

/// Row `r` of the product of the triangle of `a` and `x`, summed over the
/// columns of the first `k` steps of a solve.
pub open spec fn row_sum<T: Scalar>(
    a: Csc<T>,
    lower: bool,
    unit: bool,
    x: Seq<T>,
    r: int,
    k: int,
) -> T
    decreases k,
{
    if k <= 0 {
        the_zero()
    } else {
        sum(
            row_sum(a, lower, unit, x, r, k - 1),
            row_term(a, lower, unit, x, r, step_col(lower, x.len() as int, k - 1)),
        )
    }
}

/// Whether the diagonal of `a` is stored and holds no zero.
pub open spec fn diagonal_regular<T: Scalar>(a: Csc<T>) -> bool {
    forall|c: int|
        0 <= c < a.spec_ncols() ==> #[trigger] a.has(c, c) && a.value_at(c, c) != the_zero::<T>()
}

/// An entry of the vector stays as it is once the step of its column is
/// done.
proof fn lemma_entry_settles<T: Scalar>(
    a: Csc<T>,
    lower: bool,
    unit: bool,
    b: Seq<T>,
    x: Seq<T>,
    trace: Seq<Seq<T>>,
    r: int,
    k: int,
)
    requires
        a.is_solve_trace(lower, unit, b, x, trace),
        0 <= r < b.len(),
        step_of(lower, b.len() as int, r) < k <= b.len(),
    ensures
        trace[k].len() == b.len(),
        trace[k][r] == trace[step_of(lower, b.len() as int, r) + 1][r],
    decreases k,
{
    let n = b.len() as int;
    let own = step_of(lower, n, r);
    assert(a.solve_step(lower, unit, step_col(lower, n, k - 1), trace[k - 1], trace[k - 1 + 1]));
    if k - 1 > own {
        lemma_entry_settles(a, lower, unit, b, x, trace, r, k - 1);
        let c = step_col(lower, n, k - 1);
        assert(a.step_entry(lower, c, r, trace[k - 1], trace[k]));
    } else {
        lemma_lengths(a, lower, unit, b, x, trace, k - 1);
    }
}

/// Every vector of a solve has the length of the right-hand side.
proof fn lemma_lengths<T: Scalar>(
    a: Csc<T>,
    lower: bool,
    unit: bool,
    b: Seq<T>,
    x: Seq<T>,
    trace: Seq<Seq<T>>,
    k: int,
)
    requires
        a.is_solve_trace(lower, unit, b, x, trace),
        0 <= k <= b.len(),
    ensures
        trace[k].len() == b.len(),
    decreases k,
{
    if k > 0 {
        lemma_lengths(a, lower, unit, b, x, trace, k - 1);
        assert(a.solve_step(
            lower,
            unit,
            step_col(lower, b.len() as int, k - 1),
            trace[k - 1],
            trace[k - 1 + 1],
        ));
    }
}

/// After `k` steps of a solve in exact arithmetic, an entry whose column is
/// still to come is the right-hand side less the part of its row summed so
/// far, and a row whose column is done sums to the right-hand side.
proof fn lemma_exact_trace<T: Scalar>(
    a: Csc<T>,
    lower: bool,
    unit: bool,
    b: Seq<T>,
    x: Seq<T>,
    trace: Seq<Seq<T>>,
    r: int,
    k: int,
)
    requires
        exact_arithmetic::<T>(),
        b.len() == a.spec_ncols(),
        !unit ==> diagonal_regular(a),
        a.is_solve_trace(lower, unit, b, x, trace),
        0 <= r < b.len(),
        0 <= k <= b.len(),
    ensures
        x.len() == b.len(),
        if k <= step_of(lower, b.len() as int, r) {
            trace[k][r] == difference(b[r], row_sum(a, lower, unit, x, r, k))
        } else {
            row_sum(a, lower, unit, x, r, k) == b[r]
        },
    decreases k,
{
    let n = b.len() as int;
    let own = step_of(lower, n, r);
    lemma_lengths(a, lower, unit, b, x, trace, n);
    if k > 0 {
        lemma_exact_trace(a, lower, unit, b, x, trace, r, k - 1);
        let c = step_col(lower, n, k - 1);
        let u = trace[k - 1];
        let y = trace[k];
        let s = row_sum(a, lower, unit, x, r, k - 1);
        let t = row_term(a, lower, unit, x, r, c);
        assert(row_sum(a, lower, unit, x, r, k) == sum(s, t));
        assert(a.solve_step(lower, unit, c, u, trace[k - 1 + 1]));
        lemma_lengths(a, lower, unit, b, x, trace, k - 1);
        if k - 1 == own {
            // the row's own column
            assert(c == r);
            lemma_entry_settles(a, lower, unit, b, x, trace, r, n);
            assert(x[r] == y[r]);
            assert(u[r] == difference(b[r], s));
            if unit {
                assert(y[r] == u[r]);
            } else {
                assert(a.has(r, r));
                assert(is_quotient(u[r], a.value_at(r, r), y[r]));
                assert(y[r] == quotient(u[r], a.value_at(r, r)));
                assert(product(a.value_at(r, r), quotient(u[r], a.value_at(r, r))) == u[r]);
            }
            assert(t == u[r]);
            assert(sum(s, difference(b[r], s)) == b[r]);
        } else if k - 1 < own {
            // a column before the row's own
            assert(c != r);
            assert(eliminated_side(lower, c, r));
            assert(a.step_entry(lower, c, r, u, y));
            assert(u[r] == difference(b[r], s));
            lemma_entry_settles(a, lower, unit, b, x, trace, c, n);
            assert(x[c] == y[c]);
            if a.has(r, c) {
                let v = a.value_at(r, c);
                let p = choose|p: T| is_product(v, y[c], p) && is_difference(u[r], p, y[r]);
                assert(p == product(v, y[c]));
                assert(y[r] == difference(u[r], p));
                assert(difference(difference(b[r], s), t) == difference(b[r], sum(s, t)));
            } else {
                assert(t == the_zero::<T>());
                assert(sum(s, the_zero::<T>()) == s);
            }
        } else {
            // a column after the row's own
            assert(c != r);
            assert(!eliminated_side(lower, c, r));
            assert(t == the_zero::<T>());
            assert(sum(s, the_zero::<T>()) == s);
        }
    } else {
        assert(difference(b[r], the_zero::<T>()) == b[r]);
    }
}

/// In exact arithmetic a triangular solve solves the system: its result,
/// multiplied by the triangle of the matrix that the solve works on, is the
/// right-hand side. For a lower triangular solve that triangle is the
/// diagonal and what is stored below it, for an upper one the diagonal and
/// what is stored above it; with a unit diagonal the diagonal is one. The
/// diagonal, unless it is taken as one, must be stored and hold no zero.
pub proof fn lemma_exact_solve<T: Scalar>(a: Csc<T>, lower: bool, unit: bool, b: Seq<T>, x: Seq<T>)
    requires
        exact_arithmetic::<T>(),
        b.len() == a.spec_ncols(),
        !unit ==> diagonal_regular(a),
        a.solves(lower, unit, b, x),
    ensures
        x.len() == b.len(),
        forall|r: int|
            0 <= r < b.len() ==> #[trigger] row_sum(a, lower, unit, x, r, b.len() as int) == b[r],
{
    let trace = choose|trace: Seq<Seq<T>>| a.is_solve_trace(lower, unit, b, x, trace);
    lemma_lengths(a, lower, unit, b, x, trace, b.len() as int);
    assert forall|r: int| 0 <= r < b.len() implies #[trigger] row_sum(
        a,
        lower,
        unit,
        x,
        r,
        b.len() as int,
    ) == b[r] by {
        lemma_exact_trace(a, lower, unit, b, x, trace, r, b.len() as int);
    }
}

/// Whether `x` solves the factored system by way of `y`: with `L` the lower
/// triangle of the factor with a unit diagonal, `U` its upper triangle and
/// `P` the order of the pivot vector, `L y = P b` and `U x = y`.
pub open spec fn solves_factored<T: Scalar>(
    f: LeftLookingLUFactorization<T>,
    b: Seq<T>,
    x: Seq<T>,
    y: Seq<T>,
) -> bool {
    let n = b.len() as int;
    &&& y.len() == n
    &&& x.len() == n
    &&& forall|r: int|
        0 <= r < n ==> #[trigger] row_sum(f.spec_lu(), true, true, y, r, n)
            == b[f.spec_pivot()[r] as int]
    &&& forall|r: int| 0 <= r < n ==> #[trigger] row_sum(f.spec_lu(), false, false, x, r, n) == y[r]
}

/// In exact arithmetic solving with a factorization solves the factored
/// system. The diagonal of the factor must be stored and hold no zero.
pub proof fn lemma_exact_factor_solve<T: Scalar>(
    f: LeftLookingLUFactorization<T>,
    b: Seq<T>,
    x: Seq<T>,
)
    requires
        exact_arithmetic::<T>(),
        f.wf(),
        b.len() == f.spec_pivot().len(),
        diagonal_regular(f.spec_lu()),
        f.solved(b, x),
    ensures
        exists|y: Seq<T>| #[trigger] solves_factored(f, b, x, y),
{
    let lu = f.spec_lu();
    let rhs = permuted(b, f.spec_pivot());
    let y = choose|y: Seq<T>|
        #![trigger lu.solves(false, false, y, x)]
        lu.solves(true, true, rhs, y) && lu.solves(false, false, y, x);
    lemma_exact_solve(lu, true, true, rhs, y);
    lemma_exact_solve(lu, false, false, y, x);
    assert forall|r: int| 0 <= r < b.len() implies #[trigger] row_sum(
        lu,
        true,
        true,
        y,
        r,
        b.len() as int,
    ) == b[f.spec_pivot()[r] as int] by {
        assert(rhs[r] == b[f.spec_pivot()[r] as int]);
    }
    assert(solves_factored(f, b, x, y));
}

} // verus!
