use crate::builder::lane_sorted;
use crate::csc::{is_diagonal, Csc};
use crate::scalar::{
    is_accumulated, is_difference, is_eliminated, is_product, is_quotient, is_sum, is_zero_of,
    Scalar,
};
use vstd::prelude::*;

verus! {

/// The position of `row` among `rows`, if it is one of them.
pub fn find_row(rows: &[usize], row: usize) -> (r: Option<usize>)
    ensures
        match r {
            Some(q) => q < rows@.len() && rows@[q as int] == row,
            None => forall|q: int| 0 <= q < rows@.len() ==> rows@[q] != row,
        },
{
    let mut q: usize = 0;
    while q < rows.len()
        invariant
            0 <= q <= rows@.len(),
            forall|e: int| 0 <= e < q ==> rows@[e] != row,
        decreases rows@.len() - q,
    {
        if rows[q] == row {
            return Some(q);
        }
        q += 1;
    }
    None
}

/// Whether `r` lies on the side of column `c`'s diagonal that a solve
/// eliminates: below it for a lower triangular solve, above it for an upper
/// one.
pub open spec fn eliminated_side(lower: bool, c: int, r: int) -> bool {
    if lower {
        r > c
    } else {
        r < c
    }
}

/// The column that step `k` of a solve of size `n` works on: the columns in
/// ascending order for a lower triangular solve, in descending order for an
/// upper one.
pub open spec fn step_col(lower: bool, n: int, k: int) -> int {
    if lower {
        k
    } else {
        n - 1 - k
    }
}

/// Component `d` of each item of `m`.
pub open spec fn component<T, const N: usize>(m: Seq<[T; N]>, d: int) -> Seq<T> {
    Seq::new(m.len(), |i: int| m[i]@[d])
}

/// What a right-hand side given by the indices `b_idxs` and the values `b`
/// holds at `row`, going by the first `upto` of them: the value of the last
/// one whose index is `row`, or `z` where there is none.
pub open spec fn scattered<T>(b_idxs: Seq<usize>, b: Seq<T>, upto: int, row: int, z: T) -> T
    decreases upto,
{
    if upto <= 0 {
        z
    } else if b_idxs[upto - 1] == row {
        b[upto - 1]
    } else {
        scattered(b_idxs, b, upto - 1, row, z)
    }
}

impl<T> Csc<T> {
    /// Entry `q` of column `c` is stored in the matrix, at a row within the
    /// matrix, with the value at the same place among the column's values.
    pub proof fn lemma_col_entry(&self, c: int, q: int)
        requires
            self.wf(),
            0 <= c < self.spec_ncols(),
            0 <= q < self.spec_col_rows(c).len(),
        ensures
            self.spec_col_values(c).len() == self.spec_col_rows(c).len(),
            self.spec_col_rows(c)[q] < self.spec_nrows(),
            self.has(self.spec_col_rows(c)[q] as int, c),
            self.value_at(self.spec_col_rows(c)[q] as int, c) == self.spec_col_values(c)[q],
    {
        let p = self.matrix().spec_pattern();
        let offs = p.offsets();
        assert(offs[c] <= offs[c + 1]);
        assert(offs[c + 1] <= offs[offs.len() - 1]);
        let k = offs[c] + q;
        self.matrix().lemma_position(c, k);
    }

    /// The rows of a column ascend strictly.
    pub proof fn lemma_col_sorted(&self, c: int)
        requires
            self.wf(),
            0 <= c < self.spec_ncols(),
        ensures
            forall|q: int, w: int|
                #![trigger self.spec_col_rows(c)[q], self.spec_col_rows(c)[w]]
                0 <= q < w < self.spec_col_rows(c).len() ==> self.spec_col_rows(c)[q]
                    < self.spec_col_rows(c)[w],
    {
        let p = self.matrix().spec_pattern();
        let offs = p.offsets();
        let idx = p.indices();
        assert(offs[c] <= offs[c + 1]);
        assert(offs[c + 1] <= offs[offs.len() - 1]);
        assert(lane_sorted(offs, idx, c));
        assert forall|q: int, w: int|
            #![trigger self.spec_col_rows(c)[q], self.spec_col_rows(c)[w]]
            0 <= q < w < self.spec_col_rows(c).len() implies self.spec_col_rows(c)[q]
            < self.spec_col_rows(c)[w] by {
            assert(self.spec_col_rows(c)[q] == idx[offs[c] + q]);
            assert(self.spec_col_rows(c)[w] == idx[offs[c] + w]);
        }
    }

    /// A row stored in column `c` is one of the column's rows.
    pub proof fn lemma_col_has(&self, c: int, r: int) -> (q: int)
        requires
            self.wf(),
            self.has(r, c),
        ensures
            0 <= q < self.spec_col_rows(c).len(),
            self.spec_col_rows(c)[q] == r,
    {
        let p = self.matrix().spec_pattern();
        let offs = p.offsets();
        assert(offs[c] <= offs[c + 1]);
        assert(offs[c + 1] <= offs[offs.len() - 1]);
        let k = choose|k: int| offs[c] <= k < offs[c + 1] && #[trigger] p.indices()[k] == r;
        assert(self.spec_col_rows(c)[k - offs[c]] == p.indices()[k]);
        k - offs[c]
    }
}

impl<T: Scalar> Csc<T> {
    /// What one step of a triangular solve does to entry `r` of the vector,
    /// for `r` other than the column `c` it works on: where `r` lies on the
    /// eliminated side and `(r, c)` is stored, `y[r]` is
    /// `x[r] - value * y[c]`; elsewhere the entry stays.
    pub open spec fn step_entry(&self, lower: bool, c: int, r: int, x: Seq<T>, y: Seq<T>) -> bool {
        if eliminated_side(lower, c, r) && self.has(r, c) {
            is_eliminated(x[r], self.value_at(r, c), y[c], y[r])
        } else {
            y[r] == x[r]
        }
    }

    /// One step of a triangular solve, on column `c`, takes the vector `x`
    /// to `y`: entry `c` is divided by the diagonal value where one is
    /// stored and the diagonal is not taken as one; then each other entry
    /// changes as `step_entry` says.
    pub open spec fn solve_step(&self, lower: bool, unit: bool, c: int, x: Seq<T>, y: Seq<T>) -> bool {
        &&& y.len() == x.len()
        &&& if !unit && self.has(c, c) {
            is_quotient(x[c], self.value_at(c, c), y[c])
        } else {
            y[c] == x[c]
        }
        &&& forall|r: int|
            0 <= r < x.len() && r != c ==> #[trigger] self.step_entry(lower, c, r, x, y)
    }

    /// Whether `trace` holds the vectors of a triangular solve that starts
    /// with `b` and ends with `x`: one step for each column.
    pub open spec fn is_solve_trace(
        &self,
        lower: bool,
        unit: bool,
        b: Seq<T>,
        x: Seq<T>,
        trace: Seq<Seq<T>>,
    ) -> bool {
        &&& trace.len() == b.len() + 1
        &&& trace[0] == b
        &&& trace[b.len() as int] == x
        &&& forall|k: int|
            0 <= k < b.len() ==> #[trigger] self.solve_step(
                lower,
                unit,
                step_col(lower, b.len() as int, k),
                trace[k],
                trace[k + 1],
            )
    }

    /// Whether `x` is a result of the triangular solve of `b`: substitution
    /// column by column, in the scalar's arithmetic.
    pub open spec fn solves(&self, lower: bool, unit: bool, b: Seq<T>, x: Seq<T>) -> bool {
        exists|trace: Seq<Seq<T>>| self.is_solve_trace(lower, unit, b, x, trace)
    }

    /// The elimination of one column has changed exactly the entries that
    /// `step_entry` names.
    proof fn lemma_column_eliminated(
        &self,
        lower: bool,
        unit: bool,
        c: int,
        x: Seq<T>,
        y: Seq<T>,
    )
        requires
            self.wf(),
            self.spec_nrows() == self.spec_ncols(),
            0 <= c < self.spec_ncols(),
            x.len() == self.spec_ncols(),
            y.len() == x.len(),
            if !unit && self.has(c, c) {
                is_quotient(x[c], self.value_at(c, c), y[c])
            } else {
                y[c] == x[c]
            },
            forall|q: int|
                0 <= q < self.spec_col_rows(c).len() && eliminated_side(
                    lower,
                    c,
                    (#[trigger] self.spec_col_rows(c)[q]) as int,
                ) ==> is_eliminated(
                    x[self.spec_col_rows(c)[q] as int],
                    self.spec_col_values(c)[q],
                    y[c],
                    y[self.spec_col_rows(c)[q] as int],
                ),
            forall|r: int|
                0 <= r < x.len() && r != c && !(eliminated_side(lower, c, r) && self.has(r, c))
                    ==> #[trigger] y[r] == x[r],
        ensures
            self.solve_step(lower, unit, c, x, y),
    {
        assert forall|r: int| 0 <= r < x.len() && r != c implies #[trigger] self.step_entry(
            lower,
            c,
            r,
            x,
            y,
        ) by {
            if eliminated_side(lower, c, r) && self.has(r, c) {
                let q = self.lemma_col_has(c, r);
                self.lemma_col_entry(c, q);
            }
        }
    }

    /// Substitution column by column: `out` starts as `b`; for each column,
    /// its entry of `out` is divided by the diagonal value, and the stored
    /// values on the eliminated side, times that entry, are taken off the
    /// entries of their rows.
    fn triangular_solve(&self, lower: bool, unit: bool, b: &[T], out: &mut [T])
        requires
            self.wf(),
            self.spec_nrows() == self.spec_ncols(),
            self.spec_ncols() == b@.len(),
            old(out)@.len() == b@.len(),
        ensures
            final(out)@.len() == b@.len(),
            self.solves(lower, unit, b@, final(out)@),
    {
        let n = b.len();
        let mut i: usize = 0;
        while i < n
            invariant
                0 <= i <= n,
                n == b@.len(),
                out@.len() == n,
                forall|e: int| 0 <= e < i ==> #[trigger] out@[e] == b@[e],
            decreases n - i,
        {
            out[i] = b[i];
            i += 1;
        }
        assert(out@ =~= b@);
        let ghost mut trace: Seq<Seq<T>> = seq![b@];
        let mut k: usize = 0;
        while k < n
            invariant
                0 <= k <= n,
                n == b@.len(),
                out@.len() == n,
                self.wf(),
                self.spec_nrows() == self.spec_ncols(),
                self.spec_ncols() == n,
                trace.len() == k + 1,
                trace[0] == b@,
                trace[k as int] == out@,
                forall|e: int|
                    0 <= e < k ==> #[trigger] self.solve_step(
                        lower,
                        unit,
                        step_col(lower, n as int, e),
                        trace[e],
                        trace[e + 1],
                    ),
            decreases n - k,
        {
            let c = if lower {
                k
            } else {
                n - 1 - k
            };
            let ghost x = out@;
            let (vals, rows) = self.col(c);
            proof {
                self.lemma_col_sorted(c as int);
                assert forall|q: int| 0 <= q < rows@.len() implies (#[trigger] rows@[q]) < n
                    && vals@.len() == rows@.len() by {
                    self.lemma_col_entry(c as int, q);
                }
                if rows@.len() == 0 {
                    assert(vals@.len() == 0);
                }
            }
            if !unit {
                match find_row(rows, c) {
                    Some(q) => {
                        proof {
                            self.lemma_col_entry(c as int, q as int);
                        }
                        out[c] = out[c].div(vals[q]);
                    },
                    None => {
                        proof {
                            if self.has(c as int, c as int) {
                                let q = self.lemma_col_has(c as int, c as int);
                            }
                        }
                    },
                }
            }
            let pivot = out[c];
            let ghost mid = out@;
            let mut p: usize = 0;
            while p < rows.len()
                invariant
                    0 <= p <= rows@.len(),
                    vals@.len() == rows@.len(),
                    c < n,
                    out@.len() == n,
                    x.len() == n,
                    out@[c as int] == pivot,
                    forall|q: int| 0 <= q < rows@.len() ==> (#[trigger] rows@[q]) < n,
                    forall|q: int, w: int|
                        #![trigger rows@[q], rows@[w]]
                        0 <= q < w < rows@.len() ==> rows@[q] < rows@[w],
                    forall|q: int|
                        0 <= q < p && eliminated_side(lower, c as int, (#[trigger] rows@[q]) as int)
                            ==> is_eliminated(
                            x[rows@[q] as int],
                            vals@[q],
                            pivot,
                            out@[rows@[q] as int],
                        ),
                    forall|r: int|
                        0 <= r < n && r != c && !(exists|q: int|
                            0 <= q < p && #[trigger] rows@[q] == r && eliminated_side(
                                lower,
                                c as int,
                                r,
                            )) ==> #[trigger] out@[r] == x[r],
                decreases rows@.len() - p,
            {
                let r = rows[p];
                let on_side = if lower {
                    r > c
                } else {
                    r < c
                };
                if on_side {
                    let ghost before = out@;
                    proof {
                        assert(!(exists|q: int|
                            0 <= q < p && #[trigger] rows@[q] == r && eliminated_side(
                                lower,
                                c as int,
                                r as int,
                            ))) by {
                            if exists|q: int|
                                0 <= q < p && #[trigger] rows@[q] == r && eliminated_side(
                                    lower,
                                    c as int,
                                    r as int,
                                ) {
                                let q = choose|q: int|
                                    0 <= q < p && #[trigger] rows@[q] == r && eliminated_side(
                                        lower,
                                        c as int,
                                        r as int,
                                    );
                                assert(rows@[q] < rows@[p as int]);
                            }
                        }
                        assert(before[r as int] == x[r as int]);
                    }
                    let product = vals[p].mul(pivot);
                    out[r] = out[r].sub(product);
                    proof {
                        assert(is_product(vals@[p as int], pivot, product));
                        assert(is_difference(x[r as int], product, out@[r as int]));
                        assert forall|q: int|
                            0 <= q < p + 1 && eliminated_side(
                                lower,
                                c as int,
                                (#[trigger] rows@[q]) as int,
                            ) implies is_eliminated(
                            x[rows@[q] as int],
                            vals@[q],
                            pivot,
                            out@[rows@[q] as int],
                        ) by {
                            if q < p {
                                assert(rows@[q] < rows@[p as int]);
                                assert(out@[rows@[q] as int] == before[rows@[q] as int]);
                            }
                        }
                        assert forall|w: int|
                            0 <= w < n && w != c && !(exists|q: int|
                                0 <= q < p + 1 && #[trigger] rows@[q] == w && eliminated_side(
                                    lower,
                                    c as int,
                                    w,
                                )) implies #[trigger] out@[w] == x[w] by {
                            if w == r {
                                assert(rows@[p as int] == w);
                            } else {
                                assert(out@[w] == before[w]);
                                if exists|q: int|
                                    0 <= q < p && #[trigger] rows@[q] == w && eliminated_side(
                                        lower,
                                        c as int,
                                        w,
                                    ) {
                                    let q = choose|q: int|
                                        0 <= q < p && #[trigger] rows@[q] == w && eliminated_side(
                                            lower,
                                            c as int,
                                            w,
                                        );
                                    assert(0 <= q < p + 1 && rows@[q] == w);
                                }
                            }
                        }
                    }
                } else {
                    proof {
                        assert forall|w: int|
                            0 <= w < n && w != c && !(exists|q: int|
                                0 <= q < p + 1 && #[trigger] rows@[q] == w && eliminated_side(
                                    lower,
                                    c as int,
                                    w,
                                )) implies #[trigger] out@[w] == x[w] by {
                            if exists|q: int|
                                0 <= q < p && #[trigger] rows@[q] == w && eliminated_side(
                                    lower,
                                    c as int,
                                    w,
                                ) {
                                let q = choose|q: int|
                                    0 <= q < p && #[trigger] rows@[q] == w && eliminated_side(
                                        lower,
                                        c as int,
                                        w,
                                    );
                                assert(0 <= q < p + 1 && rows@[q] == w);
                            }
                        }
                    }
                }
                p += 1;
            }
            proof {
                let y = out@;
                assert forall|r: int|
                    0 <= r < x.len() && r != c && !(eliminated_side(lower, c as int, r) && self.has(
                        r,
                        c as int,
                    )) implies #[trigger] y[r] == x[r] by {
                    if exists|q: int|
                        0 <= q < rows@.len() && #[trigger] rows@[q] == r && eliminated_side(
                            lower,
                            c as int,
                            r,
                        ) {
                        let q = choose|q: int|
                            0 <= q < rows@.len() && #[trigger] rows@[q] == r && eliminated_side(
                                lower,
                                c as int,
                                r,
                            );
                        self.lemma_col_entry(c as int, q);
                    }
                }
                self.lemma_column_eliminated(lower, unit, c as int, x, y);
                let ghost grown = trace.push(y);
                assert forall|e: int| 0 <= e < k + 1 implies #[trigger] self.solve_step(
                    lower,
                    unit,
                    step_col(lower, n as int, e),
                    grown[e],
                    grown[e + 1],
                ) by {
                    if e < k {
                        assert(grown[e] == trace[e] && grown[e + 1] == trace[e + 1]);
                        assert(self.solve_step(
                            lower,
                            unit,
                            step_col(lower, n as int, e),
                            trace[e],
                            trace[e + 1],
                        ));
                    }
                }
                trace = grown;
            }
            k += 1;
        }
        proof {
            assert(self.is_solve_trace(lower, unit, b@, out@, trace));
        }
    }

    /// Solves a lower triangular system, `self` is a matrix of NxN, and `b` is a column vector of size N
    /// Assuming that b is dense.
    pub fn dense_lower_triangular_solve(&self, b: &[T], out: &mut [T], unit_diagonal: bool)
        requires
            self.wf(),
            self.spec_nrows() == self.spec_ncols(),
            self.spec_ncols() == b@.len(),
            old(out)@.len() == b@.len(),
        ensures
            final(out)@.len() == b@.len(),
            self.solves(true, unit_diagonal, b@, final(out)@),
    {
        self.triangular_solve(true, unit_diagonal, b, out)
    }

    /// Solves an upper triangular system, `self` is a matrix of NxN, and `b` is a column vector of size N
    /// Assuming that b is dense.
    pub fn dense_upper_triangular_solve(&self, b: &[T], out: &mut [T])
        requires
            self.wf(),
            self.spec_nrows() == self.spec_ncols(),
            self.spec_ncols() == b@.len(),
            old(out)@.len() == b@.len(),
        ensures
            final(out)@.len() == b@.len(),
            self.solves(false, false, b@, final(out)@),
    {
        self.triangular_solve(false, false, b, out)
    }

    /// Solves each component of the right-hand sides by itself.
    fn triangular_solve_arr<const N: usize>(
        &self,
        lower: bool,
        unit: bool,
        b: &[[T; N]],
        out: &mut [[T; N]],
    )
        requires
            self.wf(),
            self.spec_nrows() == self.spec_ncols(),
            self.spec_ncols() == b@.len(),
            old(out)@.len() == b@.len(),
        ensures
            final(out)@.len() == b@.len(),
            forall|d: int|
                0 <= d < N ==> #[trigger] self.solves(
                    lower,
                    unit,
                    component(b@, d),
                    component(final(out)@, d),
                ),
    {
        let n = b.len();
        let mut d: usize = 0;
        while d < N
            invariant
                0 <= d <= N,
                n == b@.len(),
                out@.len() == n,
                self.wf(),
                self.spec_nrows() == self.spec_ncols(),
                self.spec_ncols() == n,
                forall|e: int|
                    0 <= e < d ==> #[trigger] self.solves(
                        lower,
                        unit,
                        component(b@, e),
                        component(out@, e),
                    ),
            decreases N - d,
        {
            let mut rhs: Vec<T> = Vec::new();
            let mut sol: Vec<T> = Vec::new();
            let mut i: usize = 0;
            while i < n
                invariant
                    0 <= i <= n,
                    n == b@.len(),
                    d < N,
                    rhs@.len() == i,
                    sol@.len() == i,
                    forall|e: int| 0 <= e < i ==> #[trigger] rhs@[e] == b@[e]@[d as int],
                decreases n - i,
            {
                rhs.push(b[i][d]);
                sol.push(b[i][d]);
                i += 1;
            }
            assert(rhs@ =~= component(b@, d as int));
            self.triangular_solve(lower, unit, rhs.as_slice(), sol.as_mut_slice());
            let ghost before = out@;
            let mut i: usize = 0;
            while i < n
                invariant
                    0 <= i <= n,
                    n == b@.len(),
                    d < N,
                    out@.len() == n,
                    before.len() == n,
                    sol@.len() == n,
                    forall|r: int, e: int|
                        0 <= r < n && 0 <= e < N && e != d ==> #[trigger] out@[r]@[e]
                            == before[r]@[e],
                    forall|r: int| 0 <= r < i ==> (#[trigger] out@[r])@[d as int] == sol@[r],
                decreases n - i,
            {
                out[i][d] = sol[i];
                i += 1;
            }
            proof {
                assert(component(out@, d as int) =~= sol@);
                assert forall|e: int| 0 <= e < d + 1 implies #[trigger] self.solves(
                    lower,
                    unit,
                    component(b@, e),
                    component(out@, e),
                ) by {
                    if e < d {
                        assert(component(out@, e) =~= component(before, e));
                        assert(self.solves(lower, unit, component(b@, e), component(before, e)));
                    }
                }
            }
            d += 1;
        }
    }

    /// Solves a lower triangular system, `self` is a matrix of NxN, and `b` is a column vector of size N
    /// Assuming that b is dense. Each item of `b` holds one entry of `N`
    /// right-hand sides; each of them is solved as
    /// `dense_lower_triangular_solve` solves one.
    pub fn dense_lower_triangular_solve_arr<const N: usize>(
        &self,
        b: &[[T; N]],
        out: &mut [[T; N]],
        unit_diagonal: bool,
    )
        requires
            self.wf(),
            self.spec_nrows() == self.spec_ncols(),
            self.spec_ncols() == b@.len(),
            old(out)@.len() == b@.len(),
        ensures
            final(out)@.len() == b@.len(),
            forall|d: int|
                0 <= d < N ==> #[trigger] self.solves(
                    true,
                    unit_diagonal,
                    component(b@, d),
                    component(final(out)@, d),
                ),
    {
        self.triangular_solve_arr(true, unit_diagonal, b, out)
    }

    /// Solves an upper triangular system, `self` is a matrix of NxN, and `b` is a column vector of size N
    /// Assuming that b is dense. Each item of `b` holds one entry of `N`
    /// right-hand sides; each of them is solved as
    /// `dense_upper_triangular_solve` solves one.
    pub fn dense_upper_triangular_solve_arr<const N: usize>(&self, b: &[[T; N]], out: &mut [[T; N]])
        requires
            self.wf(),
            self.spec_nrows() == self.spec_ncols(),
            self.spec_ncols() == b@.len(),
            old(out)@.len() == b@.len(),
        ensures
            final(out)@.len() == b@.len(),
            forall|d: int|
                0 <= d < N ==> #[trigger] self.solves(
                    false,
                    false,
                    component(b@, d),
                    component(final(out)@, d),
                ),
    {
        self.triangular_solve_arr(false, false, b, out)
    }

    /// What one step of the sparse solve does to entry `j` of the vector, for
    /// `j` other than the entry `i` it works on: where `j` comes after `i`
    /// and `(pat[j], pat[i])` is stored, `y[j]` is `x[j] - value * y[i]`;
    /// elsewhere the entry stays.
    pub open spec fn sparse_entry(&self, pat: Seq<usize>, i: int, j: int, x: Seq<T>, y: Seq<T>) -> bool {
        if j > i && self.has(pat[j] as int, pat[i] as int) {
            is_eliminated(x[j], self.value_at(pat[j] as int, pat[i] as int), y[i], y[j])
        } else {
            y[j] == x[j]
        }
    }

    /// One step of the sparse solve, on entry `i` of the pattern, takes the
    /// vector `x` to `y`: entry `i` is divided by the diagonal value of its
    /// column where one is stored and the diagonal is not taken as one; then
    /// each other entry changes as `sparse_entry` says.
    pub open spec fn sparse_step(&self, unit: bool, pat: Seq<usize>, i: int, x: Seq<T>, y: Seq<T>) -> bool {
        &&& y.len() == x.len()
        &&& if !unit && self.has(pat[i] as int, pat[i] as int) {
            is_quotient(x[i], self.value_at(pat[i] as int, pat[i] as int), y[i])
        } else {
            y[i] == x[i]
        }
        &&& forall|j: int|
            0 <= j < x.len() && j != i ==> #[trigger] self.sparse_entry(pat, i, j, x, y)
    }

    /// Whether `trace` holds the vectors of a sparse solve that ends with
    /// `x`: it starts with the right-hand side laid out over the pattern,
    /// `z` where the right-hand side holds nothing, and takes one step for
    /// each entry of the pattern.
    pub open spec fn is_sparse_trace(
        &self,
        unit: bool,
        b_idxs: Seq<usize>,
        b: Seq<T>,
        pat: Seq<usize>,
        x: Seq<T>,
        z: T,
        trace: Seq<Seq<T>>,
    ) -> bool {
        &&& trace.len() == pat.len() + 1
        &&& trace[0] == Seq::new(
            pat.len(),
            |j: int| scattered(b_idxs, b, b.len() as int, pat[j] as int, z),
        )
        &&& trace[pat.len() as int] == x
        &&& forall|k: int|
            0 <= k < pat.len() ==> #[trigger] self.sparse_step(unit, pat, k, trace[k], trace[k + 1])
    }

    /// Whether `x` is a result of the sparse lower triangular solve of the
    /// right-hand side `(b_idxs, b)` over the pattern `pat`.
    pub open spec fn sparse_solves(
        &self,
        unit: bool,
        b_idxs: Seq<usize>,
        b: Seq<T>,
        pat: Seq<usize>,
        x: Seq<T>,
    ) -> bool {
        exists|z: T, trace: Seq<Seq<T>>|
            is_zero_of(z) && #[trigger] self.is_sparse_trace(unit, b_idxs, b, pat, x, z, trace)
    }

    /// Solves a sparse lower triangular system `Ax = b`, with both the matrix and vector
    /// sparse.
    /// `out_sparsity_pattern` names the row of each entry of `out`; it should
    /// hold every row that the solution is non-zero at, and must be sorted.
    /// Entries of the right-hand side at rows that it does not hold are left
    /// out.
    ///
    /// Assumes that the diagonal of the sparse matrix is all 1 if `assume_unit` is true.
    pub fn sparse_lower_triangular_solve_sorted(
        &self,
        b_idxs: &[usize],
        b: &[T],
        out_sparsity_pattern: &[usize],
        out: &mut [T],
        assume_unit: bool,
    )
        requires
            self.wf(),
            self.spec_nrows() == self.spec_ncols(),
            b_idxs@.len() == b@.len(),
            out_sparsity_pattern@.len() == old(out)@.len(),
            forall|j: int|
                0 <= j < out_sparsity_pattern@.len() ==> (#[trigger] out_sparsity_pattern@[j])
                    < self.spec_ncols(),
            forall|i: int, j: int|
                #![trigger out_sparsity_pattern@[i], out_sparsity_pattern@[j]]
                0 <= i < j < out_sparsity_pattern@.len() ==> out_sparsity_pattern@[i]
                    < out_sparsity_pattern@[j],
        ensures
            final(out)@.len() == out_sparsity_pattern@.len(),
            self.sparse_solves(assume_unit, b_idxs@, b@, out_sparsity_pattern@, final(out)@),
    {
        let pat = out_sparsity_pattern;
        let m = pat.len();
        let zero = T::zero();
        // initialize out with b
        let mut j: usize = 0;
        while j < m
            invariant
                0 <= j <= m,
                out@.len() == m,
                forall|e: int| 0 <= e < j ==> #[trigger] out@[e] == zero,
            decreases m - j,
        {
            out[j] = zero;
            j += 1;
        }
        let mut i: usize = 0;
        while i < b.len()
            invariant
                0 <= i <= b@.len(),
                b_idxs@.len() == b@.len(),
                m == pat@.len(),
                out@.len() == m,
                forall|i: int, j: int|
                    #![trigger pat@[i], pat@[j]]
                    0 <= i < j < pat@.len() ==> pat@[i] < pat@[j],
                forall|e: int|
                    0 <= e < m ==> #[trigger] out@[e] == scattered(
                        b_idxs@,
                        b@,
                        i as int,
                        pat@[e] as int,
                        zero,
                    ),
            decreases b@.len() - i,
        {
            let bv = b[i];
            let bi = b_idxs[i];
            let ghost before = out@;
            match find_row(pat, bi) {
                Some(pos) => {
                    out[pos] = bv;
                    proof {
                        assert forall|e: int| 0 <= e < m implies #[trigger] out@[e] == scattered(
                            b_idxs@,
                            b@,
                            i + 1,
                            pat@[e] as int,
                            zero,
                        ) by {
                            if e < pos {
                                assert(pat@[e] < pat@[pos as int]);
                            } else if e > pos {
                                assert(pat@[pos as int] < pat@[e]);
                            }
                            if e != pos {
                                assert(out@[e] == before[e]);
                            }
                        }
                    }
                },
                None => {},
            }
            i += 1;
        }
        // end init
        let ghost start = out@;
        let ghost mut trace: Seq<Seq<T>> = seq![out@];
        proof {
            assert(start =~= Seq::new(
                pat@.len(),
                |j: int| scattered(b_idxs@, b@, b@.len() as int, pat@[j] as int, zero),
            ));
        }
        // assuming that the output sparsity pattern is sorted
        // iterate thru
        let mut i: usize = 0;
        while i < m
            invariant
                0 <= i <= m,
                m == pat@.len(),
                out@.len() == m,
                self.wf(),
                self.spec_nrows() == self.spec_ncols(),
                forall|j: int| 0 <= j < pat@.len() ==> (#[trigger] pat@[j]) < self.spec_ncols(),
                forall|i: int, j: int|
                    #![trigger pat@[i], pat@[j]]
                    0 <= i < j < pat@.len() ==> pat@[i] < pat@[j],
                trace.len() == i + 1,
                trace[0] == start,
                trace[i as int] == out@,
                forall|e: int|
                    0 <= e < i ==> #[trigger] self.sparse_step(
                        assume_unit,
                        pat@,
                        e,
                        trace[e],
                        trace[e + 1],
                    ),
            decreases m - i,
        {
            let c = pat[i];
            let ghost x = out@;
            let (vals, rows) = self.col(c);
            proof {
                self.lemma_col_sorted(c as int);
                if rows@.len() > 0 {
                    self.lemma_col_entry(c as int, 0);
                }
            }
            if !assume_unit {
                match find_row(rows, c) {
                    Some(q) => {
                        proof {
                            self.lemma_col_entry(c as int, q as int);
                        }
                        out[i] = out[i].div(vals[q]);
                    },
                    None => {
                        proof {
                            if self.has(c as int, c as int) {
                                let q = self.lemma_col_has(c as int, c as int);
                            }
                        }
                    },
                }
            }
            let pivot = out[i];
            let mut cur: usize = 0;
            let mut ni: usize = i + 1;
            while ni < m
                invariant
                    i < ni <= m,
                    m == pat@.len(),
                    out@.len() == m,
                    x.len() == m,
                    c == pat@[i as int],
                    self.wf(),
                    c < self.spec_ncols(),
                    rows@ == self.spec_col_rows(c as int),
                    vals@ == self.spec_col_values(c as int),
                    vals@.len() == rows@.len(),
                    0 <= cur <= rows@.len(),
                    out@[i as int] == pivot,
                    forall|i: int, j: int|
                        #![trigger pat@[i], pat@[j]]
                        0 <= i < j < pat@.len() ==> pat@[i] < pat@[j],
                    forall|q: int, w: int|
                        #![trigger rows@[q], rows@[w]]
                        0 <= q < w < rows@.len() ==> rows@[q] < rows@[w],
                    ni < m ==> forall|q: int| 0 <= q < cur ==> (#[trigger] rows@[q]) < pat@[ni as int],
                    forall|j: int|
                        i < j < ni ==> #[trigger] self.sparse_entry(pat@, i as int, j, x, out@),
                    forall|j: int| 0 <= j < m && (j < i || j >= ni) ==> #[trigger] out@[j] == x[j],
                decreases m - ni,
            {
                let nrow = pat[ni];
                while cur < rows.len() && rows[cur] < nrow
                    invariant
                        0 <= cur <= rows@.len(),
                        forall|q: int| 0 <= q < cur ==> (#[trigger] rows@[q]) < nrow,
                    decreases rows@.len() - cur,
                {
                    cur += 1;
                }
                let ghost before = out@;
                if cur < rows.len() && rows[cur] == nrow {
                    proof {
                        self.lemma_col_entry(c as int, cur as int);
                    }
                    let product = vals[cur].mul(pivot);
                    out[ni] = out[ni].sub(product);
                    proof {
                        assert(is_product(vals@[cur as int], pivot, product));
                        assert(is_difference(x[ni as int], product, out@[ni as int]));
                        assert(self.sparse_entry(pat@, i as int, ni as int, x, out@));
                    }
                } else {
                    proof {
                        if self.has(nrow as int, c as int) {
                            let q = self.lemma_col_has(c as int, nrow as int);
                            if q < cur {
                                assert(rows@[q] < nrow);
                            } else if q > cur {
                                assert(rows@[cur as int] < rows@[q]);
                            }
                        }
                        assert(self.sparse_entry(pat@, i as int, ni as int, x, out@));
                    }
                }
                proof {
                    assert forall|j: int| i < j < ni + 1 implies #[trigger] self.sparse_entry(
                        pat@,
                        i as int,
                        j,
                        x,
                        out@,
                    ) by {
                        if j < ni {
                            assert(self.sparse_entry(pat@, i as int, j, x, before));
                            assert(out@[j] == before[j]);
                            assert(out@[i as int] == before[i as int]);
                        }
                    }
                    if ni + 1 < m {
                        assert(pat@[ni as int] < pat@[ni + 1]);
                    }
                }
                ni += 1;
            }
            proof {
                let y = out@;
                assert forall|j: int| 0 <= j < x.len() && j != i implies #[trigger] self.sparse_entry(
                    pat@,
                    i as int,
                    j,
                    x,
                    y,
                ) by {}
                assert(self.sparse_step(assume_unit, pat@, i as int, x, y));
                let ghost grown = trace.push(y);
                assert forall|e: int| 0 <= e < i + 1 implies #[trigger] self.sparse_step(
                    assume_unit,
                    pat@,
                    e,
                    grown[e],
                    grown[e + 1],
                ) by {
                    if e < i {
                        assert(grown[e] == trace[e] && grown[e + 1] == trace[e + 1]);
                        assert(self.sparse_step(assume_unit, pat@, e, trace[e], trace[e + 1]));
                    }
                }
                trace = grown;
            }
            i += 1;
        }
        proof {
            assert(is_zero_of(zero));
            assert(self.is_sparse_trace(assume_unit, b_idxs@, b@, pat@, out@, zero, trace));
        }
    }

    /// What the product does to entry `r` of the result when it takes in
    /// column `c`: where `(r, c)` is stored, `w[r]` is `y[r] + value * xc`;
    /// elsewhere the entry stays.
    pub open spec fn product_entry(&self, c: int, r: int, xc: T, y: Seq<T>, w: Seq<T>) -> bool {
        if self.has(r, c) {
            is_accumulated(y[r], self.value_at(r, c), xc, w[r])
        } else {
            w[r] == y[r]
        }
    }

    /// Taking in column `c`, times `xc`, takes the result `y` to `w`.
    pub open spec fn product_step(&self, c: int, xc: T, y: Seq<T>, w: Seq<T>) -> bool {
        &&& w.len() == y.len()
        &&& forall|r: int| 0 <= r < y.len() ==> #[trigger] self.product_entry(c, r, xc, y, w)
    }

    /// Whether `trace` holds the vectors of a product with `x` that ends with
    /// `y`: it starts with `z` in every row and takes in one column after
    /// another.
    pub open spec fn is_product_trace(&self, x: Seq<T>, y: Seq<T>, z: T, trace: Seq<Seq<T>>) -> bool {
        &&& trace.len() == x.len() + 1
        &&& trace[0] == Seq::new(self.spec_nrows() as nat, |r: int| z)
        &&& trace[x.len() as int] == y
        &&& forall|c: int|
            0 <= c < x.len() ==> #[trigger] self.product_step(c, x[c], trace[c], trace[c + 1])
    }

    /// Whether `y` is a result of the product of the matrix and `x`.
    pub open spec fn multiplies(&self, x: Seq<T>, y: Seq<T>) -> bool {
        exists|z: T, trace: Seq<Seq<T>>|
            is_zero_of(z) && #[trigger] self.is_product_trace(x, y, z, trace)
    }

    /// The product of the matrix and the dense vector `x`: the stored values
    /// of each column, times that column's entry of `x`, are added to the
    /// entries of their rows, column after column.
    pub fn vecmul(&self, x: &[T]) -> (y: Vec<T>)
        requires
            self.wf(),
            x@.len() == self.spec_ncols(),
        ensures
            y@.len() == self.spec_nrows(),
            self.multiplies(x@, y@),
    {
        let rows_count = self.nrows();
        let n = x.len();
        let zero = T::zero();
        let mut y: Vec<T> = Vec::new();
        let mut r: usize = 0;
        while r < rows_count
            invariant
                0 <= r <= rows_count,
                y@.len() == r,
                forall|e: int| 0 <= e < r ==> #[trigger] y@[e] == zero,
            decreases rows_count - r,
        {
            y.push(zero);
            r += 1;
        }
        let ghost start = y@;
        let ghost mut trace: Seq<Seq<T>> = seq![y@];
        proof {
            assert(start =~= Seq::new(self.spec_nrows() as nat, |r: int| zero));
        }
        let mut c: usize = 0;
        while c < n
            invariant
                0 <= c <= n,
                n == x@.len(),
                self.wf(),
                n == self.spec_ncols(),
                rows_count == self.spec_nrows(),
                y@.len() == rows_count,
                trace.len() == c + 1,
                trace[0] == start,
                trace[c as int] == y@,
                forall|e: int|
                    0 <= e < c ==> #[trigger] self.product_step(e, x@[e], trace[e], trace[e + 1]),
            decreases n - c,
        {
            let xc = x[c];
            let ghost before = y@;
            let (vals, rows) = self.col(c);
            proof {
                self.lemma_col_sorted(c as int);
                assert forall|q: int| 0 <= q < rows@.len() implies (#[trigger] rows@[q])
                    < rows_count && vals@.len() == rows@.len() by {
                    self.lemma_col_entry(c as int, q);
                }
                if rows@.len() == 0 {
                    assert(vals@.len() == 0);
                }
            }
            let mut p: usize = 0;
            while p < rows.len()
                invariant
                    0 <= p <= rows@.len(),
                    vals@.len() == rows@.len(),
                    y@.len() == rows_count,
                    before.len() == rows_count,
                    forall|q: int| 0 <= q < rows@.len() ==> (#[trigger] rows@[q]) < rows_count,
                    forall|q: int, w: int|
                        #![trigger rows@[q], rows@[w]]
                        0 <= q < w < rows@.len() ==> rows@[q] < rows@[w],
                    forall|q: int|
                        0 <= q < p ==> is_accumulated(
                            before[(#[trigger] rows@[q]) as int],
                            vals@[q],
                            xc,
                            y@[rows@[q] as int],
                        ),
                    forall|r: int|
                        0 <= r < rows_count && !(exists|q: int| 0 <= q < p && #[trigger] rows@[q] == r)
                            ==> #[trigger] y@[r] == before[r],
                decreases rows@.len() - p,
            {
                let r = rows[p];
                let ghost mid = y@;
                proof {
                    assert(!(exists|q: int| 0 <= q < p && #[trigger] rows@[q] == r)) by {
                        if exists|q: int| 0 <= q < p && #[trigger] rows@[q] == r {
                            let q = choose|q: int| 0 <= q < p && #[trigger] rows@[q] == r;
                            assert(rows@[q] < rows@[p as int]);
                        }
                    }
                    assert(mid[r as int] == before[r as int]);
                }
                let product = vals[p].mul(xc);
                let sum = y[r].add(product);
                y[r] = sum;
                proof {
                    assert(is_product(vals@[p as int], xc, product));
                    assert(is_sum(before[r as int], product, y@[r as int]));
                    assert forall|q: int| 0 <= q < p + 1 implies is_accumulated(
                        before[(#[trigger] rows@[q]) as int],
                        vals@[q],
                        xc,
                        y@[rows@[q] as int],
                    ) by {
                        if q < p {
                            assert(rows@[q] < rows@[p as int]);
                            assert(y@[rows@[q] as int] == mid[rows@[q] as int]);
                        }
                    }
                    assert forall|w: int|
                        0 <= w < rows_count && !(exists|q: int|
                            0 <= q < p + 1 && #[trigger] rows@[q] == w) implies #[trigger] y@[w]
                        == before[w] by {
                        if w == r {
                            assert(rows@[p as int] == w);
                        } else {
                            assert(y@[w] == mid[w]);
                            if exists|q: int| 0 <= q < p && #[trigger] rows@[q] == w {
                                let q = choose|q: int| 0 <= q < p && #[trigger] rows@[q] == w;
                                assert(0 <= q < p + 1 && rows@[q] == w);
                            }
                        }
                    }
                }
                p += 1;
            }
            proof {
                let w = y@;
                assert forall|r: int| 0 <= r < before.len() implies #[trigger] self.product_entry(
                    c as int,
                    r,
                    xc,
                    before,
                    w,
                ) by {
                    if self.has(r, c as int) {
                        let q = self.lemma_col_has(c as int, r);
                        self.lemma_col_entry(c as int, q);
                    } else {
                        if exists|q: int| 0 <= q < rows@.len() && #[trigger] rows@[q] == r {
                            let q = choose|q: int| 0 <= q < rows@.len() && #[trigger] rows@[q] == r;
                            self.lemma_col_entry(c as int, q);
                        }
                    }
                }
                let ghost grown = trace.push(w);
                assert forall|e: int| 0 <= e < c + 1 implies #[trigger] self.product_step(
                    e,
                    x@[e],
                    grown[e],
                    grown[e + 1],
                ) by {
                    if e < c {
                        assert(grown[e] == trace[e] && grown[e + 1] == trace[e + 1]);
                        assert(self.product_step(e, x@[e], trace[e], trace[e + 1]));
                    }
                }
                trace = grown;
            }
            c += 1;
        }
        proof {
            assert(is_zero_of(zero));
            assert(self.is_product_trace(x@, y@, zero, trace));
        }
        y
    }
}

/// What a triangular solve against a matrix that stores its diagonal and
/// nothing else has made of entry `i` of the right-hand side `b` once the
/// entry's column is done: the entry itself where the diagonal is taken as
/// one, else the entry divided by the diagonal value.
pub open spec fn diagonal_entry<T: Scalar>(a: Csc<T>, unit: bool, b: Seq<T>, x: Seq<T>, i: int) -> bool {
    if unit {
        x[i] == b[i]
    } else {
        is_quotient(b[i], a.value_at(i, i), x[i])
    }
}

/// After `k` steps of a triangular solve against a diagonal matrix, the
/// entries of the columns done are as `diagonal_entry` says, and the others
/// are those of the right-hand side.
proof fn lemma_diagonal_trace<T: Scalar>(
    a: Csc<T>,
    lower: bool,
    unit: bool,
    b: Seq<T>,
    x: Seq<T>,
    trace: Seq<Seq<T>>,
    k: int,
)
    requires
        is_diagonal(a),
        b.len() == a.spec_ncols(),
        a.is_solve_trace(lower, unit, b, x, trace),
        0 <= k <= b.len(),
    ensures
        trace[k].len() == b.len(),
        forall|i: int|
            0 <= i < b.len() ==> if exists|e: int|
                0 <= e < k && #[trigger] step_col(lower, b.len() as int, e) == i {
                diagonal_entry(a, unit, b, #[trigger] trace[k], i)
            } else {
                trace[k][i] == b[i]
            },
    decreases k,
{
    let n = b.len() as int;
    if k > 0 {
        lemma_diagonal_trace(a, lower, unit, b, x, trace, k - 1);
        let c = step_col(lower, n, k - 1);
        let u = trace[k - 1];
        let y = trace[k];
        assert(a.solve_step(lower, unit, c, u, trace[k - 1 + 1]));
        assert(a.has(c, c));
        assert(!(exists|e: int| 0 <= e < k - 1 && #[trigger] step_col(lower, n, e) == c));
        assert forall|i: int| 0 <= i < n implies if exists|e: int|
            0 <= e < k && #[trigger] step_col(lower, n, e) == i {
            diagonal_entry(a, unit, b, y, i)
        } else {
            y[i] == b[i]
        } by {
            if i == c {
                assert(step_col(lower, n, k - 1) == i);
            } else {
                assert(a.step_entry(lower, c, i, u, y));
                assert(!a.has(i, c));
                if exists|e: int| 0 <= e < k && #[trigger] step_col(lower, n, e) == i {
                    let e = choose|e: int| 0 <= e < k && #[trigger] step_col(lower, n, e) == i;
                    assert(0 <= e < k - 1 && step_col(lower, n, e) == i);
                }
            }
        }
    }
}

/// A triangular solve against a matrix that stores its diagonal and nothing
/// else gives the right-hand side back where the diagonal is taken as one,
/// and else divides each entry by the diagonal value of its row.
pub proof fn lemma_diagonal_solve<T: Scalar>(
    a: Csc<T>,
    lower: bool,
    unit: bool,
    b: Seq<T>,
    x: Seq<T>,
)
    requires
        is_diagonal(a),
        b.len() == a.spec_ncols(),
        a.solves(lower, unit, b, x),
    ensures
        x.len() == b.len(),
        forall|i: int| 0 <= i < b.len() ==> #[trigger] diagonal_entry(a, unit, b, x, i),
        unit ==> x == b,
{
    let n = b.len() as int;
    let trace = choose|trace: Seq<Seq<T>>| a.is_solve_trace(lower, unit, b, x, trace);
    lemma_diagonal_trace(a, lower, unit, b, x, trace, n);
    assert forall|i: int| 0 <= i < n implies #[trigger] diagonal_entry(a, unit, b, x, i) by {
        let e = if lower {
            i
        } else {
            n - 1 - i
        };
        assert(0 <= e < n && step_col(lower, n, e) == i);
    }
    if unit {
        assert(x =~= b);
    }
}

} // verus!
