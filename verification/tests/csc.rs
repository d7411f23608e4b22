use sparse_lu::csc::CscBuilder;
use sparse_lu::{BuilderInsertError, Csc, Scalar};
use std::collections::BTreeMap;

/// A single-precision scalar.
#[derive(Clone, Copy, Debug, PartialEq)]
struct Real(f32);

impl Scalar for Real {
    fn zero() -> Self {
        Real(0.)
    }
    fn one() -> Self {
        Real(1.)
    }
    fn add(self, rhs: Self) -> Self {
        Real(self.0 + rhs.0)
    }
    fn sub(self, rhs: Self) -> Self {
        Real(self.0 - rhs.0)
    }
    fn mul(self, rhs: Self) -> Self {
        Real(self.0 * rhs.0)
    }
    fn div(self, rhs: Self) -> Self {
        Real(self.0 / rhs.0)
    }
    fn is_zero(self) -> bool {
        self.0 == 0.
    }
    fn is_finite(self) -> bool {
        self.0.is_finite()
    }
    fn abs_lt(self, rhs: Self) -> bool {
        self.0.abs() < rhs.0.abs()
    }
}

fn reals(v: &[f32]) -> Vec<Real> {
    v.iter().map(|&x| Real(x)).collect()
}

#[test]
fn test_dense_lower_triangular_solve() {
    let mut a: Csc<Real> = Csc::identity(3);
    let v = [Real(1.), Real(2.), Real(3.)];
    let mut out = [Real(0.); 3];
    a.dense_lower_triangular_solve(&v, &mut out, true);
    assert_eq!(out, v);
    a.dense_lower_triangular_solve(&v, &mut out, false);
    assert_eq!(out, v);

    a.values_mut()[0] = Real(2.);

    a.dense_lower_triangular_solve(&v, &mut out, false);
    assert_eq!(out, [Real(0.5), Real(2.), Real(3.)]);
    a.dense_lower_triangular_solve(&v, &mut out, true);
    assert_eq!(out, v);
}

#[test]
fn test_permuting() {
    let mut a: Csc<Real> = Csc::identity(3);
    a.swap_rows(1, 2);
    assert_eq!(a.col(0).1, &[0]);
    assert_eq!(a.col(1).1, &[2]);
    assert_eq!(a.col(2).1, &[1]);

    let mut dense = Csc::from_triplets(
        3,
        3,
        &mut [
            ([0, 0], 0.),
            ([0, 1], 1.),
            ([0, 2], 2.),
            ([1, 0], 3.),
            ([1, 1], 4.),
            ([1, 2], 5.),
            ([2, 0], 6.),
            ([2, 1], 7.),
            ([2, 2], 8.),
        ],
    )
    .unwrap();
    dense.swap_rows(1, 2);
    assert_eq!(
        ([0., 6., 3.].as_slice(), [0, 1, 2].as_slice()),
        dense.col(0)
    );
    assert_eq!(
        ([1., 7., 4.].as_slice(), [0, 1, 2].as_slice()),
        dense.col(1)
    );
    assert_eq!(
        ([2., 8., 5.].as_slice(), [0, 1, 2].as_slice()),
        dense.col(2)
    );
}

#[test]
fn identity_has_ones_on_the_diagonal() {
    let a: Csc<Real> = Csc::identity(4);
    assert_eq!(a.nrows(), 4);
    assert_eq!(a.ncols(), 4);
    assert_eq!(a.values(), reals(&[1., 1., 1., 1.]).as_slice());
    assert_eq!(a.pattern().entries(), vec![[0, 0], [1, 1], [2, 2], [3, 3]]);
    for i in 0..4 {
        assert_eq!(a.col(i).1, &[i]);
    }
}

#[test]
fn identity_of_size_zero_is_empty() {
    let a: Csc<Real> = Csc::identity(0);
    assert_eq!(a.nrows(), 0);
    assert_eq!(a.ncols(), 0);
    assert!(a.values().is_empty());
}

#[test]
fn from_triplets_sorts_by_column_then_row() {
    let mut t = [([0, 2], 7), ([1, 0], 3), ([1, 1], 5), ([0, 0], 1), ([2, 2], 9)];
    let m = Csc::from_triplets(3, 3, &mut t).unwrap();
    assert_eq!(
        t,
        [([0, 0], 1), ([1, 0], 3), ([1, 1], 5), ([0, 2], 7), ([2, 2], 9)]
    );
    assert_eq!(m.nrows(), 3);
    assert_eq!(m.ncols(), 3);
    assert_eq!(m.col(0), ([1, 3].as_slice(), [0, 1].as_slice()));
    assert_eq!(m.col(1), ([5].as_slice(), [1].as_slice()));
    assert_eq!(m.col(2), ([7, 9].as_slice(), [0, 2].as_slice()));
    assert_eq!(
        m.pattern().entries(),
        vec![[0, 0], [0, 1], [1, 1], [2, 0], [2, 2]]
    );
}

#[test]
fn from_triplets_reads_a_position_as_row_then_column() {
    let mut t = [([1, 1], 3.), ([0, 1], 5.)];
    let m = Csc::from_triplets(2, 2, &mut t).unwrap();
    assert_eq!(t, [([0, 1], 5.), ([1, 1], 3.)]);
    assert!(m.col(0).1.is_empty());
    assert_eq!(m.col(1), ([5., 3.].as_slice(), [0, 1].as_slice()));
    let mut t = [([0, 1], 7), ([1, 0], 9)];
    let m = Csc::from_triplets(2, 2, &mut t).unwrap();
    assert_eq!(t, [([1, 0], 9), ([0, 1], 7)]);
    assert_eq!(m.col(0), ([9].as_slice(), [1].as_slice()));
    assert_eq!(m.col(1), ([7].as_slice(), [0].as_slice()));
}

#[test]
fn from_triplets_refuses_a_repeated_position() {
    let mut t = [([2, 1], 1), ([0, 0], 2), ([2, 1], 3)];
    let r = Csc::from_triplets(3, 3, &mut t);
    assert_eq!(r, Err(BuilderInsertError::MinorTooLow(2, 2)));
}

#[test]
fn from_triplets_takes_a_rectangular_matrix() {
    let mut t = [([3, 1], 4), ([2, 0], 5)];
    let m = Csc::from_triplets(4, 2, &mut t).unwrap();
    assert_eq!(m.nrows(), 4);
    assert_eq!(m.ncols(), 2);
    assert_eq!(m.col(0), ([5].as_slice(), [2].as_slice()));
    assert_eq!(m.col(1), ([4].as_slice(), [3].as_slice()));
}

#[test]
fn from_triplets_of_nothing_is_empty() {
    let mut t: [([usize; 2], i32); 0] = [];
    let m = Csc::from_triplets(2, 2, &mut t).unwrap();
    assert!(m.values().is_empty());
    assert!(m.col(0).1.is_empty());
    assert!(m.col(1).1.is_empty());
}

#[test]
fn from_btreemap_sorts_the_entries_by_column() {
    let mut map = BTreeMap::new();
    map.insert([0, 1], 5);
    map.insert([1, 0], 2);
    map.insert([0, 0], 1);
    map.insert([1, 1], 3);
    let m = Csc::from_btreemap(2, 2, &map).unwrap();
    assert_eq!(m.col(0), ([1, 2].as_slice(), [0, 1].as_slice()));
    assert_eq!(m.col(1), ([5, 3].as_slice(), [0, 1].as_slice()));
}

#[test]
fn from_btreemap_stores_the_entries_of_the_map() {
    let mut map = BTreeMap::new();
    map.insert([1, 2], 8);
    map.insert([2, 0], 6);
    map.insert([0, 0], 4);
    map.insert([1, 1], 2);
    let m = Csc::from_btreemap(3, 3, &map).unwrap();
    assert_eq!(m.col(0), ([4, 6].as_slice(), [0, 2].as_slice()));
    assert_eq!(m.col(1), ([2].as_slice(), [1].as_slice()));
    assert_eq!(m.col(2), ([8].as_slice(), [1].as_slice()));
    let mut t = [([1, 2], 8), ([2, 0], 6), ([0, 0], 4), ([1, 1], 2)];
    assert_eq!(Csc::from_triplets(3, 3, &mut t).unwrap(), m);
}

#[test]
fn col_iter_pairs_rows_with_values() {
    let mut t = [([2, 0], 5), ([0, 0], 3), ([1, 1], 7)];
    let m = Csc::from_triplets(3, 2, &mut t).unwrap();
    assert_eq!(m.col_iter(0), vec![(0, &3), (2, &5)]);
    assert_eq!(m.col_iter(1), vec![(1, &7)]);
}

#[test]
fn swap_rows_twice_gives_the_matrix_back() {
    let mut t = [
        ([0, 0], 1),
        ([3, 0], 2),
        ([1, 1], 3),
        ([2, 1], 4),
        ([3, 1], 5),
        ([0, 2], 6),
        ([1, 2], 7),
        ([2, 2], 8),
        ([3, 2], 9),
        ([2, 3], 10),
    ];
    let m = Csc::from_triplets(4, 4, &mut t).unwrap();
    for a in 0..4 {
        for b in 0..4 {
            let mut w = m.clone();
            w.swap_rows(a, b);
            w.swap_rows(a, b);
            assert_eq!(w, m);
        }
    }
}

#[test]
fn swap_rows_moves_values_with_their_rows() {
    let mut t = [([0, 0], 1), ([3, 0], 2), ([1, 1], 3), ([2, 1], 4), ([3, 1], 5)];
    let mut m = Csc::from_triplets(4, 2, &mut t).unwrap();
    m.swap_rows(0, 2);
    // column 0 held rows 0 and 3; row 0 is now row 2
    assert_eq!(m.col(0), ([1, 2].as_slice(), [2, 3].as_slice()));
    // column 1 held rows 1, 2 and 3; row 2 is now row 0
    assert_eq!(m.col(1), ([4, 3, 5].as_slice(), [0, 1, 3].as_slice()));
    m.swap_rows(3, 1);
    assert_eq!(m.col(0), ([2, 1].as_slice(), [1, 2].as_slice()));
    assert_eq!(m.col(1), ([4, 5, 3].as_slice(), [0, 1, 3].as_slice()));
}

#[test]
fn dense_lower_solve_substitutes_forward() {
    // [2 0 0; 1 4 0; 3 0 8] x = [2, 9, 19]
    let mut t = [
        ([0, 0], Real(2.)),
        ([1, 0], Real(1.)),
        ([2, 0], Real(3.)),
        ([1, 1], Real(4.)),
        ([2, 2], Real(8.)),
    ];
    let l = Csc::from_triplets(3, 3, &mut t).unwrap();
    let b = reals(&[2., 9., 19.]);
    let mut x = reals(&[0.; 3]);
    l.dense_lower_triangular_solve(&b, &mut x, false);
    assert_eq!(x, reals(&[1., 2., 2.]));
    // with a unit diagonal the stored diagonal is passed over
    l.dense_lower_triangular_solve(&b, &mut x, true);
    assert_eq!(x, reals(&[2., 7., 13.]));
}

#[test]
fn dense_lower_solve_passes_over_the_upper_triangle() {
    let mut t = [
        ([0, 0], Real(2.)),
        ([0, 1], Real(100.)),
        ([1, 1], Real(4.)),
        ([1, 0], Real(1.)),
    ];
    let l = Csc::from_triplets(2, 2, &mut t).unwrap();
    let b = reals(&[2., 9.]);
    let mut x = reals(&[0.; 2]);
    l.dense_lower_triangular_solve(&b, &mut x, false);
    assert_eq!(x, reals(&[1., 2.]));
}

#[test]
fn dense_upper_solve_substitutes_backward() {
    // [2 1 3; 0 4 0; 0 0 8] x = [10, 8, 16]
    let mut t = [
        ([0, 0], Real(2.)),
        ([0, 1], Real(1.)),
        ([1, 1], Real(4.)),
        ([0, 2], Real(3.)),
        ([2, 2], Real(8.)),
    ];
    let u = Csc::from_triplets(3, 3, &mut t).unwrap();
    let b = reals(&[10., 8., 16.]);
    let mut x = reals(&[0.; 3]);
    u.dense_upper_triangular_solve(&b, &mut x);
    assert_eq!(x, reals(&[1., 2., 2.]));
}

#[test]
fn dense_solve_without_a_diagonal_leaves_the_entry() {
    let mut t = [([1, 0], Real(3.)), ([1, 1], Real(2.))];
    let l = Csc::from_triplets(2, 2, &mut t).unwrap();
    let b = reals(&[5., 19.]);
    let mut x = reals(&[0.; 2]);
    l.dense_lower_triangular_solve(&b, &mut x, false);
    assert_eq!(x, reals(&[5., 2.]));
}

#[test]
fn dense_solves_of_several_right_hand_sides() {
    let mut t = [
        ([0, 0], Real(2.)),
        ([1, 0], Real(1.)),
        ([2, 0], Real(3.)),
        ([1, 1], Real(4.)),
        ([2, 2], Real(8.)),
    ];
    let l = Csc::from_triplets(3, 3, &mut t).unwrap();
    let b = [
        [Real(2.), Real(4.)],
        [Real(9.), Real(6.)],
        [Real(19.), Real(14.)],
    ];
    let mut x = [[Real(0.); 2]; 3];
    l.dense_lower_triangular_solve_arr(&b, &mut x, false);
    assert_eq!(
        x,
        [
            [Real(1.), Real(2.)],
            [Real(2.), Real(1.)],
            [Real(2.), Real(1.)]
        ]
    );
    let mut t = [
        ([0, 0], Real(2.)),
        ([0, 1], Real(1.)),
        ([1, 1], Real(4.)),
        ([0, 2], Real(3.)),
        ([2, 2], Real(8.)),
    ];
    let u = Csc::from_triplets(3, 3, &mut t).unwrap();
    let b = [
        [Real(10.), Real(7.)],
        [Real(8.), Real(4.)],
        [Real(16.), Real(8.)],
    ];
    u.dense_upper_triangular_solve_arr(&b, &mut x);
    assert_eq!(
        x,
        [
            [Real(1.), Real(1.5)],
            [Real(2.), Real(1.)],
            [Real(2.), Real(1.)]
        ]
    );
}

#[test]
fn sparse_lower_solve_over_a_pattern() {
    // L = [1 0 0 0; 2 1 0 0; 0 0 1 0; 0 3 0 1], b = 5 e_0
    let mut t = [
        ([0, 0], Real(1.)),
        ([1, 0], Real(2.)),
        ([1, 1], Real(1.)),
        ([3, 1], Real(3.)),
        ([2, 2], Real(1.)),
        ([3, 3], Real(1.)),
    ];
    let l = Csc::from_triplets(4, 4, &mut t).unwrap();
    let mut pat = Vec::new();
    l.pattern().sparse_lower_triangular_solve(&[0], &mut pat);
    pat.sort();
    assert_eq!(pat, vec![0, 1, 3]);
    let mut x = reals(&[9.; 3]);
    l.sparse_lower_triangular_solve_sorted(&[0], &reals(&[5.]), &pat, &mut x, true);
    assert_eq!(x, reals(&[5., -10., 30.]));
    l.sparse_lower_triangular_solve_sorted(&[0], &reals(&[5.]), &pat, &mut x, false);
    assert_eq!(x, reals(&[5., -10., 30.]));
}

#[test]
fn sparse_lower_solve_divides_by_the_diagonal() {
    let mut t = [
        ([0, 0], Real(2.)),
        ([1, 0], Real(4.)),
        ([1, 1], Real(8.)),
    ];
    let l = Csc::from_triplets(2, 2, &mut t).unwrap();
    let mut x = reals(&[0.; 2]);
    l.sparse_lower_triangular_solve_sorted(
        &[1, 0],
        &reals(&[20., 2.]),
        &[0, 1],
        &mut x,
        false,
    );
    assert_eq!(x, reals(&[1., 2.]));
}

#[test]
fn sparse_lower_solve_leaves_out_rows_outside_the_pattern() {
    let l: Csc<Real> = Csc::identity(3);
    let mut x = reals(&[7.; 2]);
    l.sparse_lower_triangular_solve_sorted(
        &[0, 1, 2],
        &reals(&[1., 2., 3.]),
        &[0, 2],
        &mut x,
        true,
    );
    assert_eq!(x, reals(&[1., 3.]));
}

#[test]
fn vecmul_adds_up_the_columns() {
    // [1 0 2; 0 3 0; 4 0 5] * [1, 2, 3]
    let mut t = [
        ([0, 0], Real(1.)),
        ([2, 0], Real(4.)),
        ([1, 1], Real(3.)),
        ([0, 2], Real(2.)),
        ([2, 2], Real(5.)),
    ];
    let a = Csc::from_triplets(3, 3, &mut t).unwrap();
    assert_eq!(
        a.vecmul(&reals(&[1., 2., 3.])),
        reals(&[7., 6., 19.])
    );
}

#[test]
fn builder_builds_column_by_column() {
    let mut b = CscBuilder::new(3, 2);
    assert_eq!(b.insert(0, 0, 1), Ok(()));
    assert_eq!(b.insert(2, 0, 2), Ok(()));
    assert_eq!(b.insert(1, 1, 3), Ok(()));
    assert_eq!(b.insert(1, 1, 4), Err(BuilderInsertError::MinorTooLow(1, 1)));
    assert_eq!(b.insert(0, 0, 5), Err(BuilderInsertError::MajorTooLow(1)));
    let m = b.build();
    assert_eq!(m.nrows(), 3);
    assert_eq!(m.ncols(), 2);
    assert_eq!(m.col(0), ([1, 2].as_slice(), [0, 2].as_slice()));
    assert_eq!(m.col(1), ([3].as_slice(), [1].as_slice()));
}

#[test]
fn builder_reverts_to_a_column() {
    let mut t = [([0, 0], 1), ([2, 0], 2), ([1, 1], 3), ([0, 2], 4)];
    let m = Csc::from_triplets(3, 3, &mut t).unwrap();
    let mut b = CscBuilder::from_mat(m);
    assert!(!b.revert_to_col(3));
    assert!(b.revert_to_col(1));
    assert_eq!(b.insert(0, 1, 9), Err(BuilderInsertError::MinorTooLow(0, 1)));
    assert_eq!(b.insert(2, 1, 9), Ok(()));
    let m = b.build();
    assert_eq!(m.col(0), ([1, 2].as_slice(), [0, 2].as_slice()));
    assert_eq!(m.col(1), ([3, 9].as_slice(), [1, 2].as_slice()));
    assert!(m.col(2).1.is_empty());
}
