use sparse_lu::csc::{Csc, CscBuilder};
use sparse_lu::sparse_lu::FactorizationError;
use sparse_lu::LeftLookingLUFactorization;
use sparse_lu::Scalar;

/// A single-precision scalar.
#[derive(Clone, Copy, Debug, PartialEq)]
struct Real(f32);

impl Scalar for Real {
    fn zero() -> Self {
        Real(0.)
    }
    fn one() -> Self {
        Real(1.)
    }
    fn add(self, rhs: Self) -> Self {
        Real(self.0 + rhs.0)
    }
    fn sub(self, rhs: Self) -> Self {
        Real(self.0 - rhs.0)
    }
    fn mul(self, rhs: Self) -> Self {
        Real(self.0 * rhs.0)
    }
    fn div(self, rhs: Self) -> Self {
        Real(self.0 / rhs.0)
    }
    fn is_zero(self) -> bool {
        self.0 == 0.
    }
    fn is_finite(self) -> bool {
        self.0.is_finite()
    }
    fn abs_lt(self, rhs: Self) -> bool {
        self.0.abs() < rhs.0.abs()
    }
}

fn matrix(rows: usize, cols: usize, t: &[([usize; 2], f32)]) -> Csc<Real> {
    let mut t: Vec<([usize; 2], Real)> = t.iter().map(|&(k, v)| (k, Real(v))).collect();
    Csc::from_triplets(rows, cols, &mut t).unwrap()
}

#[test]
fn test_basic_lu_factorization() {
    let n = 5;
    let mut a = CscBuilder::new(n, n);
    for i in 0..n {
        assert!(matches!(a.insert(i, i, Real(1.)), Ok(_)));
    }
    // construct an identity matrix as a basic test
    let a = a.build();

    let lu_fact = LeftLookingLUFactorization::new(&a).unwrap();

    assert_eq!(lu_fact.lu(), &a);
    assert_eq!(lu_fact.pivot(), &[0, 1, 2, 3, 4]);
}

#[test]
fn test_basic_lu_factorization_with_one_more_entry() {
    let n = 2;
    let mut a = CscBuilder::new(n, n);
    for i in 0..n {
        assert!(a
            .insert(i, i, if i == 0 { Real(1.) } else { Real(0.5) })
            .is_ok());
        if i == 0 {
            assert!(matches!(a.insert(1, 0, Real(2.)), Ok(_)));
        }
    }
    // construct an identity matrix as a basic test
    let a = a.build();

    let lu_fact = LeftLookingLUFactorization::new(&a).unwrap();

    let gt = Csc::from_triplets(
        2,
        2,
        &mut [
            ([0, 0], Real(2.)), //
            ([0, 1], Real(0.5)),
            ([1, 0], Real(0.5)),
            ([1, 1], Real(-0.25)),
        ],
    )
    .unwrap();

    assert_eq!(lu_fact.pivot(), &[1, 0]);
    let new_lu = lu_fact.lu();
    assert_eq!(lu_fact.lu(), &gt, "{:?} {:?}", new_lu.col(0), new_lu.col(1));
}

#[test]
pub fn test_lu_fact_sparse() {
    let a = Csc::from_triplets(
        3,
        3,
        &mut [
            ([0, 0], Real(47.)),
            ([0, 1], Real(91.)),
            ([1, 0], Real(92.)),
            ([1, 1], Real(12.)),
            ([1, 2], Real(31.)),
            ([2, 0], Real(16.)),
            ([2, 2], Real(87.)),
        ],
    )
    .unwrap();
    let lu_fact = LeftLookingLUFactorization::new(&a).unwrap();
    let mut buf = [Real(0.); 3];
    let mut out = [Real(1.), Real(2.), Real(4.)];
    let og = out;
    lu_fact.solve(&mut out, &mut buf);
    let solved = a.vecmul(&out);
    for i in 0..3 {
        assert!((solved[i].0 - og[i].0).abs() < 1e-5);
    }
}

#[test]
pub fn test_lu_fact_sparse_pivot() {
    let a = Csc::from_triplets(
        3,
        3,
        &mut [
            ([0, 1], Real(50.)),
            ([0, 2], Real(238.28)),
            ([1, 1], Real(1000.)),
            ([2, 0], Real(87.)),
        ],
    )
    .unwrap();
    let lu_fact = LeftLookingLUFactorization::new(&a).unwrap();
    let mut buf = [Real(0.); 3];
    let mut out = [Real(100.), Real(0.02), Real(10.)];
    let og = out;
    lu_fact.solve(&mut out, &mut buf);
    let solved = a.vecmul(&out);
    for i in 0..3 {
        assert!(
            (solved[i].0 - og[i].0).abs() < 1e-3,
            "i={i}: {} {} (whole = {solved:?})",
            solved[i].0,
            og[i].0
        );
    }
}

#[test]
pub fn test_lu_fact_dense() {
    let a = Csc::from_triplets(
        3,
        3,
        &mut [
            ([0, 0], Real(47.)),
            ([0, 1], Real(91.)),
            ([0, 2], Real(0.)),
            ([1, 0], Real(-92.)),
            ([1, 1], Real(12.)),
            ([1, 2], Real(31.)),
            ([2, 0], Real(-16.)),
            ([2, 1], Real(0.)),
            ([2, 2], Real(87.)),
        ],
    )
    .unwrap();
    let lu_fact = LeftLookingLUFactorization::new(&a).unwrap();
    assert_eq!(lu_fact.pivot(), &[1, 0, 2]);
    let mut buf = [Real(0.); 3];
    let mut out = [Real(1.), Real(2.), Real(4.)];
    let og = out;
    lu_fact.solve(&mut out, &mut buf);
    let solved = a.vecmul(&out);
    for i in 0..3 {
        assert!((solved[i].0 - og[i].0).abs() < 1e-5, "{:?}", solved);
    }
}

#[test]
fn identity_factors_into_itself() {
    for n in 0..6 {
        let a: Csc<Real> = Csc::identity(n);
        let f = LeftLookingLUFactorization::new(&a).unwrap();
        assert_eq!(f.lu(), &a);
        let expected: Vec<usize> = (0..n).collect();
        assert_eq!(f.pivot(), expected.as_slice());
    }
}

#[test]
fn factor_of_a_small_matrix_is_exact() {
    // A = [4 3; 6 3]: the pivot of column 0 is row 1.
    // P A = [6 3; 4 3] = [1 0; 2/3 1] [6 3; 0 1]
    let a = matrix(2, 2, &[([0, 0], 4.), ([1, 0], 6.), ([0, 1], 3.), ([1, 1], 3.)]);
    let f = LeftLookingLUFactorization::new(&a).unwrap();
    assert_eq!(f.pivot(), &[1, 0]);
    let lu = f.lu();
    assert_eq!(lu.col(0).1, &[0, 1]);
    assert_eq!(lu.col(1).1, &[0, 1]);
    assert_eq!(lu.col(0).0, &[Real(6.), Real(4. / 6.)]);
    assert_eq!(lu.col(1).0[0], Real(3.));
    assert!((lu.col(1).0[1].0 - 1.).abs() < 1e-6);
}

#[test]
fn ties_choose_the_first_row() {
    let a = matrix(2, 2, &[([0, 0], 2.), ([1, 0], -2.), ([0, 1], 1.), ([1, 1], 3.)]);
    let f = LeftLookingLUFactorization::new(&a).unwrap();
    assert_eq!(f.pivot(), &[0, 1]);
    assert_eq!(f.lu().col(0).0, &[Real(2.), Real(-1.)]);
    assert_eq!(f.lu().col(1).0, &[Real(1.), Real(4.)]);
}

#[test]
fn fill_in_is_stored() {
    // A = [2 1 0; 0 1 1; 2 0 1]: column 1 gains an entry in row 2.
    let a = matrix(
        3,
        3,
        &[
            ([0, 0], 2.),
            ([2, 0], 2.),
            ([0, 1], 1.),
            ([1, 1], 1.),
            ([1, 2], 1.),
            ([2, 2], 1.),
        ],
    );
    let f = LeftLookingLUFactorization::new(&a).unwrap();
    assert_eq!(f.pivot(), &[0, 1, 2]);
    let lu = f.lu();
    assert_eq!(lu.col(0), ([Real(2.), Real(1.)].as_slice(), [0, 2].as_slice()));
    assert_eq!(
        lu.col(1),
        ([Real(1.), Real(1.), Real(-1.)].as_slice(), [0, 1, 2].as_slice())
    );
    assert_eq!(lu.col(2), ([Real(1.), Real(2.)].as_slice(), [1, 2].as_slice()));
}

#[test]
fn zero_pivot_is_rank_deficient() {
    let a = matrix(2, 2, &[([0, 0], 1.), ([1, 0], 2.), ([0, 1], 2.), ([1, 1], 4.)]);
    assert_eq!(
        LeftLookingLUFactorization::new(&a).err(),
        Some(FactorizationError::RankDeficient(1))
    );
}

#[test]
fn empty_column_is_rank_deficient() {
    let a = matrix(2, 2, &[([0, 1], 1.), ([1, 1], 1.)]);
    assert_eq!(
        LeftLookingLUFactorization::new(&a).err(),
        Some(FactorizationError::RankDeficient(0))
    );
}

#[test]
fn column_above_the_diagonal_only_is_rank_deficient() {
    let a = matrix(2, 2, &[([0, 0], 1.), ([0, 1], 1.)]);
    assert_eq!(
        LeftLookingLUFactorization::new(&a).err(),
        Some(FactorizationError::RankDeficient(1))
    );
}

#[test]
fn value_that_is_not_finite_is_refused() {
    let a = matrix(2, 2, &[([0, 0], 1.), ([0, 1], f32::INFINITY), ([1, 1], 1.)]);
    assert_eq!(
        LeftLookingLUFactorization::new(&a).err(),
        Some(FactorizationError::NotFinite(1))
    );
    let a = matrix(2, 2, &[([0, 0], f32::NAN), ([1, 1], 1.)]);
    assert_eq!(
        LeftLookingLUFactorization::new(&a).err(),
        Some(FactorizationError::NotFinite(0))
    );
}

#[test]
fn solve_applies_the_pivot() {
    // A = [0 1; 1 0], A x = [3, 5] gives x = [5, 3]
    let a = matrix(2, 2, &[([1, 0], 1.), ([0, 1], 1.)]);
    let f = LeftLookingLUFactorization::new(&a).unwrap();
    assert_eq!(f.pivot(), &[1, 0]);
    let mut b = [Real(3.), Real(5.)];
    let mut buf = [Real(0.); 2];
    f.solve(&mut b, &mut buf);
    assert_eq!(b, [Real(5.), Real(3.)]);
}

#[test]
fn solve_of_several_right_hand_sides() {
    let a = matrix(2, 2, &[([0, 0], 4.), ([1, 0], 6.), ([0, 1], 3.), ([1, 1], 3.)]);
    let f = LeftLookingLUFactorization::new(&a).unwrap();
    // A [1; 2] = [10; 12], A [2; -1] = [5; 9]
    let mut b = [[Real(10.), Real(5.)], [Real(12.), Real(9.)]];
    let mut buf = [[Real(0.); 2]; 2];
    f.solve_arr(&mut b, &mut buf);
    let expected = [[1., 2.], [2., -1.]];
    for i in 0..2 {
        for d in 0..2 {
            assert!((b[i][d].0 - expected[i][d]).abs() < 1e-5);
        }
    }
    let mut one = [Real(10.), Real(12.)];
    let mut buf = [Real(0.); 2];
    f.solve(&mut one, &mut buf);
    assert_eq!(one, [b[0][0], b[1][0]]);
}

#[test]
fn residual_of_a_larger_system_is_small() {
    let n = 12;
    let mut t = Vec::new();
    for c in 0..n {
        for r in 0..n {
            let v = ((r * 7 + c * 13) % 11) as f32 - 5.;
            if r == c {
                t.push(([r, c], 3. + v));
            } else if (r + 2 * c) % 3 == 0 && v != 0. {
                t.push(([r, c], v));
            }
        }
    }
    let a = matrix(n, n, &t);
    let f = LeftLookingLUFactorization::new(&a).unwrap();
    let mut seen = vec![false; n];
    for &p in f.pivot() {
        assert!(!seen[p]);
        seen[p] = true;
    }
    let b: Vec<Real> = (0..n).map(|i| Real(i as f32 - 4.)).collect();
    let mut x = b.clone();
    let mut buf = vec![Real(0.); n];
    f.solve(&mut x, &mut buf);
    let back = a.vecmul(&x);
    for i in 0..n {
        assert!((back[i].0 - b[i].0).abs() < 1e-3, "{} {}", back[i].0, b[i].0);
    }
}
