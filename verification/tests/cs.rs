use sparse_lu::cs::{CsBuilder, CsMatrix};
use sparse_lu::{BuilderInsertError, Scalar};

/// A double-precision scalar.
#[derive(Clone, Copy, Debug, PartialEq)]
struct Real(f64);

impl Scalar for Real {
    fn zero() -> Self {
        Real(0.)
    }
    fn one() -> Self {
        Real(1.)
    }
    fn add(self, rhs: Self) -> Self {
        Real(self.0 + rhs.0)
    }
    fn sub(self, rhs: Self) -> Self {
        Real(self.0 - rhs.0)
    }
    fn mul(self, rhs: Self) -> Self {
        Real(self.0 * rhs.0)
    }
    fn div(self, rhs: Self) -> Self {
        Real(self.0 / rhs.0)
    }
    fn is_zero(self) -> bool {
        self.0 == 0.
    }
    fn is_finite(self) -> bool {
        self.0.is_finite()
    }
    fn abs_lt(self, rhs: Self) -> bool {
        self.0.abs() < rhs.0.abs()
    }
}

fn matrix(major_dim: usize, minor_dim: usize, entries: &[([usize; 2], char)]) -> CsMatrix<char> {
    let mut b = CsBuilder::new(major_dim, minor_dim);
    for &([major, minor], v) in entries {
        assert_eq!(b.insert(major, minor, v), Ok(()));
    }
    b.build()
}

#[test]
fn identity_matrix_holds_ones() {
    let m: CsMatrix<Real> = CsMatrix::identity(3);
    assert_eq!(m.values(), &[Real(1.), Real(1.), Real(1.)]);
    for i in 0..3 {
        assert_eq!(m.lane(i), ([Real(1.)].as_slice(), [i].as_slice()));
    }
    assert_eq!(m.pattern().minor_dim, 3);
}

#[test]
fn lanes_pair_values_with_indices() {
    let m = matrix(3, 4, &[([0, 1], 'a'), ([0, 3], 'b'), ([2, 0], 'c')]);
    assert_eq!(m.lane(0), (['a', 'b'].as_slice(), [1, 3].as_slice()));
    assert_eq!(m.lane(1), ([].as_slice(), [].as_slice()));
    assert_eq!(m.lane(2), (['c'].as_slice(), [0].as_slice()));
    assert_eq!(m.lane_iter(0), vec![(1, &'a'), (3, &'b')]);
    assert!(m.lane_iter(1).is_empty());
    assert_eq!(m.values(), &['a', 'b', 'c']);
}

#[test]
fn values_mut_overwrites_in_place() {
    let mut m = matrix(2, 2, &[([0, 0], 'a'), ([1, 1], 'b')]);
    m.values_mut()[1] = 'z';
    assert_eq!(m.values(), &['a', 'z']);
    assert_eq!(m.lane(1), (['z'].as_slice(), [1].as_slice()));
}

#[test]
fn swap_minor_relabels_and_resorts() {
    let mut m = matrix(
        4,
        6,
        &[
            // holds neither
            ([0, 0], 'a'),
            ([0, 3], 'b'),
            // holds the lower one
            ([1, 0], 'c'),
            ([1, 1], 'd'),
            ([1, 2], 'e'),
            ([1, 5], 'f'),
            // holds the higher one
            ([2, 0], 'g'),
            ([2, 2], 'h'),
            ([2, 4], 'i'),
            // holds both
            ([3, 0], 'j'),
            ([3, 1], 'k'),
            ([3, 2], 'l'),
            ([3, 3], 'm'),
            ([3, 4], 'n'),
            ([3, 5], 'o'),
        ],
    );
    let before = m.clone();
    m.swap_minor(1, 4);
    assert_eq!(m.lane(0), (['a', 'b'].as_slice(), [0, 3].as_slice()));
    assert_eq!(
        m.lane(1),
        (['c', 'e', 'd', 'f'].as_slice(), [0, 2, 4, 5].as_slice())
    );
    assert_eq!(m.lane(2), (['g', 'i', 'h'].as_slice(), [0, 1, 2].as_slice()));
    assert_eq!(
        m.lane(3),
        (
            ['j', 'n', 'l', 'm', 'k', 'o'].as_slice(),
            [0, 1, 2, 3, 4, 5].as_slice()
        )
    );
    m.swap_minor(4, 1);
    assert_eq!(m, before);
    m.swap_minor(2, 2);
    assert_eq!(m, before);
}

#[test]
fn builder_keeps_values_with_entries() {
    let mut b = CsBuilder::new(3, 3);
    assert_eq!(b.insert(0, 2, 'a'), Ok(()));
    assert_eq!(b.insert(0, 1, 'b'), Err(BuilderInsertError::MinorTooLow(1, 2)));
    assert_eq!(b.insert(1, 0, 'c'), Ok(()));
    assert_eq!(b.insert(0, 0, 'd'), Err(BuilderInsertError::MajorTooLow(1)));
    let m = b.build();
    assert_eq!(m.values(), &['a', 'c']);
    assert_eq!(m.pattern().entries(), vec![[0, 2], [1, 0]]);
}

#[test]
fn builder_merges_a_repeated_entry() {
    let mut b = CsBuilder::new(2, 2);
    let plus = |a: i32, b: i32| a + b;
    assert_eq!(b.insert_sum(0, 1, 5, plus), Ok(false));
    assert_eq!(b.insert_sum(0, 1, 7, plus), Ok(true));
    assert_eq!(b.insert_sum(0, 1, 1, plus), Ok(true));
    assert_eq!(b.insert_sum(0, 0, 1, plus), Err(BuilderInsertError::MinorTooLow(0, 1)));
    assert_eq!(b.insert_sum(1, 0, 2, plus), Ok(false));
    assert_eq!(b.insert_sum(0, 1, 2, plus), Err(BuilderInsertError::MajorTooLow(1)));
    let m = b.build();
    assert_eq!(m.values(), &[13, 2]);
    assert_eq!(m.pattern().entries(), vec![[0, 1], [1, 0]]);
}

#[test]
fn builder_reverts_values_with_entries() {
    let m = matrix(3, 3, &[([0, 0], 'a'), ([1, 1], 'b'), ([1, 2], 'c'), ([2, 0], 'd')]);
    let mut b = CsBuilder::from_mat(m);
    assert!(!b.revert_to_major(3));
    assert!(b.revert_to_major(0));
    assert_eq!(b.insert(0, 2, 'e'), Ok(()));
    assert_eq!(b.insert(2, 1, 'f'), Ok(()));
    let m = b.build();
    assert_eq!(m.values(), &['a', 'e', 'f']);
    assert_eq!(m.pattern().entries(), vec![[0, 0], [0, 2], [2, 1]]);
}
