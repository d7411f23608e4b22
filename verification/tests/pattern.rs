use sparse_lu::{BuilderInsertError, SparsityPattern, SparsityPatternBuilder};

fn pattern(major_dim: usize, minor_dim: usize, entries: &[[usize; 2]]) -> SparsityPattern {
    let mut b = SparsityPatternBuilder::new(major_dim, minor_dim);
    for &[major, minor] in entries {
        assert_eq!(b.insert(major, minor), Ok(()));
    }
    b.build()
}

fn sorted(mut v: Vec<usize>) -> Vec<usize> {
    v.sort();
    v
}

#[test]
fn identity_pattern_holds_the_diagonal() {
    let p = SparsityPattern::identity(4);
    assert_eq!(p.major_dim(), 4);
    assert_eq!(p.minor_dim, 4);
    assert_eq!(p.nnz(), 4);
    for i in 0..4 {
        assert_eq!(p.lane(i), &[i]);
    }
    assert_eq!(p.entries(), vec![[0, 0], [1, 1], [2, 2], [3, 3]]);
    let empty = SparsityPattern::identity(0);
    assert_eq!(empty.major_dim(), 0);
    assert_eq!(empty.nnz(), 0);
    assert!(empty.entries().is_empty());
}

#[test]
fn build_keeps_the_inserted_entries() {
    let entries = [[0, 1], [0, 4], [2, 0], [2, 1], [2, 3], [5, 2]];
    let p = pattern(7, 5, &entries);
    assert_eq!(p.entries(), entries.to_vec());
    assert_eq!(p.major_dim(), 7);
    assert_eq!(p.minor_dim, 5);
    assert_eq!(p.nnz(), 6);
    assert_eq!(p.lane(0), &[1, 4]);
    assert!(p.lane(1).is_empty());
    assert_eq!(p.lane(2), &[0, 1, 3]);
    assert!(p.lane(3).is_empty());
    assert!(p.lane(4).is_empty());
    assert_eq!(p.lane(5), &[2]);
    assert!(p.lane(6).is_empty());
}

#[test]
fn build_of_nothing_is_empty() {
    let p = SparsityPatternBuilder::new(3, 2).build();
    assert_eq!(p.major_dim(), 3);
    assert_eq!(p.minor_dim, 2);
    assert_eq!(p.nnz(), 0);
    assert!(p.entries().is_empty());
    let p = SparsityPatternBuilder::new(0, 0).build();
    assert_eq!(p.major_dim(), 0);
}

#[test]
fn insert_refuses_a_lower_major() {
    let mut b = SparsityPatternBuilder::new(4, 4);
    assert_eq!(b.insert(2, 1), Ok(()));
    assert_eq!(b.current_major(), 2);
    assert_eq!(b.insert(1, 3), Err(BuilderInsertError::MajorTooLow(2)));
    assert_eq!(b.insert(0, 0), Err(BuilderInsertError::MajorTooLow(2)));
    assert_eq!(b.num_entries(), 1);
    assert_eq!(b.current_major(), 2);
    assert_eq!(b.build().entries(), vec![[2, 1]]);
}

#[test]
fn insert_refuses_a_minor_that_does_not_ascend() {
    let mut b = SparsityPatternBuilder::new(4, 4);
    assert_eq!(b.insert(1, 2), Ok(()));
    assert_eq!(b.insert(1, 2), Err(BuilderInsertError::MinorTooLow(2, 2)));
    assert_eq!(b.insert(1, 0), Err(BuilderInsertError::MinorTooLow(0, 2)));
    assert_eq!(b.insert(1, 3), Ok(()));
    // a later major starts over
    assert_eq!(b.insert(2, 0), Ok(()));
    assert_eq!(b.num_entries(), 3);
    assert_eq!(b.build().entries(), vec![[1, 2], [1, 3], [2, 0]]);
}

#[test]
fn insert_sum_tells_a_repeated_entry() {
    let mut b = SparsityPatternBuilder::new(3, 3);
    assert_eq!(b.insert_sum(0, 1), Ok(false));
    assert_eq!(b.insert_sum(0, 1), Ok(true));
    assert_eq!(b.insert_sum(0, 0), Err(BuilderInsertError::MinorTooLow(0, 1)));
    assert_eq!(b.insert_sum(2, 1), Ok(false));
    assert_eq!(b.insert_sum(2, 1), Ok(true));
    assert_eq!(b.insert_sum(0, 1), Err(BuilderInsertError::MajorTooLow(2)));
    assert_eq!(b.num_entries(), 2);
    assert_eq!(b.build().entries(), vec![[0, 1], [2, 1]]);
}

#[test]
fn revert_to_major_keeps_that_major() {
    let p = pattern(4, 4, &[[0, 0], [0, 2], [1, 1], [1, 3], [3, 0]]);
    let mut b = SparsityPatternBuilder::from(p);
    assert_eq!(b.current_major(), 4);
    assert_eq!(b.num_entries(), 5);
    assert!(!b.revert_to_major(4));
    assert!(!b.revert_to_major(7));
    assert!(b.revert_to_major(1));
    assert_eq!(b.current_major(), 1);
    assert_eq!(b.num_entries(), 4);
    assert!(!b.revert_to_major(1));
    assert_eq!(b.insert(1, 3), Err(BuilderInsertError::MinorTooLow(3, 3)));
    assert_eq!(b.insert(2, 2), Ok(()));
    assert_eq!(
        b.build().entries(),
        vec![[0, 0], [0, 2], [1, 1], [1, 3], [2, 2]]
    );
}

#[test]
fn revert_to_an_empty_major() {
    let p = pattern(3, 3, &[[0, 1], [2, 2]]);
    let mut b = SparsityPatternBuilder::from(p);
    assert!(b.revert_to_major(1));
    assert_eq!(b.num_entries(), 1);
    assert_eq!(b.insert(1, 0), Ok(()));
    assert_eq!(b.build().entries(), vec![[0, 1], [1, 0]]);
}

#[test]
fn from_a_pattern_is_closed() {
    let p = pattern(2, 2, &[[0, 0], [1, 1]]);
    let mut b = SparsityPatternBuilder::from(p.clone());
    assert_eq!(b.insert(1, 0), Err(BuilderInsertError::MajorTooLow(2)));
    assert_eq!(b.build(), p);
}

fn leads_to(p: &SparsityPattern, lower: bool, j: usize, i: usize) -> bool {
    p.lane(j).contains(&i) && if lower { i > j } else { i < j }
}

fn assert_predecessors_first(p: &SparsityPattern, lower: bool, out: &[usize]) {
    for x in 0..out.len() {
        for y in 0..out.len() {
            if leads_to(p, lower, out[x], out[y]) {
                assert!(x < y, "{} leads to {} in {:?}", out[x], out[y], out);
            }
        }
    }
}

#[test]
fn lower_solve_reaches_the_closure() {
    // edges 0 -> 1, 0 -> 3, 1 -> 4, 3 -> 4, 2 -> 2
    let p = pattern(5, 5, &[[0, 1], [0, 3], [1, 4], [2, 2], [3, 4]]);
    let mut out = vec![9, 9];
    p.sparse_lower_triangular_solve(&[0], &mut out);
    // 4 comes after both 1 and 3, which lead to it
    assert_eq!(out, vec![0, 3, 1, 4]);
    p.sparse_lower_triangular_solve(&[3], &mut out);
    assert_eq!(out, vec![3, 4]);
    p.sparse_lower_triangular_solve(&[2, 1], &mut out);
    assert_eq!(out, vec![1, 4, 2]);
    p.sparse_lower_triangular_solve(&[4, 3, 4], &mut out);
    assert_eq!(out, vec![3, 4]);
}

#[test]
fn lower_solve_puts_a_later_start_before_what_it_leads_to() {
    let p = pattern(3, 3, &[[0, 0], [0, 2], [1, 1], [2, 2]]);
    let mut out = vec![7, 7];
    p.sparse_lower_triangular_solve(&[2, 0], &mut out);
    assert_eq!(out, vec![0, 2]);
}

#[test]
fn upper_solve_puts_a_later_start_before_what_it_leads_to() {
    let p = pattern(3, 3, &[[0, 0], [1, 1], [2, 0], [2, 2]]);
    let mut out = vec![];
    p.sparse_upper_triangular_solve(&[0, 2], &mut out);
    assert_eq!(out, vec![2, 0]);
}

#[test]
fn lower_solve_passes_over_the_upper_triangle() {
    let p = pattern(3, 3, &[[0, 2], [1, 0], [2, 0], [2, 1]]);
    let mut out = vec![];
    p.sparse_lower_triangular_solve(&[1], &mut out);
    assert_eq!(out, vec![1]);
    p.sparse_lower_triangular_solve(&[0], &mut out);
    assert_eq!(out, vec![0, 2]);
}

#[test]
fn solve_of_nothing_is_empty() {
    let p = SparsityPattern::identity(3);
    let mut out = vec![1, 2];
    p.sparse_lower_triangular_solve(&[], &mut out);
    assert!(out.is_empty());
    let mut out = vec![1, 2];
    p.sparse_upper_triangular_solve(&[], &mut out);
    assert!(out.is_empty());
    let mut marks = vec![true; 3];
    let mut stack = vec![7];
    p.sparse_lower_triangular_solve_bool(&[], &mut marks, &mut stack);
    assert_eq!(marks, vec![false; 3]);
    assert!(stack.is_empty());
}

#[test]
fn upper_solve_reaches_the_closure() {
    // edges 4 -> 1, 4 -> 3, 3 -> 0, 1 -> 0
    let p = pattern(5, 5, &[[1, 0], [2, 2], [3, 0], [4, 1], [4, 3], [4, 4]]);
    let mut out = vec![];
    p.sparse_upper_triangular_solve(&[4], &mut out);
    // 0 comes after both 3 and 1, which lead to it
    assert_eq!(out, vec![4, 1, 3, 0]);
    p.sparse_upper_triangular_solve(&[1, 2], &mut out);
    assert_eq!(out, vec![2, 1, 0]);
}

#[test]
fn marks_agree_with_the_search() {
    let p = pattern(
        6,
        6,
        &[[0, 1], [0, 3], [1, 0], [1, 4], [2, 2], [2, 5], [3, 4], [4, 4], [5, 0]],
    );
    let starts: [&[usize]; 6] = [&[0], &[1], &[2], &[5, 3], &[4], &[2, 0, 2]];
    for b in starts {
        let mut out = vec![];
        p.sparse_lower_triangular_solve(b, &mut out);
        let mut marks = vec![false; 6];
        let mut stack = vec![];
        p.sparse_lower_triangular_solve_bool(b, &mut marks, &mut stack);
        assert!(stack.is_empty());
        let marked: Vec<usize> = (0..6).filter(|&i| marks[i]).collect();
        assert_eq!(sorted(out.clone()), marked);
        assert_predecessors_first(&p, true, &out);
        let mut up = vec![];
        p.sparse_upper_triangular_solve(b, &mut up);
        assert_predecessors_first(&p, false, &up);
        let mut seen = sorted(up.clone());
        seen.dedup();
        assert_eq!(seen.len(), up.len());
    }
    let mut marks = vec![false; 6];
    let mut stack = vec![];
    p.sparse_lower_triangular_solve_bool(&[0], &mut marks, &mut stack);
    assert_eq!(marks, vec![true, true, false, true, true, false]);
}
