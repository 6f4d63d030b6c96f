use minis::ops::{addition, carry, lsh, substraction, trunc};

#[test]
fn lsh_prefixes_zeros() {
    assert_eq!(lsh(vec![1, 2], 3), vec![0, 0, 0, 1, 2]);
    assert_eq!(lsh(vec![], 2), vec![0, 0]);
    assert_eq!(lsh(vec![7], 0), vec![7]);
}

#[test]
fn trunc_strips_top_zeros() {
    assert_eq!(trunc(vec![1, 0, 2, 0, 0]), vec![1, 0, 2]);
    assert_eq!(trunc(vec![0, 0]), Vec::<i8>::new());
    assert_eq!(trunc(vec![]), Vec::<i8>::new());
    assert_eq!(trunc(vec![0, 5]), vec![0, 5]);
}

#[test]
fn carry_propagates() {
    assert_eq!(carry(vec![18, 18]), vec![8, 9, 1]);
    assert_eq!(carry(vec![9, 9]), vec![9, 9]);
    assert_eq!(carry(vec![10]), vec![0, 1]);
    assert_eq!(carry(vec![89, 89]), vec![9, 7, 9]);
    assert_eq!(carry(vec![]), Vec::<i8>::new());
}

#[test]
fn addition_carries_into_new_digit() {
    assert_eq!(addition(vec![9, 9], vec![1]), vec![0, 0, 1]);
    assert_eq!(addition(vec![1], vec![9, 9]), vec![0, 0, 1]);
    assert_eq!(addition(vec![2, 4], vec![2, 4]), vec![4, 8]);
    assert_eq!(addition(vec![], vec![]), Vec::<i8>::new());
}

#[test]
fn substraction_borrows() {
    assert_eq!(substraction(vec![0, 2, 1], vec![2, 3, 1]), (vec![2, 1, 0], -1));
    assert_eq!(substraction(vec![2, 3, 1], vec![0, 2, 1]), (vec![2, 1, 0], 1));
    assert_eq!(substraction(vec![0, 0, 1], vec![1]), (vec![9, 9, 0], 1));
    assert_eq!(substraction(vec![1], vec![0, 0, 1]), (vec![9, 9, 0], -1));
    assert_eq!(substraction(vec![5], vec![5]), (vec![0], 1));
}

#[test]
fn substraction_at_the_top_digit_boundary() {
    assert_eq!(substraction(vec![9, 9, 1], vec![9, 9, 2]), (vec![0, 0, 1], -1));
    assert_eq!(substraction(vec![9, 9, 2], vec![9, 9, 1]), (vec![0, 0, 1], 1));
    assert_eq!(substraction(vec![0, 0, 1], vec![9, 9, 2]), (vec![9, 9, 1], -1));
}
