use minis::matrix::Matrix;
use minis::matrix_mul::{recursive_mul, recursive_mul_impl, strassen_mul, strassen_mul_impl};

fn matrix(rows: &[&[i64]]) -> Matrix {
    Matrix::from_rows(rows.iter().map(|row| row.to_vec()).collect())
}

fn sample(n: usize, seed: i64) -> Matrix {
    let rows = (0..n)
        .map(|i| (0..n).map(|j| ((i * 31 + j * 17) as i64 * seed) % 23 - 11).collect())
        .collect();
    Matrix::from_rows(rows)
}

#[test]
fn test_recursive_mul() {
    let a = matrix(&[&[1, 2], &[3, 4]]);
    let b = matrix(&[&[5, 6], &[7, 8]]);
    assert_eq!(recursive_mul(&a, &b), matrix(&[&[19, 22], &[43, 50]]));
    let a = matrix(&[&[1, 0, 1], &[0, 1, 0], &[1, 0, 1]]);
    assert_eq!(
        recursive_mul(&a, &a),
        matrix(&[&[2, 0, 2], &[0, 1, 0], &[2, 0, 2]])
    );
}

#[test]
fn test_strassen_mul() {
    let a = matrix(&[&[1, 2], &[3, 4]]);
    let b = matrix(&[&[5, 6], &[7, 8]]);
    assert_eq!(strassen_mul(&a, &b, 1), matrix(&[&[19, 22], &[43, 50]]));
    let a = matrix(&[&[1, 0, 1], &[0, 1, 0], &[1, 0, 1]]);
    assert_eq!(
        strassen_mul(&a, &a, 1),
        matrix(&[&[2, 0, 2], &[0, 1, 0], &[2, 0, 2]])
    );
}

#[test]
fn all_three_products_agree() {
    for n in 1..=9usize {
        let a = sample(n, 3);
        let b = sample(n, 7);
        let plain = a.clone() * b.clone();
        assert_eq!(recursive_mul(&a, &b), plain);
        for fallback in 1..=n {
            assert_eq!(strassen_mul(&a, &b, fallback), plain);
        }
    }
}

#[test]
fn products_agree_when_entries_wrap() {
    let big = i64::MAX / 3;
    let a = matrix(&[&[big, -big, 5], &[7, big, big], &[-big, 2, big]]);
    let b = matrix(&[&[big, 3, -big], &[big, big, 1], &[4, -big, big]]);
    let plain = a.clone() * b.clone();
    assert_eq!(recursive_mul(&a, &b), plain);
    assert_eq!(strassen_mul(&a, &b, 1), plain);
    assert_eq!(strassen_mul(&a, &b, 3), plain);
}

#[test]
fn recursive_mul_impl_pads_to_a_power_of_two() {
    let a = matrix(&[&[1, 0, 1], &[0, 1, 0], &[1, 0, 1]]);
    assert_eq!(
        recursive_mul_impl(a.clone(), a),
        matrix(&[&[2, 0, 2, 0], &[0, 1, 0, 0], &[2, 0, 2, 0], &[0, 0, 0, 0]])
    );
}

#[test]
fn strassen_mul_impl_on_sizes_that_halve_to_the_fallback() {
    let a = sample(6, 5);
    let b = sample(6, 9);
    assert_eq!(strassen_mul_impl(a.clone(), b.clone(), 3), a.clone() * b.clone());
    assert_eq!(strassen_mul_impl(a.clone(), b.clone(), 6), a * b);
}
