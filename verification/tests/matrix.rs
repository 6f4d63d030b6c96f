use minis::matrix::Matrix;

fn matrix(rows: &[&[i64]]) -> Matrix {
    Matrix::from_rows(rows.iter().map(|row| row.to_vec()).collect())
}

#[test]
fn test_expand() {
    let mut m = matrix(&[&[1, 2, 3], &[4, 5, 6], &[7, 8, 9]]);
    m.expand(1);
    assert_eq!(
        m,
        matrix(&[&[1, 2, 3, 0], &[4, 5, 6, 0], &[7, 8, 9, 0], &[0, 0, 0, 0]])
    )
}

#[test]
fn test_shrink() {
    let mut m = matrix(&[&[1, 2, 0], &[3, 4, 0], &[0, 0, 0]]);
    m.shrink(2);
    assert_eq!(m, matrix(&[&[1, 2], &[3, 4]]))
}

#[test]
fn expand_grows_by_doubling_from_the_base() {
    let mut m = matrix(&[&[1, 2, 3], &[4, 5, 6], &[7, 8, 9]]);
    m.expand(3);
    assert_eq!(m, matrix(&[&[1, 2, 3], &[4, 5, 6], &[7, 8, 9]]));
    m.expand(7);
    assert_eq!(m.size(), 3);
    let mut m = matrix(&[&[1, 2, 3, 4, 5], &[0; 5], &[0; 5], &[0; 5], &[0, 0, 0, 0, 9]]);
    m.expand(3);
    assert_eq!(m.size(), 6);
    assert_eq!(m.get(0, 4), 5);
    assert_eq!(m.get(4, 4), 9);
    assert_eq!(m.get(5, 5), 0);
    assert_eq!(m.get(0, 5), 0);
}

#[test]
fn transpose_mirrors_at_the_diagonal() {
    let mut m = matrix(&[&[1, 2, 3], &[4, 5, 6], &[7, 8, 9]]);
    m.transpose();
    assert_eq!(m, matrix(&[&[1, 4, 7], &[2, 5, 8], &[3, 6, 9]]));
    let mut one = matrix(&[&[5]]);
    one.transpose();
    assert_eq!(one, matrix(&[&[5]]));
}

#[test]
fn get_set_and_clone() {
    let mut m = Matrix::new_zeroed(2);
    assert_eq!(m, matrix(&[&[0, 0], &[0, 0]]));
    m.set(0, 1, 7);
    m.set(1, 0, -7);
    assert_eq!(m.get(0, 1), 7);
    assert_eq!(m, matrix(&[&[0, 7], &[-7, 0]]));
    assert_eq!(m.clone(), m);
    assert_eq!(m.size(), 2);
}

#[test]
fn test_add() {
    let a = matrix(&[&[1, 2], &[3, 4]]);
    let b = matrix(&[&[5, 6], &[7, 8]]);
    assert_eq!(a + b, matrix(&[&[6, 8], &[10, 12]]));
}

#[test]
fn test_mul() {
    let a = matrix(&[&[1, 2], &[3, 4]]);
    let b = matrix(&[&[5, 6], &[7, 8]]);
    assert_eq!(a * b, matrix(&[&[19, 22], &[43, 50]]));
}

#[test]
fn test_submatrices() {
    let m = matrix(&[&[1, 2], &[3, 4]]);
    assert_eq!(
        m.submatrices(),
        [matrix(&[&[1]]), matrix(&[&[2]]), matrix(&[&[3]]), matrix(&[&[4]])]
    );
}

#[test]
fn test_concat() {
    let submatrices = [matrix(&[&[1]]), matrix(&[&[2]]), matrix(&[&[3]]), matrix(&[&[4]])];
    assert_eq!(Matrix::from_blocks(submatrices), matrix(&[&[1, 2], &[3, 4]]));
}

#[test]
fn subtraction_and_scaling() {
    let a = matrix(&[&[1, 2], &[3, 4]]);
    let b = matrix(&[&[5, 6], &[7, 8]]);
    assert_eq!(a.clone() - b.clone(), matrix(&[&[-4, -4], &[-4, -4]]));
    assert_eq!(b * 3, matrix(&[&[15, 18], &[21, 24]]));
    assert_eq!(a * -1, matrix(&[&[-1, -2], &[-3, -4]]));
}

#[test]
fn arithmetic_wraps_around() {
    let a = matrix(&[&[i64::MAX]]);
    let one = matrix(&[&[1]]);
    assert_eq!(a.clone() + one, matrix(&[&[i64::MIN]]));
    assert_eq!(a.clone() * 2, matrix(&[&[-2]]));
    assert_eq!(a.clone() * a, matrix(&[&[1]]));
}

#[test]
fn blocks_of_a_larger_matrix() {
    let m = matrix(&[&[1, 2, 3, 4], &[5, 6, 7, 8], &[9, 10, 11, 12], &[13, 14, 15, 16]]);
    let parts = m.clone().submatrices();
    assert_eq!(parts[0], matrix(&[&[1, 2], &[5, 6]]));
    assert_eq!(parts[1], matrix(&[&[3, 4], &[7, 8]]));
    assert_eq!(parts[2], matrix(&[&[9, 10], &[13, 14]]));
    assert_eq!(parts[3], matrix(&[&[11, 12], &[15, 16]]));
    assert_eq!(Matrix::from_blocks(parts), m);
}

#[test]
fn rows_by_index() {
    let m = matrix(&[&[1, 2, 3], &[4, 5, 6], &[7, 8, 9]]);
    assert_eq!(&m[0], &[1, 2, 3]);
    assert_eq!(&m[2], &[7, 8, 9]);
    assert_eq!(m[1][2], 6);
}
