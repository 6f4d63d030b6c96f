use minis::quick_sort::{
    hoare_partition, hoare_partition_around, lomuto_partition, lomuto_partition_around,
    lomuto_partition_nonequal, lomuto_partition_nonequal_around, quick_sort,
};

fn samples() -> Vec<Vec<i32>> {
    let mut all = vec![
        vec![],
        vec![1],
        vec![2, 1],
        vec![1, 1],
        vec![3, 3, 3, 3, 3],
        vec![5, 4, 3, 2, 1, 0, -1],
        (0..64).collect(),
        (0..64).rev().collect(),
    ];
    for round in 0..40 {
        all.push((0..37).map(|i| (i * 13 + round * 7) % 11 - 5).collect());
    }
    all
}

fn check_parted(before: &[i32], after: &[i32], i: usize, j: usize) {
    assert!(i < j && j <= after.len());
    assert!(after[..i].iter().all(|x| *x <= after[i]));
    assert!(after[i..j].iter().all(|x| *x == after[i]));
    assert!(after[j..].iter().all(|x| *x >= after[i]));
    let (mut a, mut b) = (before.to_vec(), after.to_vec());
    a.sort();
    b.sort();
    assert_eq!(a, b);
}

#[test]
fn quick_sort_with_each_scheme() {
    for seq in samples() {
        let mut expected = seq.clone();
        expected.sort();
        let mut a = seq.clone();
        quick_sort(&mut a, &hoare_partition);
        assert_eq!(a, expected);
        let mut b = seq.clone();
        quick_sort(&mut b, &lomuto_partition);
        assert_eq!(b, expected);
        let mut c = seq.clone();
        quick_sort(&mut c, &lomuto_partition_nonequal);
        assert_eq!(c, expected);
    }
}

#[test]
fn schemes_part_the_slice_around_a_pivot() {
    for seq in samples() {
        if seq.len() < 2 {
            continue;
        }
        for _ in 0..5 {
            let mut a = seq.clone();
            let (i, j) = hoare_partition(&mut a);
            assert_eq!(j, i + 1);
            check_parted(&seq, &a, i, j);
            let mut b = seq.clone();
            let (i, j) = lomuto_partition(&mut b);
            check_parted(&seq, &b, i, j);
            let mut c = seq.clone();
            let (i, j) = lomuto_partition_nonequal(&mut c);
            assert_eq!(j, i + 1);
            check_parted(&seq, &c, i, j);
        }
    }
}

#[test]
fn lomuto_partition_gathers_equal_elements() {
    let mut gathered_more_than_one = false;
    for _ in 0..50 {
        let mut seq = vec![7, 7, 7, 1, 7, 9, 7, 7];
        let (i, j) = lomuto_partition(&mut seq);
        check_parted(&[7, 7, 7, 1, 7, 9, 7, 7], &seq, i, j);
        if j - i > 1 {
            gathered_more_than_one = true;
        }
    }
    assert!(gathered_more_than_one);
}

#[test]
fn schemes_put_the_picked_pivot_in_its_place() {
    let input = [5, 1, 9, 3, 7, 3, 8];
    for pick in 0..20usize {
        // the element picked is put first; the last element takes its
        // place as pivot if it is the smaller one
        let mut first = input.to_vec();
        first.swap(0, pick % input.len());
        let pivot = first[0].min(first[input.len() - 1]);

        let mut a = input.to_vec();
        let (i, j) = hoare_partition_around(&mut a, pick);
        assert_eq!((a[i], j), (pivot, i + 1));
        check_parted(&input, &a, i, j);

        let mut b = input.to_vec();
        let (i, j) = lomuto_partition_around(&mut b, pick);
        assert_eq!(b[i], pivot);
        check_parted(&input, &b, i, j);

        let mut c = input.to_vec();
        let (i, j) = lomuto_partition_nonequal_around(&mut c, pick);
        assert_eq!((c[i], j), (pivot, i + 1));
        check_parted(&input, &c, i, j);
    }
    let mut seq = vec![2, 9, 4];
    assert_eq!(hoare_partition_around(&mut seq, 1), (1, 2));
    assert_eq!(seq, vec![2, 4, 9]);
}
