use minis::merge_sort::{merge_sort_inplace, merge_sort_prosperous, split_equal};

#[test]
fn test_merge_sort_inplace() {
    let mut nums = (0..50).into_iter().rev().collect::<Vec<_>>();
    merge_sort_inplace(&mut nums);
    assert_eq!(nums, (0..50).into_iter().collect::<Vec<_>>());
    let mut nums = std::iter::once(2)
        .cycle()
        .take(50000)
        .into_iter()
        .collect::<Vec<_>>();
    merge_sort_inplace(&mut nums);
}

#[test]
fn merge_sort_inplace_on_many_lengths() {
    for n in 0..200usize {
        let mut seq: Vec<i64> = (0..n).map(|i| ((i * 7919 + n * 31) % 101) as i64 - 50).collect();
        let mut expected = seq.clone();
        expected.sort();
        merge_sort_inplace(&mut seq);
        assert_eq!(seq, expected);
    }
    let mut same = vec![2; 50000];
    merge_sort_inplace(&mut same);
    assert_eq!(same, vec![2; 50000]);
}

#[test]
fn merge_sort_prosperous_leaves_the_second_slice_sorted() {
    for n in [0usize, 1, 2, 15, 16, 17, 31, 32, 33, 64, 100] {
        let mut a: Vec<i32> = (0..n).map(|i| ((i * 37) % 23) as i32).collect();
        let mut b: Vec<i32> = (0..n).map(|i| ((i * 53 + 7) % 29) as i32 - 40).collect();
        let mut before: Vec<i32> = a.iter().chain(b.iter()).copied().collect();
        merge_sort_prosperous(&mut a, &mut b);
        assert!(b.windows(2).all(|w| w[0] <= w[1]));
        let mut after: Vec<i32> = a.iter().chain(b.iter()).copied().collect();
        before.sort();
        after.sort();
        assert_eq!(before, after);
    }
}

#[test]
fn split_equal_leaves_the_middle_out() {
    let mut odd = vec![1, 2, 3, 4, 5];
    let (l, r) = split_equal(&mut odd);
    assert_eq!(l, &mut [1, 2]);
    assert_eq!(r, &mut [4, 5]);
    l[0] = 9;
    r[1] = 8;
    assert_eq!(odd, vec![9, 2, 3, 4, 8]);
    let mut even = vec![1, 2, 3, 4];
    let (l, r) = split_equal(&mut even);
    assert_eq!(l, &mut [1, 2]);
    assert_eq!(r, &mut [3, 4]);
    let mut none: Vec<i32> = vec![];
    let (l, r) = split_equal(&mut none);
    assert!(l.is_empty() && r.is_empty());
}
