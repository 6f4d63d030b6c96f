use minis::select::{hoare_partition, hoare_partition_around, k_stat, solution};

#[test]
fn test_solution() {
    assert_eq!(solution(&mut vec![42]), 42);
    assert_eq!(solution(&mut vec![-1, 1]).abs(), 1);
    assert_eq!(solution(&mut vec![1, 2, 3, 5]), 3);
    assert_eq!(solution(&mut vec![-2, -1, 1, 2]).abs(), 1);
    assert_eq!(solution(&mut vec![-3, -1, 1, 2]).abs(), 1);
    assert_eq!(solution(&mut vec![1, 2, 3, 4, 5]), 3);
}

#[test]
fn k_stat_finds_every_place() {
    let input = vec![9, 3, 7, 3, 1, 8, 2, 2, 6, 0, 5, 4, -1, 10, 3];
    let mut sorted = input.clone();
    sorted.sort();
    for round in 0..20 {
        for k in 0..input.len() {
            let mut seq = input.clone();
            seq.rotate_left(round % input.len());
            assert_eq!(*k_stat(&mut seq, k), sorted[k]);
            assert_eq!(seq[k], sorted[k]);
            assert!(seq[..k].iter().all(|x| *x <= seq[k]));
            assert!(seq[k + 1..].iter().all(|x| *x >= seq[k]));
            let mut again = seq.clone();
            again.sort();
            assert_eq!(again, sorted);
        }
    }
}

#[test]
fn hoare_partition_splits_the_slice() {
    for round in 0..200 {
        let mut seq: Vec<i32> = (0..17).map(|i| (i * 7 + round) % 11).collect();
        let mut before = seq.clone();
        let p = hoare_partition(&mut seq);
        assert!(seq[..p].iter().all(|x| *x <= seq[p]));
        assert!(seq[p + 1..].iter().all(|x| *x >= seq[p]));
        let mut after = seq.clone();
        before.sort();
        after.sort();
        assert_eq!(before, after);
    }
    let mut empty: Vec<i32> = vec![];
    assert_eq!(hoare_partition(&mut empty), 0);
    let mut one = vec![5];
    assert_eq!(hoare_partition(&mut one), 0);
    let mut same = vec![4, 4, 4, 4];
    let p = hoare_partition(&mut same);
    assert!(p < 4);
    assert_eq!(same, vec![4, 4, 4, 4]);
}

#[test]
fn k_stat_of_words() {
    let mut words = vec!["pear", "fig", "apple", "kiwi", "date"];
    assert_eq!(*k_stat(&mut words, 0), "apple");
    assert_eq!(*k_stat(&mut words, 4), "pear");
    assert_eq!(*k_stat(&mut words, 2), "fig");
}

#[test]
fn hoare_partition_around_a_given_pick() {
    let mut seq = vec![5, 1, 9, 3, 7];
    let p = hoare_partition_around(&mut seq, 3);
    assert_eq!(seq[p], 3);
    assert_eq!(p, 1);
    assert!(seq[..p].iter().all(|x| *x <= 3) && seq[p + 1..].iter().all(|x| *x >= 3));
    let mut seq = vec![5, 1, 9, 3, 7];
    let p = hoare_partition_around(&mut seq, 2);
    assert_eq!((p, seq[p]), (3, 7));
    let mut one = vec![4];
    assert_eq!(hoare_partition_around(&mut one, 17), 0);
    let mut none: Vec<i32> = vec![];
    assert_eq!(hoare_partition_around(&mut none, 17), 0);
}
