use minis::inversions::{count_inversion_impl, count_inversions};

fn brute_force(seq: &[i32]) -> usize {
    let mut c = 0;
    for i in 0..seq.len() {
        for j in i + 1..seq.len() {
            if !(seq[i] < seq[j]) {
                c += 1;
            }
        }
    }
    c
}

#[test]
fn test_count_inversion() {
    assert_eq!(count_inversions(&mut vec![2, 1]), 1);
    assert_eq!(count_inversions(&mut vec![3, 4, 1, 2, 5]), 4);
    assert_eq!(count_inversions(&mut vec![3, 4, 2, 5, 1]), 6);
    assert_eq!(count_inversions(&mut vec![1, 2, 3, 4, 5]), 0);
}

#[test]
fn count_inversions_sorts_and_counts_equal_pairs() {
    let mut seq = vec![2, 2, 2];
    assert_eq!(count_inversions(&mut seq), 3);
    let mut empty: Vec<i32> = vec![];
    assert_eq!(count_inversions(&mut empty), 0);
    let mut one = vec![7];
    assert_eq!(count_inversions(&mut one), 0);
    for round in 0..50 {
        let mut seq: Vec<i32> = (0..23).map(|i| (i * 13 + round * 7) % 17 - 8).collect();
        let expected = brute_force(&seq);
        let mut sorted = seq.clone();
        sorted.sort();
        assert_eq!(count_inversions(&mut seq), expected);
        assert_eq!(seq, sorted);
    }
}

#[test]
fn count_inversion_impl_uses_the_buffer_it_is_given() {
    let mut seq = vec![5, 4, 3, 2, 1];
    let mut buf = vec![0; 5];
    assert_eq!(count_inversion_impl(&mut seq, &mut buf), 10);
    assert_eq!(seq, vec![1, 2, 3, 4, 5]);
}
