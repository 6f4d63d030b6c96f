use minis::sorting::{shell_sort, shell_sort_k};

#[test]
fn test_shell_sort() {
    let mut nums = vec![1, 2, 15, 3, 4, 9, 10, 13, 0, 5, 6, 7, 12, 8, 14, 11];
    assert!(nums.len() == 16);
    shell_sort(&mut nums);
    assert_eq!(nums, (0..16).into_iter().collect::<Vec<_>>())
}

#[test]
fn shell_sort_handles_short_and_repeated_input() {
    let mut empty: Vec<i32> = vec![];
    shell_sort(&mut empty);
    assert_eq!(empty, Vec::<i32>::new());
    let mut one = vec![3];
    shell_sort(&mut one);
    assert_eq!(one, vec![3]);
    let mut nums = vec![5, 1, 5, 1, 5, 1, 0, 0, 9, 9, 9, -4];
    shell_sort(&mut nums);
    assert_eq!(nums, vec![-4, 0, 0, 1, 1, 1, 5, 5, 5, 9, 9, 9]);
    let mut words = vec!["pear", "fig", "apple", "fig"];
    shell_sort(&mut words);
    assert_eq!(words, vec!["apple", "fig", "fig", "pear"]);
}

#[test]
fn shell_sort_k_sorts_each_interleaved_subsequence() {
    let mut nums = vec![9, 8, 7, 6, 5, 4, 3, 2, 1, 0];
    shell_sort_k(&mut nums, 3);
    assert_eq!(nums, vec![0, 2, 1, 3, 5, 4, 6, 8, 7, 9]);
    let mut nums = vec![3, 2, 1];
    shell_sort_k(&mut nums, 0);
    assert_eq!(nums, vec![3, 2, 1]);
    shell_sort_k(&mut nums, 7);
    assert_eq!(nums, vec![3, 2, 1]);
    shell_sort_k(&mut nums, 1);
    assert_eq!(nums, vec![1, 2, 3]);
}
