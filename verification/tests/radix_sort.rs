use minis::count_sort::count_sort;
use minis::radix_sort::ascii_radix_sort;

#[test]
fn test_ascii_radix_sort() {
    let mut strs = vec!["group", "space", "ring", "field"];
    ascii_radix_sort(&mut strs);
    assert_eq!(strs, vec!["field", "group", "ring", "space"]);
}

#[test]
fn test_count_sort() {
    let mut nums = vec![2, 1, 1, 2, 3, 0];
    count_sort(&mut nums, |n| *n);
    assert_eq!(nums, vec![0, 1, 1, 2, 2, 3]);
    let mut strs = vec!["cdf", "bcd", "abc"];
    count_sort(&mut strs, |s| s.as_bytes()[0]);
    assert_eq!(nums, vec![0, 1, 1, 2, 2, 3]);
}

#[test]
fn count_sort_is_stable_and_takes_every_key() {
    let mut pairs = vec![(2u8, 'a'), (0, 'b'), (255, 'c'), (2, 'd'), (0, 'e'), (255, 'f'), (1, 'g')];
    count_sort(&mut pairs, |p| p.0);
    assert_eq!(
        pairs,
        vec![(0, 'b'), (0, 'e'), (1, 'g'), (2, 'a'), (2, 'd'), (255, 'c'), (255, 'f')]
    );
    let mut strs = vec!["cdf", "bcd", "abc"];
    count_sort(&mut strs, |s| s.as_bytes()[0]);
    assert_eq!(strs, vec!["abc", "bcd", "cdf"]);
    let mut empty: Vec<u8> = vec![];
    count_sort(&mut empty, |n| *n);
    assert_eq!(empty, Vec::<u8>::new());
}

#[test]
fn radix_sort_agrees_with_the_order_of_str() {
    let mut strs = vec![
        "b", "", "abc", "ab", "a", "ba", "abd", "é", "z", "ab", "aa", "Zebra", "zebra", "0", "10",
        "9",
    ];
    let mut expected = strs.clone();
    expected.sort();
    ascii_radix_sort(&mut strs);
    assert_eq!(strs, expected);
    let mut none: Vec<&str> = vec![];
    ascii_radix_sort(&mut none);
    assert_eq!(none, Vec::<&str>::new());
    let mut blanks = vec!["", "", ""];
    ascii_radix_sort(&mut blanks);
    assert_eq!(blanks, vec!["", "", ""]);
}
