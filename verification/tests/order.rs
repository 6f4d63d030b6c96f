use minis::order::{at_most, greater, less, same};
use minis::slices::swap;

#[test]
fn comparisons_follow_the_operators() {
    assert!(less(&1, &2) && !less(&2, &2) && !less(&3, &2));
    assert!(greater(&3, &2) && !greater(&2, &2) && !greater(&1, &2));
    assert!(at_most(&1, &2) && at_most(&2, &2) && !at_most(&3, &2));
    assert!(same(&"a", &"a") && !same(&"a", &"b"));
}

#[test]
fn swap_exchanges_two_places() {
    let mut seq = vec!["a".to_string(), "b".to_string(), "c".to_string()];
    swap(&mut seq, 0, 2);
    assert_eq!(seq, vec!["c", "b", "a"]);
    swap(&mut seq, 2, 1);
    assert_eq!(seq, vec!["c", "a", "b"]);
    swap(&mut seq, 1, 1);
    assert_eq!(seq, vec!["c", "a", "b"]);
}
