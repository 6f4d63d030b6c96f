use minis::binary_heap::BinaryHeap;

#[test]
fn it_works() {
    let mut heap = BinaryHeap::<i32>::new();

    heap.insert(0);
    assert_eq!(Some(0), heap.peek_min().copied());
    heap.insert(-1);
    assert_eq!(Some(-1), heap.peek_min().copied());
    heap.insert(5);
    assert_eq!(Some(-1), heap.peek_min().copied());
    println!("{heap:?}");

    assert_eq!(Some(-1), heap.peek_min().copied());
    assert_eq!(Some(-1), heap.extract_min());
    println!("{heap:?}");
    assert_eq!(Some(0), heap.peek_min().copied());
    assert_eq!(Some(0), heap.extract_min());
    assert_eq!(Some(5), heap.peek_min().copied());
    assert_eq!(Some(5), heap.extract_min());
    assert_eq!(None, heap.peek_min());
    assert_eq!(None, heap.extract_min());
}

#[test]
fn heap_hands_out_elements_in_order() {
    let input = [9, 3, 7, 3, 1, 8, 2, 2, 6, 0, 5, 4, -1, 10, 3];
    let mut heap = BinaryHeap::<i32>::new();
    assert!(heap.is_empty());
    for (k, x) in input.iter().enumerate() {
        assert_eq!(heap.size(), k);
        heap.insert(*x);
    }
    assert!(!heap.is_empty());
    assert_eq!(heap.size(), input.len());
    let mut expected = input.to_vec();
    expected.sort();
    let mut out = Vec::new();
    while let Some(x) = heap.extract_min() {
        out.push(x);
    }
    assert_eq!(out, expected);
    assert_eq!(heap.size(), 0);
    assert!(heap.is_empty());
}

#[test]
fn heap_of_strings() {
    let mut heap = BinaryHeap::<String>::new();
    for word in ["pear", "apple", "fig", "apple"] {
        heap.insert(word.to_string());
    }
    assert_eq!(heap.peek_min().map(|s| s.as_str()), Some("apple"));
    assert_eq!(heap.extract_min().as_deref(), Some("apple"));
    assert_eq!(heap.extract_min().as_deref(), Some("apple"));
    assert_eq!(heap.extract_min().as_deref(), Some("fig"));
    assert_eq!(heap.extract_min().as_deref(), Some("pear"));
    assert_eq!(heap.extract_min(), None);
}
