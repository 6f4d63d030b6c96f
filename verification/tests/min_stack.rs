use minis::min_stack::MinStack;

#[test]
fn min_stack_tracks_the_minimum() {
    let mut stack = MinStack::new();
    assert_eq!(stack.get_min(), i32::MAX);
    stack.push(-2);
    stack.push(0);
    stack.push(-3);
    assert_eq!(stack.get_min(), -3);
    assert_eq!(stack.top(), -3);
    stack.pop();
    assert_eq!(stack.top(), 0);
    assert_eq!(stack.get_min(), -2);
    stack.pop();
    assert_eq!(stack.top(), -2);
    assert_eq!(stack.get_min(), -2);
    stack.pop();
    assert_eq!(stack.get_min(), i32::MAX);
}

#[test]
fn min_stack_pop_on_empty_is_a_no_op() {
    let mut stack = MinStack::new();
    stack.pop();
    stack.push(7);
    stack.push(7);
    assert_eq!(stack.get_min(), 7);
    stack.pop();
    assert_eq!(stack.get_min(), 7);
    assert_eq!(stack.top(), 7);
}
