use alda::stack::{DummyStack, Stack};

#[test]
fn test_dummy_stack() {
    let mut stack = DummyStack::default();
    stack.push(1);
    stack.push(2);
    stack.push(3);
    assert_eq!(stack.top(), 3);
    assert_eq!(stack.pop(), Some(3));
    assert_eq!(stack.pop(), Some(2));
    assert_eq!(stack.top(), 1);
}

#[test]
fn dummy_stack_runs_empty() {
    let mut stack = DummyStack::default();
    assert!(stack.is_empty());
    assert_eq!(stack.pop(), None);
    stack.push(5);
    assert!(!stack.is_empty());
    assert_eq!(stack.pop(), Some(5));
    assert_eq!(stack.pop(), None);
}

#[test]
fn test_pop() {
    let mut s = Stack::new(2);
    assert!(s.push(-9).is_ok());
    assert!(s.push(1).is_ok());
    assert_eq!(s.pop().unwrap().key, 1);
    assert_eq!(s.pop().unwrap().key, -9);
    assert!(s.pop().is_err());
}

#[test]
fn test_push() {
    let mut s: Stack<isize> = Stack::new(1);
    assert_eq!(s.len, 0);
    assert!(s.push(3).is_ok());
    assert!(s.push(2).is_err());
}

#[test]
fn stack_error_texts() {
    let mut s: Stack<isize> = Stack::new(0);
    assert!(s.is_empty());
    assert_eq!(s.push(1), Err("the stack is already full"));
    assert_eq!(s.pop().unwrap_err(), "attempt to pop empty stack");
    assert_eq!(s.len, 0);
}
