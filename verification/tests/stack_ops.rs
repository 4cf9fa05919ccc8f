use bht::Stack;
use bht::StackError;

#[test]
fn push_fails_only_at_capacity() {
    let mut s: Stack<u32, 2> = Stack::default();
    assert!(s.is_empty());
    assert_eq!(s.push(10), Ok(()));
    assert_eq!(s.push(20), Ok(()));
    assert_eq!(s.push(30), Err(StackError::CapacityExceeded));
    assert!(!s.is_empty());
}

#[test]
fn pop_returns_in_reverse_order() {
    let mut s: Stack<u32, 4> = Stack::default();
    assert_eq!(s.push(1), Ok(()));
    assert_eq!(s.push(2), Ok(()));
    assert_eq!(s.push(3), Ok(()));
    assert_eq!(s.pop(), Ok(3));
    assert_eq!(s.pop(), Ok(2));
    assert_eq!(s.pop(), Ok(1));
    assert_eq!(s.pop(), Err(StackError::Underflow));
    assert!(s.is_empty());
}

#[test]
fn peek_reads_the_top_without_removing_it() {
    let mut s: Stack<u32, 3> = Stack::default();
    assert_eq!(s.peek(), Err(StackError::Underflow));
    assert_eq!(s.push(7), Ok(()));
    assert_eq!(s.peek(), Ok(&7));
    assert_eq!(s.peek(), Ok(&7));
    assert_eq!(s.pop(), Ok(7));
    assert_eq!(s.peek(), Err(StackError::Underflow));
}

#[test]
fn zero_capacity_rejects_every_push() {
    let mut s: Stack<u32, 0> = Stack::default();
    assert_eq!(s.push(1), Err(StackError::CapacityExceeded));
    assert!(s.is_empty());
}
