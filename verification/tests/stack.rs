use linked_collections::stack::Stack;
use linked_collections::vector_based::VectorBasedDataStructure;

#[test]
fn stack_push() {
    let mut stack: Stack<i32> = Stack::new();
    assert_eq!(stack.len(), 0);
    stack.push(1);
    assert_eq!(stack.len(), 1);
    stack.push(2);
    stack.push(3);
    stack.push(4);
    stack.push(5);
    assert_eq!(stack.len(), 5);
}

#[test]
fn stack_pop() {
    let mut stack = Stack::from(vec![1, 2, 3, 4, 5]);
    assert_eq!(stack.len(), 5);
    assert_eq!(stack.pop().unwrap(), 5);
    assert_eq!(stack.len(), 4);
    stack.pop();
    stack.pop();
    stack.pop();
    stack.pop();
    assert_eq!(stack.len(), 0);
    assert_eq!(stack.pop(), None);
}

#[test]
fn stack_peek() {
    let stack = Stack::from(vec![1, 2, 3, 4, 5]);
    assert_eq!(stack.len(), 5);
    assert_eq!(stack.peek().unwrap(), &5);
    assert_eq!(stack.len(), 5);
    let empty_stack: Stack<i32> = Stack::new();
    assert_eq!(empty_stack.len(), 0);
    assert_eq!(empty_stack.peek(), None);
}

#[test]
fn stack_from() {
    let mut stack = Stack::from(vec![1, 2, 3, 4, 5]);
    assert_eq!(stack.len(), 5);
    assert_eq!(stack.pop().unwrap(), 5);
    assert_eq!(stack.pop().unwrap(), 4);
    assert_eq!(stack.pop().unwrap(), 3);
    assert_eq!(stack.pop().unwrap(), 2);
    assert_eq!(stack.pop().unwrap(), 1);
    assert_eq!(stack.pop(), None);
}

#[test]
fn stack_new() {
    let stack: Stack<i32> = Stack::new();
    assert_eq!(stack.len(), 0);
    let empty_vec: Vec<i32> = Vec::new();
    assert_eq!(stack.capacity(), empty_vec.capacity());
}

#[test]
fn with_capacity_and_capacity() {
    let mut stack: Stack<i32> = Stack::with_capacity(3);
    assert_eq!(stack.capacity(), 3);
    stack.push(1);
    assert_eq!(stack.capacity(), 3);
    stack.push(2);
    assert_eq!(stack.capacity(), 3);
    stack.push(3);
    assert_eq!(stack.capacity(), 3);
    stack.push(4);
    assert_eq!(stack.capacity(), 6);
}

#[test]
fn stack_len() {
    let mut stack = Stack::new();
    assert_eq!(stack.len(), 0);
    stack.push(1);
    assert_eq!(stack.len(), 1);
    stack.push(2);
    assert_eq!(stack.len(), 2);
    stack.push(3);
    assert_eq!(stack.len(), 3);
}
