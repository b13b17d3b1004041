use maze_generation::stack::Stack;

#[test]
fn test_new_is_empty() {
    let stack = Stack::<i32>::new();
    assert!(stack.empty());
}

#[test]
fn test_from_holds_value() {
    let stack = Stack::<i32>::from(1);
    assert_eq!(stack.top(), Some(1));
    assert!(!stack.empty());
}

#[test]
fn test_push_and_top() {
    let mut stack = Stack::<i32>::new();
    stack.push(1);
    assert_eq!(stack.top(), Some(1));
    stack.push(7);
    assert_eq!(stack.top(), Some(7));
}

#[test]
fn test_pop() {
    let mut stack = Stack::<i32>::from(1);
    let popped_value = stack.pop();
    assert_eq!(popped_value, Some(1));
    assert!(stack.empty());
    assert_eq!(stack.pop(), None);
    assert_eq!(stack.top(), None);
}

#[test]
fn test_default_is_empty() {
    let stack = Stack::<i32>::default();
    assert!(stack.empty());
}

#[test]
fn test_last_in_first_out() {
    let mut stack = Stack::<u8>::new();
    stack.push(1);
    stack.push(2);
    stack.push(3);
    assert_eq!(stack.pop(), Some(3));
    assert_eq!(stack.pop(), Some(2));
    assert_eq!(stack.pop(), Some(1));
    assert!(stack.empty());
}
