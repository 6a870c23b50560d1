use algs::stack::{Stack, StackFixedArray, StackLinkedList};

fn test_stack<S: Stack<i32>>(stack: &mut S) {
    assert_eq!(stack.pop(), None);
    assert_eq!(stack.peek(), None);
    assert_eq!(stack.size(), 0);
    assert_eq!(stack.is_empty(), true);

    stack.push(1).unwrap();
    stack.push(2).unwrap();
    stack.push(3).unwrap();
    stack.push(4).unwrap();

    assert_eq!(stack.size(), 4);
    assert_eq!(stack.is_empty(), false);

    assert_eq!(stack.peek(), Some(&4));
    assert_eq!(stack.pop(), Some(4));
    assert_eq!(stack.pop(), Some(3));
    assert_eq!(stack.pop(), Some(2));

    assert_eq!(stack.size(), 1);
    assert_eq!(stack.is_empty(), false);
    assert_eq!(stack.peek(), Some(&1));

    stack.push(5).unwrap();
    stack.push(2).unwrap();

    assert_eq!(stack.size(), 3);
    assert_eq!(stack.pop(), Some(2));
    assert_eq!(stack.pop(), Some(5));
    assert_eq!(stack.pop(), Some(1));

    assert_eq!(stack.pop(), None);
    assert_eq!(stack.peek(), None);
    assert_eq!(stack.size(), 0);
    assert_eq!(stack.is_empty(), true);
}

#[test]
fn test_stack_linked_list() {
    test_stack(&mut StackLinkedList::new());
}

#[test]
fn test_stack_fixed_arr() {
    test_stack(&mut StackFixedArray::<i32, 50>::new());

    // test size limit
    let mut stack = StackFixedArray::<i32, 5>::new();
    assert!(stack.push(1).is_ok());
    assert!(stack.push(2).is_ok());
    assert!(stack.push(3).is_ok());
    assert!(stack.push(4).is_ok());
    assert!(stack.push(5).is_ok());
    assert!(stack.push(6).is_err());
}
