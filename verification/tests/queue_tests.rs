use algs::queue::{Queue, QueueFixedArr, QueueLinkedList};

fn test<Q: Queue<i32>>(queue: &mut Q) {
    assert_eq!(queue.pop(), None);
    assert_eq!(queue.is_empty(), true);
    assert_eq!(queue.size(), 0);
    assert_eq!(queue.peek(), None);

    queue.push(1).unwrap();
    assert_eq!(queue.peek(), Some(&1));

    queue.push(2).unwrap();
    queue.push(3).unwrap();
    assert_eq!(queue.peek(), Some(&1));

    assert_eq!(queue.pop(), Some(1));
    assert_eq!(queue.pop(), Some(2));
    assert_eq!(queue.pop(), Some(3));
    assert_eq!(queue.pop(), None);

    assert_eq!(queue.peek(), None);
    queue.push(10).unwrap();
    assert_eq!(queue.peek(), Some(&10));
    queue.push(5).unwrap();
    assert_eq!(queue.peek(), Some(&10));
    assert_eq!(queue.pop(), Some(10));
    assert_eq!(queue.peek(), Some(&5));
    queue.push(4).unwrap();
    queue.push(3).unwrap();
    queue.push(2).unwrap();
    assert_eq!(queue.peek(), Some(&5));
    assert_eq!(queue.pop(), Some(5));
    assert_eq!(queue.pop(), Some(4));
    assert_eq!(queue.pop(), Some(3));
    assert_eq!(queue.peek(), Some(&2));
    queue.push(1).unwrap();
    assert_eq!(queue.pop(), Some(2));
    assert_eq!(queue.pop(), Some(1));
    assert_eq!(queue.pop(), None);
}

#[test]
fn test_queue_linked_list() {
    test(&mut QueueLinkedList::new());
}

#[test]
fn test_queue_fixed_arr() {
    test(&mut QueueFixedArr::<i32, 4>::new());

    let mut queue = QueueFixedArr::<i32, 5>::new();
    assert!(queue.push(1).is_ok());
    assert!(queue.push(2).is_ok());
    assert!(queue.push(3).is_ok());
    assert!(queue.push(4).is_ok());
    assert!(queue.push(5).is_ok());
    assert!(queue.push(6).is_err());
}

#[test]
fn test_queue() {
    let mut list = QueueLinkedList::new();
    assert_eq!(list.pop(), None);
    assert_eq!(list.is_empty(), true);
    assert_eq!(list.size(), 0);
    assert_eq!(list.peek(), None);

    list.push(1).unwrap();
    assert_eq!(list.peek(), Some(&1));

    list.push(2).unwrap();
    list.push(3).unwrap();
    assert_eq!(list.peek(), Some(&1));

    assert_eq!(list.pop(), Some(1));
    assert_eq!(list.pop(), Some(2));
    assert_eq!(list.pop(), Some(3));
    assert_eq!(list.pop(), None);
}
