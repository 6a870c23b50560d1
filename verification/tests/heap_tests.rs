use algs::heap::{MinHeap, MinHeapOrderedArr, MinHeapUnorderedArr};

fn test<H: MinHeap<i32>>(heap: &mut H) {
    assert_eq!(heap.is_empty(), true);
    assert_eq!(heap.size(), 0);
    assert_eq!(heap.pop(), None);
    assert_eq!(heap.peek(), None);

    heap.push(4).unwrap();
    heap.push(2).unwrap();
    heap.push(6).unwrap();
    heap.push(3).unwrap();

    assert_eq!(heap.peek(), Some(&2));
    assert_eq!(heap.pop(), Some(2));
    assert_eq!(heap.pop(), Some(3));
    assert_eq!(heap.size(), 2);
    assert_eq!(heap.pop(), Some(4));
    assert_eq!(heap.size(), 1);
    assert_eq!(heap.peek(), Some(&6));
    assert_eq!(heap.pop(), Some(6));
    assert_eq!(heap.size(), 0);
    assert_eq!(heap.pop(), None);
    assert_eq!(heap.size(), 0);
    assert_eq!(heap.peek(), None);

    heap.push(1).unwrap();
    heap.push(2).unwrap();
    heap.push(2).unwrap();
    heap.push(-1).unwrap();

    assert_eq!(heap.size(), 4);
    assert_eq!(heap.peek(), Some(&-1));
    assert_eq!(heap.pop(), Some(-1));
    assert_eq!(heap.pop(), Some(1));
    assert_eq!(heap.pop(), Some(2));
    heap.push(0).unwrap();
    heap.push(3).unwrap();
    assert_eq!(heap.pop(), Some(0));
    assert_eq!(heap.pop(), Some(2));
    assert_eq!(heap.pop(), Some(3));
    assert_eq!(heap.pop(), None);
}

#[test]
fn mod_test_unordered_arr() {
    let mut heap: MinHeapUnorderedArr<i32, 99> = MinHeapUnorderedArr::new();
    test(&mut heap);

    let mut heap: MinHeapUnorderedArr<i32, 5> = MinHeapUnorderedArr::new();
    assert!(heap.push(1).is_ok());
    assert!(heap.push(2).is_ok());
    assert!(heap.push(3).is_ok());
    assert!(heap.push(4).is_ok());
    assert!(heap.push(5).is_ok());
    assert!(heap.push(6).is_err());
}

#[test]
fn mod_test_ordered_arr() {
    let mut heap: MinHeapOrderedArr<i32, 99> = MinHeapOrderedArr::new();
    test(&mut heap);

    let mut heap: MinHeapOrderedArr<i32, 5> = MinHeapOrderedArr::new();
    assert!(heap.push(1).is_ok());
    assert!(heap.push(2).is_ok());
    assert!(heap.push(3).is_ok());
    assert!(heap.push(4).is_ok());
    assert!(heap.push(5).is_ok());
    assert!(heap.push(6).is_err());
}
