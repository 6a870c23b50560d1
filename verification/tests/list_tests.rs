use algs::linked_list::SinglyLinkedList;
use algs::list::{LinkedList, List};

#[test]
fn test1() {
    let mut list = SinglyLinkedList::new();
    assert_eq!(list.pop_front(), None);
    assert_eq!(list.is_empty(), true);
    assert_eq!(list.size(), 0);

    // push front pop front
    list.push_front(1).unwrap();
    list.push_front(2).unwrap();
    assert_eq!(list.size(), 2);
    assert_eq!(list.is_empty(), false);
    list.push_front(3).unwrap();

    assert_eq!(list.pop_front(), Some(3));
    assert_eq!(list.pop_front(), Some(2));
    assert_eq!(list.size(), 1);
    assert_eq!(list.pop_front(), Some(1));
    assert_eq!(list.pop_front(), None);
    assert_eq!(list.size(), 0);
    assert_eq!(list.is_empty(), true);

    // push back pop front
    list.push_back(1).unwrap();
    list.push_back(2).unwrap();
    list.push_back(3).unwrap();

    assert_eq!(list.pop_front(), Some(1));
    assert_eq!(list.pop_front(), Some(2));
    assert_eq!(list.pop_front(), Some(3));
    assert_eq!(list.pop_front(), None);

    // push front pop back
    list.push_front(1).unwrap();
    list.push_front(2).unwrap();
    list.push_front(3).unwrap();

    assert_eq!(list.pop_back(), Some(1));
    assert_eq!(list.pop_back(), Some(2));
    assert_eq!(list.pop_back(), Some(3));
    assert_eq!(list.pop_back(), None);

    // push back pop back
    list.push_back(1).unwrap();
    list.push_back(2).unwrap();
    list.push_back(3).unwrap();

    assert_eq!(list.pop_back(), Some(3));
    assert_eq!(list.pop_back(), Some(2));
    assert_eq!(list.pop_back(), Some(1));
    assert_eq!(list.pop_back(), None);

    // peek front and back and then into iter
    assert_eq!(list.peek_front(), None);
    assert_eq!(list.peek_back(), None);

    list.push_back(1).unwrap();
    assert_eq!(list.peek_front(), Some(&1));
    assert_eq!(list.peek_back(), Some(&1));

    list.push_back(2).unwrap();
    list.push_back(3).unwrap();

    assert_eq!(list.peek_front(), Some(&1));
    assert_eq!(list.peek_back(), Some(&3));

    let mut iter = list.into_iter();
    let mut i = 0;
    while let Some(x) = iter.next() {
        assert_eq!(x, i + 1);
        i += 1;
    }
}

#[test]
fn test_singly() {
    let mut list = algs::list::SinglyLinkedList::new();
    assert_eq!(list.pop_front(), None);
    assert_eq!(list.is_empty(), true);
    assert_eq!(list.size(), 0);

    // push front pop front
    list.push_front(1);
    list.push_front(2);
    assert_eq!(list.size(), 2);
    assert_eq!(list.is_empty(), false);
    list.push_front(3);

    assert_eq!(list.pop_front(), Some(3));
    assert_eq!(list.pop_front(), Some(2));
    assert_eq!(list.size(), 1);
    assert_eq!(list.pop_front(), Some(1));
    assert_eq!(list.pop_front(), None);
    assert_eq!(list.size(), 0);
    assert_eq!(list.is_empty(), true);

    // push back pop front
    list.push_back(1);
    list.push_back(2);
    list.push_back(3);

    assert_eq!(list.pop_front(), Some(1));
    assert_eq!(list.pop_front(), Some(2));
    assert_eq!(list.pop_front(), Some(3));
    assert_eq!(list.pop_front(), None);

    // push front pop back
    list.push_front(1);
    list.push_front(2);
    list.push_front(3);

    assert_eq!(list.pop_back(), Some(1));
    assert_eq!(list.pop_back(), Some(2));
    assert_eq!(list.pop_back(), Some(3));
    assert_eq!(list.pop_back(), None);

    // push back pop back
    list.push_back(1);
    list.push_back(2);
    list.push_back(3);

    assert_eq!(list.pop_back(), Some(3));
    assert_eq!(list.pop_back(), Some(2));
    assert_eq!(list.pop_back(), Some(1));
    assert_eq!(list.pop_back(), None);

    // peek front and back
    assert_eq!(list.peek_front(), None);
    assert_eq!(list.peek_back(), None);

    list.push_back(1);
    assert_eq!(list.peek_front(), Some(&1));
    assert_eq!(list.peek_back(), Some(&1));

    list.push_back(2);
    list.push_back(3);

    assert_eq!(list.peek_front(), Some(&1));
    assert_eq!(list.peek_back(), Some(&3));

    // bump every item, as the by-reference iterators used to
    let mut bumped = Vec::new();
    while let Some(x) = list.pop_front() {
        bumped.push(x + 10);
    }
    for x in bumped {
        list.push_back(x);
    }

    let mut iter = list.into_iter();
    let mut i = 0;
    while let Some(x) = iter.next() {
        assert_eq!(x, i + 11);
        i += 1;
    }
}

#[test]
fn linked_list_test() {
    let mut list = LinkedList::new();
    assert_eq!(list.pop_front(), None);
    assert_eq!(list.is_empty(), true);
    assert_eq!(list.len(), 0);

    // push front pop front
    list.push_front(1);
    list.push_front(2);
    assert_eq!(list.len(), 2);
    assert_eq!(list.is_empty(), false);
    list.push_front(3);

    assert_eq!(list.pop_front(), Some(3));
    assert_eq!(list.pop_front(), Some(2));
    assert_eq!(list.len(), 1);
    assert_eq!(list.pop_front(), Some(1));
    assert_eq!(list.pop_front(), None);
    assert_eq!(list.len(), 0);
    assert_eq!(list.is_empty(), true);

    // push back pop front
    list.push_back(1);
    list.push_back(2);
    list.push_back(3);

    assert_eq!(list.pop_front(), Some(1));
    assert_eq!(list.pop_front(), Some(2));
    assert_eq!(list.pop_front(), Some(3));
    assert_eq!(list.pop_front(), None);

    // push front pop back
    list.push_front(1);
    list.push_front(2);
    list.push_front(3);

    assert_eq!(list.pop_back(), Some(1));
    assert_eq!(list.pop_back(), Some(2));
    assert_eq!(list.pop_back(), Some(3));
    assert_eq!(list.pop_back(), None);

    // push back pop back
    list.push_back(1);
    list.push_back(2);
    list.push_back(3);

    assert_eq!(list.pop_back(), Some(3));
    assert_eq!(list.pop_back(), Some(2));
    assert_eq!(list.pop_back(), Some(1));
    assert_eq!(list.pop_back(), None);

    // peek front and back
    assert_eq!(list.peek_front(), None);
    assert_eq!(list.peek_back(), None);

    list.push_back(1);
    assert_eq!(list.peek_front(), Some(&1));
    assert_eq!(list.peek_back(), Some(&1));

    list.push_back(2);
    list.push_back(3);

    assert_eq!(list.peek_front(), Some(&1));
    assert_eq!(list.peek_back(), Some(&3));

    // bump every item, as the by-reference iterators used to
    let mut bumped = Vec::new();
    while let Some(x) = list.pop_front() {
        bumped.push(x + 10);
    }
    for x in bumped {
        list.push_back(x);
    }

    let mut i = 0;
    while i < list.len() {
        assert_eq!(list.get(i), &(i as i32 + 11));
        i += 1;
    }

    let mut iter = list.into_iter();
    let mut i = 0;
    while let Some(x) = iter.next() {
        assert_eq!(x, i + 11);
        i += 1;
    }
}

#[test]
fn test_insert_remove() {
    let mut list = LinkedList::new();
    list.insert(0, -4);
    list.insert(1, -5);
    list.insert(0, -1);
    list.insert(1, -2);
    list.insert(2, -3);

    assert_eq!(list.get(0), &-1);
    assert_eq!(list.get(1), &-2);
    assert_eq!(list.get(2), &-3);
    assert_eq!(list.get(3), &-4);
    assert_eq!(list.get(4), &-5);
    assert_eq!(list.len(), 5);

    assert_eq!(list.remove(2), -3);
    assert_eq!(list.remove(3), -5);
    assert_eq!(list.remove(0), -1);
    assert_eq!(list.remove(1), -4);

    assert_eq!(list.peek_front(), Some(&-2));
    assert_eq!(list.peek_back(), Some(&-2));
}

#[test]
fn test_doubly() {
    let mut list = algs::list::DoublyLinkedList::new();
    assert_eq!(list.pop_front(), None);
    assert_eq!(list.is_empty(), true);
    assert_eq!(list.size(), 0);

    // push front pop front
    list.push_front(1);
    list.push_front(2);
    assert_eq!(list.size(), 2);
    assert_eq!(list.is_empty(), false);
    list.push_front(3);

    assert_eq!(list.pop_front(), Some(3));
    assert_eq!(list.pop_front(), Some(2));
    assert_eq!(list.size(), 1);
    assert_eq!(list.pop_front(), Some(1));
    assert_eq!(list.pop_front(), None);
    assert_eq!(list.size(), 0);
    assert_eq!(list.is_empty(), true);

    // push back pop front
    list.push_back(1);
    list.push_back(2);
    list.push_back(3);

    assert_eq!(list.pop_front(), Some(1));
    assert_eq!(list.pop_front(), Some(2));
    assert_eq!(list.pop_front(), Some(3));
    assert_eq!(list.pop_front(), None);

    // push front pop back
    list.push_front(1);
    list.push_front(2);
    list.push_front(3);

    assert_eq!(list.pop_back(), Some(1));
    assert_eq!(list.pop_back(), Some(2));
    assert_eq!(list.pop_back(), Some(3));
    assert_eq!(list.pop_back(), None);

    // push back pop back
    list.push_back(1);
    list.push_back(2);
    list.push_back(3);

    assert_eq!(list.pop_back(), Some(3));
    assert_eq!(list.pop_back(), Some(2));
    assert_eq!(list.pop_back(), Some(1));
    assert_eq!(list.pop_back(), None);

    // peek front and back
    assert_eq!(list.peek_front(), None);
    assert_eq!(list.peek_back(), None);

    list.push_back(1);
    assert_eq!(list.peek_front(), Some(&1));
    assert_eq!(list.peek_back(), Some(&1));

    list.push_back(2);
    list.push_back(3);

    assert_eq!(list.peek_front(), Some(&1));
    assert_eq!(list.peek_back(), Some(&3));

    // bump every item, as the by-reference iterators used to
    let mut bumped = Vec::new();
    while let Some(x) = list.pop_front() {
        bumped.push(x + 10);
    }
    for x in bumped {
        list.push_back(x);
    }

    let mut iter = list.into_iter();
    let mut i = 0;
    while let Some(x) = iter.next() {
        assert_eq!(x, i + 11);
        i += 1;
    }
}

#[test]
fn vector_test() {
    let mut v = algs::list::Vector::new();
    assert_eq!(v.pop(), None);
    assert_eq!(v.len(), 0);
    assert_eq!(v.capacity(), 0);
    assert_eq!(v.is_empty(), true);

    v.push(1);
    v.push(2);
    v.push(3);

    assert_eq!(v.capacity(), 4);
    assert_eq!(v.len(), 3);
    assert_eq!(v.pop(), Some(3));
    assert_eq!(v.pop(), Some(2));
    assert_eq!(v.pop(), Some(1));
    assert_eq!(v.pop(), None);
    assert_eq!(v.capacity(), 4);
    assert_eq!(v.len(), 0);

    v.push(10);
    assert_eq!(v.len(), 1);
    assert_eq!(v.is_empty(), false);
    v.push(20);
    v.push(30);
    v.push(40);
    v.push(50);

    assert_eq!(*v.get(v.len() - 1), 50);
    assert_eq!(*v.get(0), 10);

    v.insert(2, 25);
    v.insert(v.len(), -100);

    let expect = [10, 20, 25, 30, 40, 50, -100];
    for (i, want) in expect.iter().enumerate() {
        assert_eq!(v.get(i), want);
    }

    assert_eq!(v.remove(0), 10);
    assert_eq!(v.remove(4), 50);
    assert_eq!(v.remove(2), 30);

    let expect = [20, 25, 40, -100];
    assert_eq!(v.len(), expect.len());
    for (i, want) in expect.iter().enumerate() {
        assert_eq!(v.get(i), want);
    }

    v.remove(0);
    v.remove(0);
    v.remove(0);
    v.remove(0);

    assert_eq!(v.is_empty(), true);

    v.insert(0, 100);
    assert_eq!(v.pop(), Some(100));
    assert_eq!(v.pop(), None);
}
