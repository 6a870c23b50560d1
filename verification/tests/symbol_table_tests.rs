use algs::symbol_table::red_black_bst::IntoIter;
use algs::symbol_table::{BinarySearchTree, RedBlackBST, SymbolTable};

#[test]
fn test_example_1() {
    let mut st = RedBlackBST::new();
    assert_eq!(st.is_empty(), true);
    assert_eq!(st.size(), 0);

    st.put('S', 1).unwrap();
    st.put('E', 2).unwrap();
    st.put('A', 3).unwrap();
    st.put('R', 4).unwrap();
    st.put('C', 5).unwrap();
    st.put('H', 6).unwrap();
    st.put('X', 7).unwrap();
    st.put('M', 8).unwrap();
    st.put('P', 9).unwrap();
    st.put('L', 10).unwrap();

    assert_eq!(st.size(), 10);
    assert_eq!(st.is_empty(), false);

    assert_eq!(st.get('S'), Some(&1));
    assert_eq!(st.get('E'), Some(&2));
    assert_eq!(st.get('A'), Some(&3));
    assert_eq!(st.get('R'), Some(&4));
    assert_eq!(st.get('C'), Some(&5));
    assert_eq!(st.get('H'), Some(&6));
    assert_eq!(st.get('X'), Some(&7));
    assert_eq!(st.get('M'), Some(&8));
    assert_eq!(st.get('P'), Some(&9));
    assert_eq!(st.get('L'), Some(&10));
    assert_eq!(st.get('Z'), None);

    let mut iter = IntoIter::new(&st);
    assert_eq!(iter.next(), Some(&'A'));
    assert_eq!(iter.next(), Some(&'C'));
    assert_eq!(iter.next(), Some(&'E'));
    assert_eq!(iter.next(), Some(&'H'));
    assert_eq!(iter.next(), Some(&'L'));
    assert_eq!(iter.next(), Some(&'M'));
    assert_eq!(iter.next(), Some(&'P'));
    assert_eq!(iter.next(), Some(&'R'));
    assert_eq!(iter.next(), Some(&'S'));
    assert_eq!(iter.next(), Some(&'X'));
    assert_eq!(iter.next(), None);
}

#[test]
fn test_example_2() {
    let mut st = RedBlackBST::new();
    assert_eq!(st.is_empty(), true);
    assert_eq!(st.size(), 0);

    st.put('A', 1).unwrap();
    st.put('C', 2).unwrap();
    st.put('E', 3).unwrap();
    st.put('H', 4).unwrap();
    st.put('L', 5).unwrap();
    st.put('M', 6).unwrap();
    st.put('P', 7).unwrap();
    st.put('R', 8).unwrap();
    st.put('S', 9).unwrap();
    st.put('X', 10).unwrap();

    assert_eq!(st.size(), 10);
    assert_eq!(st.is_empty(), false);

    assert_eq!(st.get('A'), Some(&1));
    assert_eq!(st.get('C'), Some(&2));
    assert_eq!(st.get('E'), Some(&3));
    assert_eq!(st.get('H'), Some(&4));
    assert_eq!(st.get('L'), Some(&5));
    assert_eq!(st.get('M'), Some(&6));
    assert_eq!(st.get('P'), Some(&7));
    assert_eq!(st.get('R'), Some(&8));
    assert_eq!(st.get('S'), Some(&9));
    assert_eq!(st.get('X'), Some(&10));

    let mut iter = IntoIter::new(&st);
    assert_eq!(iter.next(), Some(&'A'));
    assert_eq!(iter.next(), Some(&'C'));
    assert_eq!(iter.next(), Some(&'E'));
    assert_eq!(iter.next(), Some(&'H'));
    assert_eq!(iter.next(), Some(&'L'));
    assert_eq!(iter.next(), Some(&'M'));
    assert_eq!(iter.next(), Some(&'P'));
    assert_eq!(iter.next(), Some(&'R'));
    assert_eq!(iter.next(), Some(&'S'));
    assert_eq!(iter.next(), Some(&'X'));
    assert_eq!(iter.next(), None);
}

#[test]
fn test_binary_search_tree() {
    // test 1
    let mut st = BinarySearchTree::new();
    assert_eq!(st.is_empty(), true);
    assert_eq!(st.size(), 0);

    st.put('a', 10).unwrap();
    st.put('b', 5).unwrap();
    st.put('c', -3).unwrap();
    st.put('d', 0).unwrap();
    assert_eq!(st.size(), 4);
    assert_eq!(st.is_empty(), false);

    assert_eq!(st.get('a'), Some(&10));
    assert_eq!(st.get('b'), Some(&5));
    assert_eq!(st.get('c'), Some(&-3));
    assert_eq!(st.get('d'), Some(&0));
    assert_eq!(st.get('e'), None);

    assert_eq!(st.pop('c'), Some(-3));
    assert_eq!(st.get('c'), None);
    assert_eq!(st.pop('c'), None);
    assert_eq!(st.get('d'), Some(&0));

    st.put('a', 20).unwrap();
    assert_eq!(st.get('a'), Some(&20));
    assert_eq!(st.size(), 3);

    let mut iter = algs::symbol_table::binary_search_tree::IntoIter::new(&st);
    assert_eq!(iter.next(), Some(&'a'));
    assert_eq!(iter.next(), Some(&'b'));
    assert_eq!(iter.next(), Some(&'d'));
    assert_eq!(iter.next(), None);

    // test 2
    let mut st = BinarySearchTree::new();
    st.put(5, -5).unwrap();
    st.put(2, -2).unwrap();
    st.put(3, 100000).unwrap();
    st.put(1, -1).unwrap();
    st.put(0, 0).unwrap();
    st.put(10, -10).unwrap();
    st.put(11, -11).unwrap();
    st.put(12, -12).unwrap();
    st.put(8, -8).unwrap();
    st.put(7, -7).unwrap();
    st.put(3, -3).unwrap();
    st.put(4, -4).unwrap();
    st.put(6, -6).unwrap();
    st.put(9, -9).unwrap();

    for i in 0..=12 {
        assert_eq!(st.get(i), Some(&-i));
    }

    assert!(st.pop(12).is_some());
    assert!(st.pop(5).is_some());
    assert!(st.pop(8).is_some());
    assert!(st.pop(0).is_some());
    assert!(st.pop(3).is_some());

    let mut iter = algs::symbol_table::binary_search_tree::IntoIter::new(&st);
    assert_eq!(iter.next(), Some(&1));
    assert_eq!(iter.next(), Some(&2));
    assert_eq!(iter.next(), Some(&4));
    assert_eq!(iter.next(), Some(&6));
    assert_eq!(iter.next(), Some(&7));
    assert_eq!(iter.next(), Some(&9));
    assert_eq!(iter.next(), Some(&10));
    assert_eq!(iter.next(), Some(&11));
    assert_eq!(iter.next(), None);
}

#[test]
fn test_red_black_update() {
    let mut st = RedBlackBST::new();
    st.put(7, 1).unwrap();
    assert_eq!(st.size(), 1);
    st.put(7, 2).unwrap();
    assert_eq!(st.get(7), Some(&2));
    assert_eq!(st.size(), 1);
}

#[test]
fn test_red_black_size_counts_distinct_keys() {
    let mut st = RedBlackBST::new();
    for k in [4, 2, 9, 2, 4, 7, 9, 1] {
        st.put(k, k * 10).unwrap();
    }
    assert_eq!(st.size(), 5);
    assert_eq!(st.get(2), Some(&20));
}

#[test]
fn test_red_black_reinsert_keeps_order() {
    let mut st = RedBlackBST::new();
    for k in [5, 3, 8, 1, 4] {
        st.put(k, k).unwrap();
    }
    let mut before = Vec::new();
    let mut iter = IntoIter::new(&st);
    while let Some(k) = iter.next() {
        before.push(*k);
    }
    st.put(3, 3).unwrap();
    let mut after = Vec::new();
    let mut iter = IntoIter::new(&st);
    while let Some(k) = iter.next() {
        after.push(*k);
    }
    assert_eq!(before, after);
    assert_eq!(after, vec![1, 3, 4, 5, 8]);
}

#[test]
fn test_ordered_arr_symbol_table() {
    let mut st: algs::symbol_table::OrderedArrST<i32, i32, 2> = algs::symbol_table::OrderedArrST::new();
    assert!(st.is_empty());
    st.put(3, 30).unwrap();
    st.put(1, 10).unwrap();
    assert_eq!(st.put(5, 50), Err("capacity full".to_string()));
    st.put(3, 33).unwrap();
    assert_eq!(st.get(3), Some(&33));
    assert_eq!(st.get(1), Some(&10));
    assert_eq!(st.size(), 2);
    assert_eq!(st.pop(1), Some(10));
    assert_eq!(st.pop(1), None);
    st.put(5, 50).unwrap();
    assert_eq!(st.get(5), Some(&50));

    let mut iter = algs::symbol_table::ordered_arr::IntoIter::new(&st);
    assert_eq!(iter.next(), Some(&3));
    assert_eq!(iter.next(), Some(&5));
    assert_eq!(iter.next(), None);
}
