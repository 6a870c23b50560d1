use algs::search::binary_search::{
    binary_search, binary_search_insert_index, binary_search_insert_index_rev, binary_search_rev,
};

#[test]
fn binary_search_test_binary_search() {
    let mut arr = vec![1, 2, 3, 4, 5, 6, 7, 8, 9, 10];
    assert_eq!(binary_search(&arr, &3), Some(2));
    assert_eq!(binary_search(&arr, &10), Some(9));
    assert_eq!(binary_search(&arr, &1), Some(0));
    assert_eq!(binary_search(&arr, &6), Some(5));
    assert_eq!(binary_search(&arr, &11), None);
    assert_eq!(binary_search(&arr, &-1), None);

    arr.reverse();
    assert_eq!(binary_search_rev(&arr, &3), Some(7));
    assert_eq!(binary_search_rev(&arr, &10), Some(0));
    assert_eq!(binary_search_rev(&arr, &1), Some(9));
    assert_eq!(binary_search_rev(&arr, &6), Some(4));
    assert_eq!(binary_search_rev(&arr, &11), None);
    assert_eq!(binary_search_rev(&arr, &-1), None);
}

#[test]
fn binary_search_test_binary_search_insert_index() {
    let arr = vec![1, 2, 3, 4, 5, 6, 7, 8, 9, 10];
    assert_eq!(binary_search_insert_index(&arr, &3), 2);
    assert_eq!(binary_search_insert_index(&arr, &10), 9);
    assert_eq!(binary_search_insert_index(&arr, &1), 0);
    assert_eq!(binary_search_insert_index(&arr, &6), 5);
    assert_eq!(binary_search_insert_index(&arr, &11), 10);
    assert_eq!(binary_search_insert_index(&arr, &-1), 0);

    let arr = vec![1, 2, 2, 4, 4, 6, 9, 9, 9, 10];
    assert_eq!(binary_search_insert_index(&arr, &11), 10);
    assert_eq!(binary_search_insert_index(&arr, &-1), 0);
    assert_eq!(binary_search_insert_index(&arr, &0), 0);
    assert_eq!(binary_search_insert_index(&arr, &1), 0);
    assert_eq!(binary_search_insert_index(&arr, &3), 3);
    assert_eq!(binary_search_insert_index(&arr, &5), 5);
    assert_eq!(binary_search_insert_index(&arr, &6), 5);
    assert_eq!(binary_search_insert_index(&arr, &7), 6);
    assert_eq!(binary_search_insert_index(&arr, &8), 6);

    let arr: Vec<i32> = vec![];
    assert_eq!(binary_search_insert_index(&arr, &10), 0);
    assert_eq!(binary_search_insert_index(&arr, &-10), 0);

    let arr = vec![1];
    assert_eq!(binary_search_insert_index(&arr, &0), 0);
    assert_eq!(binary_search_insert_index(&arr, &1), 0);
    assert_eq!(binary_search_insert_index(&arr, &2), 1);

    let arr = vec![1, 3];
    assert_eq!(binary_search_insert_index(&arr, &0), 0);
    assert_eq!(binary_search_insert_index(&arr, &1), 0);
    assert_eq!(binary_search_insert_index(&arr, &2), 1);
    assert_eq!(binary_search_insert_index(&arr, &3), 1);
    assert_eq!(binary_search_insert_index(&arr, &4), 2);

    let arr = vec![10, 9, 9, 9, 6, 4, 4, 2, 2, 1];
    assert_eq!(binary_search_insert_index_rev(&arr, &11), 0);
    assert_eq!(binary_search_insert_index_rev(&arr, &-1), 10);
    assert_eq!(binary_search_insert_index_rev(&arr, &0), 10);
    assert_eq!(binary_search_insert_index_rev(&arr, &1), 9);
    assert_eq!(binary_search_insert_index_rev(&arr, &3), 7);
    assert_eq!(binary_search_insert_index_rev(&arr, &5), 5);
    assert_eq!(binary_search_insert_index_rev(&arr, &6), 4);
    assert_eq!(binary_search_insert_index_rev(&arr, &7), 4);
    assert_eq!(binary_search_insert_index_rev(&arr, &8), 4);
}

#[test]
fn mod_test_binary_search() {
    let arr = vec![1, 2, 3, 4, 5, 6, 7, 8, 9, 10];
    assert_eq!(algs::search::binary_search(&arr, 3), Some(2));
    assert_eq!(algs::search::binary_search(&arr, 10), Some(9));
    assert_eq!(algs::search::binary_search(&arr, 1), Some(0));
    assert_eq!(algs::search::binary_search(&arr, 6), Some(5));
    assert_eq!(algs::search::binary_search(&arr, 11), None);
    assert_eq!(algs::search::binary_search(&arr, -1), None);
}

#[test]
fn mod_test_binary_search_insert_index() {
    let arr = vec![1, 2, 3, 4, 5, 6, 7, 8, 9, 10];
    assert_eq!(algs::search::binary_search_insert_index(&arr, 3), 2);
    assert_eq!(algs::search::binary_search_insert_index(&arr, 10), 9);
    assert_eq!(algs::search::binary_search_insert_index(&arr, 1), 0);
    assert_eq!(algs::search::binary_search_insert_index(&arr, 6), 5);
    assert_eq!(algs::search::binary_search_insert_index(&arr, 11), 10);
    assert_eq!(algs::search::binary_search_insert_index(&arr, -1), 0);

    let arr = vec![1, 2, 2, 4, 4, 6, 9, 9, 9, 10];
    assert_eq!(algs::search::binary_search_insert_index(&arr, 11), 10);
    assert_eq!(algs::search::binary_search_insert_index(&arr, -1), 0);
    assert_eq!(algs::search::binary_search_insert_index(&arr, 0), 0);
    assert_eq!(algs::search::binary_search_insert_index(&arr, 1), 0);
    assert_eq!(algs::search::binary_search_insert_index(&arr, 3), 3);
    assert_eq!(algs::search::binary_search_insert_index(&arr, 5), 5);
    assert_eq!(algs::search::binary_search_insert_index(&arr, 6), 5);
    assert_eq!(algs::search::binary_search_insert_index(&arr, 7), 6);
    assert_eq!(algs::search::binary_search_insert_index(&arr, 8), 6);

    let arr: Vec<i32> = vec![];
    assert_eq!(algs::search::binary_search_insert_index(&arr, 10), 0);
    assert_eq!(algs::search::binary_search_insert_index(&arr, -10), 0);

    let arr = vec![1];
    assert_eq!(algs::search::binary_search_insert_index(&arr, 0), 0);
    assert_eq!(algs::search::binary_search_insert_index(&arr, 1), 0);
    assert_eq!(algs::search::binary_search_insert_index(&arr, 2), 1);

    let arr = vec![1, 3];
    assert_eq!(algs::search::binary_search_insert_index(&arr, 0), 0);
    assert_eq!(algs::search::binary_search_insert_index(&arr, 1), 0);
    assert_eq!(algs::search::binary_search_insert_index(&arr, 2), 1);
    assert_eq!(algs::search::binary_search_insert_index(&arr, 3), 1);
    assert_eq!(algs::search::binary_search_insert_index(&arr, 4), 2);
}
