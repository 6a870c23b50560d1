use algs::utils::{insert_and_shift, pop_and_shift};

#[test]
fn test_insert_and_shift() {
    let mut arr = vec![0, 1, 2, 3, 4, 5, 6, 7, 8, 9];
    assert_eq!(insert_and_shift(&mut arr, 0, 1), 9);
    assert_eq!(arr, vec![0, 0, 1, 2, 3, 4, 5, 6, 7, 8]);
    assert_eq!(insert_and_shift(&mut arr, 10, 0), 8);
    assert_eq!(arr, vec![10, 0, 0, 1, 2, 3, 4, 5, 6, 7]);
    assert_eq!(insert_and_shift(&mut arr, -1, 9), 7);
    assert_eq!(arr, vec![10, 0, 0, 1, 2, 3, 4, 5, 6, -1]);
    assert_eq!(insert_and_shift(&mut arr, -2, 8), -1);
    assert_eq!(arr, vec![10, 0, 0, 1, 2, 3, 4, 5, -2, 6]);
}

#[test]
fn test_pop_and_shift() {
    let mut arr = vec![0, 1, 2, 3, 4, 5, 6, 7, 8, 9];
    assert_eq!(pop_and_shift(&mut arr, -1, 3), 3);
    assert_eq!(arr, vec![0, 1, 2, 4, 5, 6, 7, 8, 9, -1]);
    assert_eq!(pop_and_shift(&mut arr, -2, 9), -1);
    assert_eq!(arr, vec![0, 1, 2, 4, 5, 6, 7, 8, 9, -2]);
    assert_eq!(pop_and_shift(&mut arr, 100, 0), 0);
    assert_eq!(arr, vec![1, 2, 4, 5, 6, 7, 8, 9, -2, 100]);
    assert_eq!(pop_and_shift(&mut arr, 200, 1), 2);
    assert_eq!(arr, vec![1, 4, 5, 6, 7, 8, 9, -2, 100, 200]);
}
