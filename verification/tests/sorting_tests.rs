use algs::sorting::shell::calc_max_h;
use algs::sorting::{bubble_sort, heap_sort, merge_sort, quick_sort, selection_sort, shell_sort};
use rand::Rng;

fn test_sort_fn<F>(sort_fn: F)
where
    F: Fn(&mut Vec<i32>),
{
    let test_example = |input: &mut Vec<i32>, output: &[i32]| {
        sort_fn(input);
        assert_eq!(input, output);
    };

    test_example(&mut vec![], &[]);

    test_example(&mut vec![1], &[1]);

    test_example(&mut vec![2, 1], &[1, 2]);

    test_example(&mut vec![1, 2], &[1, 2]);

    test_example(&mut vec![0, 0, 0, 0, 0, 0], &[0, 0, 0, 0, 0, 0]);

    test_example(&mut vec![1, 2, 3, 4, 5], &[1, 2, 3, 4, 5]);

    test_example(&mut vec![5, 4, 3, 2, 1], &[1, 2, 3, 4, 5]);

    test_example(
        &mut vec![1, 1, 5, 1, 6, 7, -3, 0, 0, 9],
        &[-3, 0, 0, 1, 1, 1, 5, 6, 7, 9],
    );

    const SIZE: usize = 20;
    let mut arr: Vec<i32> = (0..SIZE)
        .map(|_| rand::thread_rng().gen_range(-50..=50))
        .collect();
    let mut ans = arr.clone();
    ans.sort();
    test_example(&mut arr, &ans)
}

#[test]
fn test_bubble_sort() {
    test_sort_fn(bubble_sort);
}

#[test]
fn test_selection_sort() {
    test_sort_fn(selection_sort);
}

#[test]
fn test_shell_sort() {
    test_sort_fn(shell_sort);
}

#[test]
fn test_quick_sort() {
    test_sort_fn(quick_sort);
}

#[test]
fn test_merge_sort() {
    test_sort_fn(merge_sort);
}

#[test]
fn test_heap_sort() {
    test_sort_fn(heap_sort);
}

#[test]
fn test_calc_max_h() {
    // arr_len = 0, 1, 2, 3, 4, 5, 6, 7, 8, 9, 10, 11, 12, 13, 14, 15
    //   max_h = 0, 0, 1, 1, 1, 4, 4, 4, 4, 4,  4,  4,  4,  4, 13, 13
    let vals: Vec<usize> = vec![0, 0, 1, 1, 1, 4, 4, 4, 4, 4, 4, 4, 4, 4, 13, 13];
    let calc: Vec<usize> = (0..vals.len()).map(calc_max_h).collect();
    assert_eq!(calc, vals);
}
