use playground_dsa_rust::algos::selection_sorting::selection_sort;
use playground_dsa_rust::bubble_sort::bubble_sorting;
use playground_dsa_rust::insert_sorting::insert_sort;
use playground_dsa_rust::merge_sort::merge_sort;
use playground_dsa_rust::quicksort::quicksort;
use rand::seq::SliceRandom;
use rand::thread_rng;

#[test]
fn test_selection_sort() {
    let mut arr = vec![5, 4, 1, 2, 3];
    assert_eq!(selection_sort(&mut arr), vec![1, 2, 3, 4, 5]);

    let mut arr = vec![5, 4, 2, 3];
    assert_eq!(selection_sort(&mut arr), vec![2, 3, 4, 5]);

    let mut sorted_arr = Vec::new();
    let mut arr = Vec::new();
    for i in 0..100 {
        arr.push(i);
        sorted_arr.push(i);
    }

    arr.shuffle(&mut thread_rng());
    assert_eq!(selection_sort(&mut arr), sorted_arr);
}

#[test]
fn bubble_sort_test_bubble_sorting() {
    let mut arr = vec![5, 4, 1, 2, 3];
    assert_eq!(bubble_sorting(&mut arr), vec![1, 2, 3, 4, 5]);
}

#[test]
fn test_insert_sort() {
    let mut arr = vec![5, 4, 1, 2, 3];
    assert_eq!(insert_sort(&mut arr), vec![1, 2, 3, 4, 5]);
}

#[test]
fn merge_sort_test_bubble_sorting() {
    let mut arr = vec![5, 4, 1, 2, 3];
    assert_eq!(merge_sort(&mut arr), vec![1, 2, 3, 4, 5]);
}

#[test]
fn quicksort_test_bubble_sorting() {
    let mut arr = vec![5, 4, 1, 2, 3];
    let len = arr.len();
    assert_eq!(quicksort(&mut arr, 0, len - 1), vec![1, 2, 3, 4, 5]);
}

#[test]
fn test_sorts_with_duplicates() {
    let mut arr = vec![3, 1, 3, 2, 1, 3];
    assert_eq!(bubble_sorting(&mut arr), vec![1, 1, 2, 3, 3, 3]);
    let mut arr = vec![3, 1, 3, 2, 1, 3];
    assert_eq!(insert_sort(&mut arr), vec![1, 1, 2, 3, 3, 3]);
    let mut arr = vec![3, 1, 3, 2, 1, 3];
    assert_eq!(merge_sort(&mut arr), vec![1, 1, 2, 3, 3, 3]);
    let mut arr = vec![3, 1, 3, 2, 1, 3];
    assert_eq!(quicksort(&mut arr, 0, 5), vec![1, 1, 2, 3, 3, 3]);
    let mut arr = vec![3, 1, 3, 2, 1, 3];
    assert_eq!(selection_sort(&mut arr), vec![1, 1, 2, 3, 3, 3]);
}

#[test]
fn test_sorts_small_inputs() {
    let mut arr = vec![7];
    assert_eq!(insert_sort(&mut arr), vec![7]);
    let mut arr: Vec<i32> = vec![];
    assert_eq!(merge_sort(&mut arr), Vec::<i32>::new());
    let mut arr = vec![9, -4];
    assert_eq!(quicksort(&mut arr, 0, 1), vec![-4, 9]);
    let mut arr = vec![2, 1];
    assert_eq!(quicksort(&mut arr, 0, 1), vec![1, 2]);
}
