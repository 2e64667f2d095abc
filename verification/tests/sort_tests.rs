use cs_learning::basic_sorts::{
    bubble_sort, bubble_sort_optimized, bubble_sort_optimized_with_count, insertion_sort,
    selection_sort,
};
use cs_learning::advanced_sorts::{heap_sort, merge_sort, quick_sort};
use cs_learning::applications::sort_by;

#[test]
fn test_bubble_sort() {
    let mut arr = vec![5, 2, 8, 1, 9];
    bubble_sort(&mut arr);
    assert_eq!(arr, vec![1, 2, 5, 8, 9]);
}

#[test]
fn test_bubble_sort_optimized() {
    let mut arr = vec![5, 2, 8, 1, 9];
    bubble_sort_optimized(&mut arr);
    assert_eq!(arr, vec![1, 2, 5, 8, 9]);

    let mut arr = vec![1, 2, 3, 5, 4];
    bubble_sort_optimized(&mut arr);
    assert_eq!(arr, vec![1, 2, 3, 4, 5]);
}

#[test]
fn test_bubble_sort_optimized_early_termination() {
    let mut arr = vec![1, 2, 3, 4, 5];
    let (comparisons, swaps) = bubble_sort_optimized_with_count(&mut arr);
    assert_eq!(arr, vec![1, 2, 3, 4, 5]);

    println!("sorted input: comparisons={}, swaps={}", comparisons, swaps);
    assert_eq!(swaps, 0, "a sorted input needs no swap");
    assert_eq!(comparisons, 4, "a sorted input ends after one pass");

    let mut arr = vec![1, 2, 3, 5, 4];
    let (comparisons, swaps) = bubble_sort_optimized_with_count(&mut arr);
    assert_eq!(arr, vec![1, 2, 3, 4, 5]);

    println!(
        "nearly sorted input: comparisons={}, swaps={}",
        comparisons, swaps
    );
    assert_eq!(swaps, 1, "one misplaced element needs one swap");
    assert!(
        comparisons <= 7,
        "the early exit ends this in at most 7 comparisons, saw {}",
        comparisons
    );
}

#[test]
fn test_bubble_sort_optimized_reverse_array() {
    let mut arr = vec![5, 4, 3, 2, 1];
    bubble_sort_optimized(&mut arr);
    assert_eq!(arr, vec![1, 2, 3, 4, 5], "a reversed input must end sorted");
}

#[test]
fn test_selection_sort() {
    let mut arr = vec![5, 2, 8, 1, 9];
    selection_sort(&mut arr);
    assert_eq!(arr, vec![1, 2, 5, 8, 9]);
}

#[test]
fn test_insertion_sort() {
    let mut arr = vec![5, 2, 8, 1, 9];
    insertion_sort(&mut arr);
    assert_eq!(arr, vec![1, 2, 5, 8, 9]);
}

#[test]
fn test_sort_single_element() {
    let mut arr = vec![42];
    selection_sort(&mut arr);
    assert_eq!(arr, vec![42]);
}

#[test]
fn test_sort_already_sorted() {
    let mut arr = vec![1, 2, 3, 4, 5];
    insertion_sort(&mut arr);
    assert_eq!(arr, vec![1, 2, 3, 4, 5]);
}

#[test]
fn test_insertion_sort_empty() {
    let mut arr: Vec<i32> = vec![];
    insertion_sort(&mut arr);
    assert_eq!(arr, vec![]);
}

#[test]
fn test_merge_sort() {
    let mut arr = vec![5, 2, 8, 1, 9, 3, 7, 4];
    merge_sort(&mut arr);
    assert_eq!(arr, vec![1, 2, 3, 4, 5, 7, 8, 9]);
}

#[test]
fn test_quick_sort() {
    let mut arr = vec![5, 2, 8, 1, 9, 3, 7, 4];
    quick_sort(&mut arr);
    assert_eq!(arr, vec![1, 2, 3, 4, 5, 7, 8, 9]);
}

#[test]
fn test_merge_sort_reverse() {
    let mut arr = vec![9, 8, 7, 6, 5, 4, 3, 2, 1];
    merge_sort(&mut arr);
    assert_eq!(arr, vec![1, 2, 3, 4, 5, 6, 7, 8, 9]);
}

#[test]
fn test_merge_sort_empty() {
    let mut arr: Vec<i32> = vec![];
    merge_sort(&mut arr);
    assert_eq!(arr, vec![]);
}

#[test]
fn test_quick_sort_duplicates() {
    let mut arr = vec![3, 1, 4, 1, 5, 9, 2, 6, 5];
    quick_sort(&mut arr);
    assert_eq!(arr, vec![1, 1, 2, 3, 4, 5, 5, 6, 9]);
}

#[test]
fn test_quick_sort_empty() {
    let mut arr: Vec<i32> = vec![];
    quick_sort(&mut arr);
    assert_eq!(arr, vec![]);
}

#[test]
fn test_merge_sort_single() {
    let mut arr = vec![42];
    merge_sort(&mut arr);
    assert_eq!(arr, vec![42]);
}

#[test]
fn test_quick_sort_single() {
    let mut arr = vec![42];
    quick_sort(&mut arr);
    assert_eq!(arr, vec![42]);
}

#[test]
fn test_sort_by_descending() {
    let mut arr = vec![5, 2, 8, 1, 9];
    sort_by(&mut arr, |a, b| b.cmp(a));
    assert_eq!(arr, vec![9, 8, 5, 2, 1]);
}

#[test]
fn test_heap_sort() {
    let mut arr = vec![5, 2, 8, 1, 9, 3, 7, 4];
    heap_sort(&mut arr);
    assert_eq!(arr, vec![1, 2, 3, 4, 5, 7, 8, 9]);
}

#[test]
fn test_heap_sort_empty() {
    let mut arr: Vec<i32> = vec![];
    heap_sort(&mut arr);
    assert_eq!(arr, vec![]);
}

#[test]
fn test_heap_sort_single() {
    let mut arr = vec![42];
    heap_sort(&mut arr);
    assert_eq!(arr, vec![42]);
}

#[test]
fn test_heap_sort_duplicates() {
    let mut arr = vec![2, 1, 2, 1, 0, 2];
    heap_sort(&mut arr);
    assert_eq!(arr, vec![0, 1, 1, 2, 2, 2]);
}
