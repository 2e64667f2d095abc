use cs_learning::search::{binary_search, binary_search_recursive, linear_search};

#[test]
fn test_linear_search() {
    let arr = vec![5, 2, 8, 1, 9];
    assert_eq!(linear_search(&arr, &8), Some(2));
    assert_eq!(linear_search(&arr, &1), Some(3));
    assert_eq!(linear_search(&arr, &10), None);
}

#[test]
fn test_linear_search_empty() {
    let arr: Vec<i32> = vec![];
    assert_eq!(linear_search(&arr, &5), None);
}

#[test]
fn test_binary_search() {
    let arr = vec![1, 2, 5, 8, 9];
    assert_eq!(binary_search(&arr, &5), Some(2));
    assert_eq!(binary_search(&arr, &1), Some(0));
    assert_eq!(binary_search(&arr, &9), Some(4));
    assert_eq!(binary_search(&arr, &10), None);
}

#[test]
fn test_binary_search_recursive() {
    let arr = vec![1, 2, 5, 8, 9];
    assert_eq!(binary_search_recursive(&arr, &5), Some(2));
    assert_eq!(binary_search_recursive(&arr, &1), Some(0));
    assert_eq!(binary_search_recursive(&arr, &9), Some(4));
    assert_eq!(binary_search_recursive(&arr, &10), None);
}

#[test]
fn test_binary_search_below_first() {
    let arr = vec![3, 4, 7];
    assert_eq!(binary_search(&arr, &1), None);
    assert_eq!(binary_search_recursive(&arr, &1), None);
    let empty: Vec<i32> = vec![];
    assert_eq!(binary_search(&empty, &1), None);
    assert_eq!(binary_search_recursive(&empty, &1), None);
}

#[test]
fn test_linear_search_strings() {
    let arr = vec!["ant", "bee", "cat"];
    assert_eq!(linear_search(&arr, &"bee"), Some(1));
    assert_eq!(linear_search(&arr, &"dog"), None);
}
