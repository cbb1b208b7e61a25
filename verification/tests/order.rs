use distinct_permutations::order::{is_before, sort};

#[test]
fn test_is_before_is_strict() {
    assert!(is_before(&1, &2));
    assert!(!is_before(&2, &1));
    assert!(!is_before(&2, &2));
    assert!(is_before(&-3, &0));
}

#[test]
fn test_sort_orders_distinct_items() {
    assert_eq!(sort(vec![3, 1, 2]), vec![1, 2, 3]);
    assert_eq!(sort(vec![5, 4, 3, 2, 1, 0]), vec![0, 1, 2, 3, 4, 5]);
}

#[test]
fn test_sort_keeps_repeated_items() {
    assert_eq!(sort(vec![2, 1, 2, 0, 1, 2]), vec![0, 1, 1, 2, 2, 2]);
}

#[test]
fn test_sort_of_nothing_and_of_one() {
    assert_eq!(sort(Vec::<u8>::new()), Vec::<u8>::new());
    assert_eq!(sort(vec!['x']), vec!['x']);
}

#[test]
fn test_sort_of_sorted_input_is_unchanged() {
    assert_eq!(sort(vec![1, 2, 3, 4]), vec![1, 2, 3, 4]);
}
