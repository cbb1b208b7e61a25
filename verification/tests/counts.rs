use distinct_permutations::{distinct_permutations_with, Counts};
use std::collections::HashMap;

fn counts_of(pairs: &[(u32, usize)]) -> Counts<u32> {
    let mut map = HashMap::new();
    for (value, count) in pairs {
        map.insert(*value, *count);
    }
    Counts::from(map)
}

fn sorted_keys(counts: &Counts<u32>) -> Vec<u32> {
    let mut keys = counts.keys();
    keys.sort();
    keys
}

#[test]
fn test_counts_from_empty_map_is_empty() {
    let counts: Counts<u32> = Counts::from(HashMap::new());
    assert!(counts.is_empty());
    assert_eq!(counts.keys(), Vec::<u32>::new());
}

#[test]
fn test_counts_keys_lists_each_value_once() {
    let counts = counts_of(&[(4, 3), (9, 1), (2, 2)]);
    assert!(!counts.is_empty());
    assert_eq!(sorted_keys(&counts), vec![2, 4, 9]);
}

#[test]
fn test_counts_add_inserts_absent_value() {
    let mut counts = counts_of(&[(1, 1)]);
    counts.add(5);
    assert_eq!(sorted_keys(&counts), vec![1, 5]);
    counts.remove(&5);
    assert_eq!(sorted_keys(&counts), vec![1]);
}

#[test]
fn test_counts_add_increments_present_value() {
    let mut counts = counts_of(&[(1, 1)]);
    counts.add(1);
    counts.remove(&1);
    assert_eq!(sorted_keys(&counts), vec![1]);
    counts.remove(&1);
    assert!(counts.is_empty());
}

#[test]
fn test_counts_remove_drops_key_at_zero() {
    let mut counts = counts_of(&[(3, 2), (8, 1)]);
    counts.remove(&8);
    assert_eq!(sorted_keys(&counts), vec![3]);
    counts.remove(&3);
    assert_eq!(sorted_keys(&counts), vec![3]);
    assert!(!counts.is_empty());
    counts.remove(&3);
    assert_eq!(sorted_keys(&counts), Vec::<u32>::new());
    assert!(counts.is_empty());
}

#[test]
fn test_counts_remove_then_add_restores() {
    let mut counts = counts_of(&[(3, 2), (8, 1)]);
    counts.remove(&8);
    counts.add(8);
    assert_eq!(sorted_keys(&counts), vec![3, 8]);
    counts.remove(&8);
    assert_eq!(sorted_keys(&counts), vec![3]);
}

#[test]
fn test_search_completes_the_head() {
    let mut head = vec![9, 9];
    let mut counts = counts_of(&[(1, 2), (0, 1)]);
    let rows = distinct_permutations_with(&mut head, &mut counts);
    assert_eq!(
        rows,
        vec![vec![9, 9, 0, 1, 1], vec![9, 9, 1, 0, 1], vec![9, 9, 1, 1, 0]]
    );
}

#[test]
fn test_search_restores_head_and_counts() {
    let mut head = vec![7];
    let mut counts = counts_of(&[(1, 2), (0, 1), (5, 3)]);
    let rows = distinct_permutations_with(&mut head, &mut counts);
    // 6! / (2! * 1! * 3!) = 60
    assert_eq!(rows.len(), 60);
    assert_eq!(head, vec![7]);
    assert_eq!(sorted_keys(&counts), vec![0, 1, 5]);
    let again = distinct_permutations_with(&mut head, &mut counts);
    assert_eq!(again, rows);
}

#[test]
fn test_search_with_nothing_left_lists_nothing() {
    let mut head = vec![1, 2, 3];
    let mut counts: Counts<u32> = Counts::from(HashMap::new());
    let rows = distinct_permutations_with(&mut head, &mut counts);
    assert_eq!(rows, Vec::<Vec<u32>>::new());
    assert_eq!(head, vec![1, 2, 3]);
    assert!(counts.is_empty());
}
