use distinct_permutations::distinct_permutations;
use itertools::Itertools;

#[test]
fn test_empty() {
    assert_eq!(distinct_permutations::<u64>(vec![]), Vec::<Vec<u64>>::new());
}

#[test]
fn test_small_unique() {
    assert_eq!(distinct_permutations(vec![0]), vec![vec![0]]);
    assert_eq!(
        distinct_permutations(vec![0, 1]),
        vec![vec![0, 1], vec![1, 0]]
    );
    assert_eq!(
        distinct_permutations(vec![0, 1, 2]),
        vec![
            vec![0, 1, 2],
            vec![0, 2, 1],
            vec![1, 0, 2],
            vec![1, 2, 0],
            vec![2, 0, 1],
            vec![2, 1, 0]
        ]
    );
}

#[test]
fn test_small_non_unique() {
    assert_eq!(
        distinct_permutations(vec![0, 0, 1, 1]),
        vec![
            vec![0, 0, 1, 1],
            vec![0, 1, 0, 1],
            vec![0, 1, 1, 0],
            vec![1, 0, 0, 1],
            vec![1, 0, 1, 0],
            vec![1, 1, 0, 0]
        ]
    );
}

#[test]
fn test_input_order_does_not_matter() {
    assert_eq!(
        distinct_permutations(vec![0, 0, 1, 1]),
        distinct_permutations(vec![0, 1, 0, 1]),
    );
}

#[test]
fn test_longer_non_unique() {
    // it's only practical to sample
    assert!(
        distinct_permutations(vec![0, 0, 0, 1, 1, 1, 1]).contains(&vec![1, 1, 0, 0, 1, 0, 1])
    );
    assert!(
        distinct_permutations(vec![0, 0, 0, 1, 1, 1, 2]).contains(&vec![0, 1, 0, 2, 1, 0, 1])
    );
}

/// Output be identical to regular permutations for unique elements
#[test]
fn test_larger_unique() {
    let mut generated_by_library = vec![0, 1, 2, 3, 4, 5]
        .into_iter()
        .permutations(6)
        .collect_vec();
    generated_by_library.sort();
    assert_eq!(
        distinct_permutations(vec![0, 1, 2, 3, 4, 5]),
        generated_by_library
    )
}

#[test]
fn test_two_zeros_and_a_one() {
    assert_eq!(
        distinct_permutations(vec![0, 0, 1]),
        vec![vec![0, 0, 1], vec![0, 1, 0], vec![1, 0, 0]]
    );
}

#[test]
fn test_all_equal_gives_one_row() {
    assert_eq!(distinct_permutations(vec![7u8, 7, 7, 7]), vec![vec![7u8, 7, 7, 7]]);
}

#[test]
fn test_row_count_is_the_multinomial() {
    // 7! / (3! * 4!) = 35
    assert_eq!(distinct_permutations(vec![0, 0, 0, 1, 1, 1, 1]).len(), 35);
    // 7! / (3! * 3! * 1!) = 140
    assert_eq!(distinct_permutations(vec![0, 0, 0, 1, 1, 1, 2]).len(), 140);
    // 5! / (2! * 2! * 1!) = 30
    assert_eq!(distinct_permutations(vec![3, 1, 3, 2, 1]).len(), 30);
    // 4! = 24
    assert_eq!(distinct_permutations(vec![4, 3, 2, 1]).len(), 24);
}

#[test]
fn test_rows_strictly_ascend() {
    let rows = distinct_permutations(vec![2, 0, 1, 0, 2, 2]);
    assert_eq!(rows.len(), 60);
    for pair in rows.windows(2) {
        assert!(pair[0] < pair[1]);
    }
    assert_eq!(rows[0], vec![0, 0, 1, 2, 2, 2]);
    assert_eq!(rows[59], vec![2, 2, 2, 1, 0, 0]);
}

#[test]
fn test_no_row_twice() {
    let rows = distinct_permutations(vec![1, 1, 2, 2, 3]);
    for i in 0..rows.len() {
        for j in (i + 1)..rows.len() {
            assert_ne!(rows[i], rows[j]);
        }
    }
}

#[test]
fn test_every_row_rearranges_the_input() {
    let input = vec![5, 3, 5, 9, 3, 5];
    let mut sorted_input = input.clone();
    sorted_input.sort();
    for row in distinct_permutations(input) {
        let mut sorted_row = row.clone();
        sorted_row.sort();
        assert_eq!(sorted_row, sorted_input);
    }
}

#[test]
fn test_rearranged_inputs_agree() {
    let expected = distinct_permutations(vec![1, 2, 2, 3]);
    assert_eq!(expected.len(), 12);
    for input in vec![1, 2, 2, 3].into_iter().permutations(4) {
        assert_eq!(distinct_permutations(input), expected);
    }
}

#[test]
fn test_matches_deduplicated_brute_force() {
    let input = vec![1, 0, 1, 2, 0];
    let mut brute = input.clone().into_iter().permutations(5).collect_vec();
    brute.sort();
    brute.dedup();
    assert_eq!(distinct_permutations(input), brute);
}

#[test]
fn test_negative_numbers_order() {
    assert_eq!(
        distinct_permutations(vec![1i64, -1]),
        vec![vec![-1i64, 1], vec![1, -1]]
    );
}

#[test]
fn test_strings_as_elements() {
    let rows = distinct_permutations(vec!["b".to_string(), "a".to_string(), "b".to_string()]);
    let expected: Vec<Vec<String>> = vec![
        vec!["a".to_string(), "b".to_string(), "b".to_string()],
        vec!["b".to_string(), "a".to_string(), "b".to_string()],
        vec!["b".to_string(), "b".to_string(), "a".to_string()],
    ];
    assert_eq!(rows, expected);
}

#[test]
fn test_pairs_as_elements() {
    assert_eq!(
        distinct_permutations(vec![(1, 'b'), (1, 'a'), (1, 'b')]),
        vec![
            vec![(1, 'a'), (1, 'b'), (1, 'b')],
            vec![(1, 'b'), (1, 'a'), (1, 'b')],
            vec![(1, 'b'), (1, 'b'), (1, 'a')],
        ]
    );
}
