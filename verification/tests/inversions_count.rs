use algograph::inversions_count::inversions_count;

#[test]
fn inversions_count_test() {
    let input: Vec<usize> = vec![1, 3, 5, 2, 4, 6];
    let result = inversions_count(&input);
    assert_eq!(result, 3);
}

#[test]
fn inversions_count_2_test() {
    let input: Vec<usize> = vec![1, 3, 5, 4, 2, 6];
    let result = inversions_count(&input);
    assert_eq!(result, 4);
}

#[test]
fn inversions_count_extremes() {
    let sorted_input: Vec<usize> = vec![1, 2, 3, 4];
    assert_eq!(inversions_count(&sorted_input), 0);
    let reversed: Vec<usize> = vec![4, 3, 2, 1];
    assert_eq!(inversions_count(&reversed), 6);
    let empty: Vec<usize> = vec![];
    assert_eq!(inversions_count(&empty), 0);
}

#[test]
fn inversions_count_ties_count_as_out_of_order() {
    // a tied pair counts, as the merge step treats equal elements
    let input: Vec<usize> = vec![2, 2];
    assert_eq!(inversions_count(&input), 1);
}
