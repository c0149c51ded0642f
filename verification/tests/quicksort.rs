use algograph::quicksort::first;
use algograph::quicksort::last;
use algograph::quicksort::median;
use algograph::quicksort::quicksort;
use algograph::quicksort::quicksort_by;

#[test]
fn quicksort_sorts_small_array() {
    let mut v: Vec<i64> = vec![3, 2, 1, 4, 5];
    quicksort(&mut v, &first);
    assert_eq!(v, vec![1, 2, 3, 4, 5]);
}

#[test]
fn it_works_example() {
    let mut v: Vec<i64> = vec![3, 8, 2, 5, 1, 4, 7, 6];
    quicksort(&mut v, &first);
    assert_eq!(v, vec![1, 2, 3, 4, 5, 6, 7, 8]);
}

#[test]
fn it_works_duble() {
    let mut v: Vec<i64> = vec![3, 7, 1, 3, 5];
    quicksort(&mut v, &first);
    assert_eq!(v, vec![1, 3, 3, 5, 7]);
}

#[test]
fn it_works_1() {
    let mut v: Vec<i64> = vec![78, 27, 76, 61, 45, 86, 75, 38, 72, 59, 54, 71, 38, 4, 52];
    let mut v2 = v.clone();
    quicksort(&mut v, &first);
    v2.sort();
    assert_eq!(v, v2);
}

#[test]
fn it_works_2() {
    let mut v: Vec<i64> = vec![
        42, 80, 92, 19, 26, 23, 42, 62, 32, 23, 95, 1, 1, 88, 17, 37, 3, 24, 95, 53,
    ];
    let mut v2 = v.clone();
    quicksort(&mut v, &first);
    v2.sort();
    assert_eq!(v, v2);
}

#[test]
fn quicksort_with_median_and_last_pivots() {
    let mut v1: Vec<i64> = vec![9, 1, 8, 2, 7, 3, 6, 4, 5];
    let mut v2 = v1.clone();
    quicksort(&mut v1, &median);
    quicksort(&mut v2, &last);
    let expected: Vec<i64> = vec![1, 2, 3, 4, 5, 6, 7, 8, 9];
    assert_eq!(v1, expected);
    assert_eq!(v2, expected);
}

#[test]
fn quicksort_by_counts_at_most_quadratic_comparisons() {
    let mut v: Vec<i64> = vec![5, 4, 3, 2, 1];
    let lt = |a: &i64, b: &i64| *a < *b;
    let count = quicksort_by(&mut v, &lt, &first);
    assert_eq!(v, vec![1, 2, 3, 4, 5]);
    assert!(count <= 25);
}

#[test]
fn median_picks_the_middle_of_three_probes() {
    let v: Vec<i64> = vec![2, 9, 5];
    // first 2, middle 9, last 5: the median value 5 sits at the end
    assert_eq!(median(&v, 0, 3), 2);
    let w: Vec<i64> = vec![9, 2, 5];
    // first 9, middle 2, last 5: the median value 5 sits at the end
    assert_eq!(median(&w, 0, 3), 2);
    let u: Vec<i64> = vec![5, 9, 2];
    // first 5, middle 9, last 2: the median value 5 sits at the front
    assert_eq!(median(&u, 0, 3), 0);
}

#[test]
fn first_and_last_pick_range_bounds() {
    let v: Vec<i64> = vec![10, 20, 30];
    assert_eq!(first(&v, 1, 3), 1);
    assert_eq!(last(&v, 0, 3), 2);
}
