use algograph::sorted_n::first;
use algograph::sorted_n::sort_n;
use algograph::sorted_n::sort_n_by;

#[test]
fn sort_n_finds_order_statistics() {
    let mut v: Vec<usize> = vec![3, 2, 1, 4, 5];
    let r = sort_n(&mut v, 3, &first);
    assert!(r == 4);
    let r2 = sort_n(&mut v, 0, &first);
    assert!(r2 == 1);
}

#[test]
fn sort_n_by_selects_with_a_custom_comparator() {
    let mut v: Vec<usize> = vec![7, 7, 2, 9, 4];
    let lt = |a: &usize, b: &usize| *a < *b;
    assert_eq!(sort_n_by(&mut v, 4, &lt, &first), 9);
    assert_eq!(sort_n_by(&mut v, 2, &lt, &first), 7);
    assert_eq!(sort_n_by(&mut v, 1, &lt, &first), 4);
}
