use algograph::unimodal_max::unimodal_max;

#[test]
fn unimodal_max_test() {
    let arr: Vec<i64> = vec![1, 2, 4, 7, 6, 5, 3];
    let result = unimodal_max(&arr);
    assert_eq!(result, 7);
}

#[test]
fn unimodal_max_increase_test() {
    let arr: Vec<i64> = vec![1, 2, 3, 4, 5, 6, 7, 9, 8];
    let result = unimodal_max(&arr);
    assert_eq!(result, 9);
}

#[test]
fn unimodal_max_last_test() {
    let arr: Vec<i64> = vec![1, 2, 3, 4, 5, 6, 7, 12];
    let result = unimodal_max(&arr);
    assert_eq!(result, 12);
}

#[test]
fn unimodal_max_first_test() {
    let arr: Vec<i64> = vec![1];
    let result = unimodal_max(&arr);
    assert_eq!(result, 1);
}

#[test]
fn unimodal_max_peak_at_front() {
    let arr: Vec<i64> = vec![9, 5, 2, 0];
    assert_eq!(unimodal_max(&arr), 9);
}
