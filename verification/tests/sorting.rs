use stable_order::compact;
use stable_order::engine::minimum_run_length;
use stable_order::sort;

#[test]
fn minimum_run_length_below_threshold_is_identity() {
    assert_eq!(minimum_run_length(0), 0);
    assert_eq!(minimum_run_length(1), 1);
    assert_eq!(minimum_run_length(5), 5);
    assert_eq!(minimum_run_length(31), 31);
}

#[test]
fn minimum_run_length_halving_range() {
    assert_eq!(minimum_run_length(32), 16);
    assert_eq!(minimum_run_length(33), 17);
    assert_eq!(minimum_run_length(63), 32);
}

#[test]
fn minimum_run_length_repeated_halving() {
    assert_eq!(minimum_run_length(64), 16);
    assert_eq!(minimum_run_length(65), 17);
    assert_eq!(minimum_run_length(100), 25);
    assert_eq!(minimum_run_length(1000), 32);
}

#[test]
fn sort_empty_is_empty() {
    let mut v: Vec<i32> = Vec::new();
    sort(&mut v);
    assert_eq!(v, Vec::<i32>::new());
}

#[test]
fn sort_singleton_is_unchanged() {
    let mut v = vec![7];
    sort(&mut v);
    assert_eq!(v, vec![7]);
}

#[test]
fn sort_small_sequence() {
    let mut v = vec![9, 10, 4, 5, 1, 3];
    sort(&mut v);
    assert_eq!(v, vec![1, 3, 4, 5, 9, 10]);
}

#[test]
fn sort_with_duplicates() {
    let mut v = vec![3, 1, 3, 2, 1];
    sort(&mut v);
    assert_eq!(v, vec![1, 1, 2, 3, 3]);
}

#[test]
fn sort_already_sorted_is_noop() {
    let mut v: Vec<i32> = (0..50).collect();
    let expected = v.clone();
    sort(&mut v);
    assert_eq!(v, expected);
}

#[test]
fn sort_long_descending_exercises_merging() {
    let mut v: Vec<i32> = (0..200).rev().collect();
    sort(&mut v);
    let expected: Vec<i32> = (0..200).collect();
    assert_eq!(v, expected);
}

#[test]
fn sort_keeps_length_and_elements() {
    let mut v = vec![5, -3, 5, 0, 12, -3, 7];
    let mut expected = v.clone();
    expected.sort();
    sort(&mut v);
    assert_eq!(v, expected);
}

#[test]
fn compact_removes_zeros() {
    assert_eq!(compact(vec![0, 1, 0, 2, 3, 0]), vec![1, 2, 3]);
}

#[test]
fn compact_of_empty_is_empty() {
    assert_eq!(compact(Vec::new()), Vec::<i32>::new());
}

#[test]
fn compact_of_all_zeros_is_empty() {
    assert_eq!(compact(vec![0, 0, 0]), Vec::<i32>::new());
}

#[test]
fn compact_without_zeros_is_unchanged() {
    assert_eq!(compact(vec![4, -1, 2]), vec![4, -1, 2]);
}
