use rotated_array_set::bulk::dedup_sorted;
use rotated_array_set::order::{cmp_opt, compare, Rel};
use rotated_array_set::sorted::binary_search;
use rotated_array_set::validate::is_strictly_ascending;
use rotated_array_set::vec_util::{copy_within, reverse, rotate_left};
use std::cmp::Ordering;

#[test]
fn strictly_ascending_vectors() {
    assert!(is_strictly_ascending(&Vec::<i32>::new()));
    assert!(is_strictly_ascending(&vec![7]));
    assert!(is_strictly_ascending(&vec![1, 2, 3, 10]));
    assert!(!is_strictly_ascending(&vec![1, 3, 2]));
    assert!(!is_strictly_ascending(&vec![1, 2, 2, 3]));
    assert!(!is_strictly_ascending(&vec![2, 1]));
    assert!(!is_strictly_ascending(&vec![0, 1, 2, -1]));
}

#[test]
fn dedup_of_sorted_vectors() {
    let mut v = vec![1, 1, 2, 3, 3, 3, 4];
    dedup_sorted(&mut v);
    assert_eq!(v, vec![1, 2, 3, 4]);
    let mut v: Vec<i32> = vec![];
    dedup_sorted(&mut v);
    assert!(v.is_empty());
    let mut v = vec![5, 5, 5];
    dedup_sorted(&mut v);
    assert_eq!(v, vec![5]);
    let mut v = vec![1, 2, 3];
    dedup_sorted(&mut v);
    assert_eq!(v, vec![1, 2, 3]);
}

#[test]
fn compare_three_ways() {
    assert!(matches!(compare(&1, &2), Rel::Below));
    assert!(matches!(compare(&2, &2), Rel::Same));
    assert!(matches!(compare(&3, &2), Rel::Above));
}

#[test]
fn compare_values_that_may_be_missing() {
    let one = 1;
    let two = 2;
    assert_eq!(cmp_opt(Some(&one), Some(&two), Ordering::Greater, Ordering::Less), Ordering::Less);
    assert_eq!(cmp_opt(Some(&two), Some(&two), Ordering::Greater, Ordering::Less), Ordering::Equal);
    assert_eq!(cmp_opt(Some(&two), Some(&one), Ordering::Less, Ordering::Less), Ordering::Greater);
    assert_eq!(cmp_opt(None, Some(&one), Ordering::Greater, Ordering::Less), Ordering::Greater);
    assert_eq!(cmp_opt(Some(&one), None, Ordering::Greater, Ordering::Less), Ordering::Less);
    assert_eq!(cmp_opt::<i32>(None, None, Ordering::Greater, Ordering::Less), Ordering::Greater);
}

#[test]
fn binary_search_in_a_run() {
    let v = vec![50, 60, 1, 3, 5, 7, 9, 0, 0];
    assert_eq!(binary_search(&v, 2, 7, &5), Ok(4));
    assert_eq!(binary_search(&v, 2, 7, &1), Ok(2));
    assert_eq!(binary_search(&v, 2, 7, &9), Ok(6));
    assert_eq!(binary_search(&v, 2, 7, &0), Err(2));
    assert_eq!(binary_search(&v, 2, 7, &4), Err(4));
    assert_eq!(binary_search(&v, 2, 7, &10), Err(7));
    assert_eq!(binary_search(&v, 2, 2, &10), Err(2));
    assert_eq!(binary_search(&v, 0, 2, &55), Err(1));
}

#[test]
fn copy_within_to_both_sides() {
    let mut v = vec![0, 1, 2, 3, 4, 5, 6];
    copy_within(&mut v, 2, 5, 3);
    assert_eq!(v, vec![0, 1, 2, 2, 3, 4, 6]);
    let mut v = vec![0, 1, 2, 3, 4, 5, 6];
    copy_within(&mut v, 2, 5, 1);
    assert_eq!(v, vec![0, 2, 3, 4, 4, 5, 6]);
    let mut v = vec![0, 1, 2];
    copy_within(&mut v, 1, 1, 3);
    assert_eq!(v, vec![0, 1, 2]);
    let mut expected = vec![0, 1, 2, 3, 4, 5, 6];
    expected.copy_within(0..4, 3);
    let mut v = vec![0, 1, 2, 3, 4, 5, 6];
    copy_within(&mut v, 0, 4, 3);
    assert_eq!(v, expected);
}

#[test]
fn reverse_a_run() {
    let mut v = vec![0, 1, 2, 3, 4, 5];
    reverse(&mut v, 1, 5);
    assert_eq!(v, vec![0, 4, 3, 2, 1, 5]);
    reverse(&mut v, 2, 2);
    assert_eq!(v, vec![0, 4, 3, 2, 1, 5]);
    reverse(&mut v, 0, 6);
    assert_eq!(v, vec![5, 1, 2, 3, 4, 0]);
}

#[test]
fn rotate_a_run() {
    for len in 0..8usize {
        for mid in 0..=len {
            let mut v: Vec<usize> = (0..len + 4).collect();
            let mut expected = v.clone();
            expected[2..2 + len].rotate_left(mid);
            rotate_left(&mut v, 2, 2 + len, mid);
            assert_eq!(v, expected);
        }
    }
}
