use rotated_array_set::RotatedArraySet;
use std::collections::BTreeSet;

fn rotated(n: i32) -> RotatedArraySet<i32> {
    let mut set = RotatedArraySet::new();
    for v in (0..n).rev() {
        set.insert(v);
    }
    set
}

#[test]
fn truncate_to_two() {
    let mut set = RotatedArraySet::from_vec(vec![1, 2, 3, 4, 5]);
    set.truncate(2);
    assert!(set.eq(&RotatedArraySet::from_vec(vec![1, 2])));
    assert_eq!(set.len(), 2);
}

#[test]
fn truncate_above_the_length() {
    let mut set = RotatedArraySet::from_vec(vec![1, 2, 3]);
    set.truncate(8);
    assert_eq!(set.into_vec(), vec![1, 2, 3]);
    let mut set = RotatedArraySet::from_vec(vec![1, 2, 3]);
    set.truncate(3);
    assert_eq!(set.into_vec(), vec![1, 2, 3]);
}

#[test]
fn truncate_to_zero() {
    let mut set = RotatedArraySet::from_vec(vec![1, 2, 3]);
    set.truncate(0);
    assert!(set.is_empty());
    assert!(set.eq(&RotatedArraySet::from_vec(vec![])));
}

#[test]
fn truncate_rotated_subarrays() {
    for len in 0..=80 {
        let mut set = rotated(70);
        set.truncate(len);
        assert!(set.assert_invariants());
        let kept = len.min(70) as i32;
        assert_eq!(set.iter().collect(), (0..kept).collect::<Vec<_>>());
        // the set still takes and gives elements
        assert!(set.insert(1000));
        assert!(set.insert(-1));
        assert!(set.remove(&1000));
        assert!(set.assert_invariants());
    }
}

#[test]
fn from_unsorted_vec() {
    let set = RotatedArraySet::from_vec(vec![5, 3, 9, 1, 7]);
    assert!(set.assert_invariants());
    assert_eq!(set.into_vec(), vec![1, 3, 5, 7, 9]);
}

#[test]
fn from_vec_with_repeated_values() {
    let set = RotatedArraySet::from_vec(vec![2, 1, 2, 2, 3, 1]);
    assert!(set.assert_invariants());
    assert_eq!(set.len(), 3);
    assert_eq!(set.into_vec(), vec![1, 2, 3]);
}

#[test]
fn from_slice_and_empty() {
    let set = RotatedArraySet::from_slice(&[4, 2, 6]);
    assert_eq!(set.into_vec(), vec![2, 4, 6]);
    let none: RotatedArraySet<i32> = RotatedArraySet::from_slice(&[]);
    assert!(none.is_empty());
    assert!(none.assert_invariants());
    assert_eq!(none.into_vec(), Vec::<i32>::new());
}

#[test]
fn from_vec_of_256() {
    let values: Vec<usize> = (0..256).collect();
    let set = RotatedArraySet::from_vec(values);
    assert_eq!(set.rank(&128), Ok(128));
    assert_eq!(set.select(128), Some(&128));
    assert!(set.assert_invariants());
}

#[test]
fn into_vec_of_rotated_subarrays() {
    for n in [0, 1, 2, 3, 4, 10, 54, 55, 56, 57, 300] {
        let set = rotated(n);
        assert_eq!(set.into_vec(), (0..n).collect::<Vec<_>>());
    }
}

#[test]
fn round_trip() {
    let mut set = rotated(90);
    for v in [13, 55, 2, 77] {
        assert!(set.remove(&v));
    }
    let copy = set.clone();
    let rebuilt = RotatedArraySet::from_vec(set.into_vec());
    assert!(rebuilt.eq(&copy));
    assert!(rebuilt.assert_invariants());
}

#[test]
fn insert_then_remove_restores() {
    let mut model = BTreeSet::new();
    let mut set = RotatedArraySet::new();
    for v in (0..150).rev().step_by(3) {
        set.insert(v);
        model.insert(v);
    }
    let before = set.iter().collect();
    for v in 0..150 {
        if !model.contains(&v) {
            assert!(set.insert(v));
            assert!(set.remove(&v));
            assert_eq!(set.iter().collect(), before);
        }
    }
}

#[test]
fn insert_present_and_remove_absent_change_nothing() {
    let mut set = rotated(40);
    let before = set.clone();
    for v in 0..40 {
        assert!(!set.insert(v));
        assert!(set.eq(&before));
        assert_eq!(set.len(), 40);
    }
    for v in 40..80 {
        assert!(!set.remove(&v));
        assert_eq!(set.take(&v), None);
        assert!(set.eq(&before));
    }
}

#[test]
fn rank_and_select_are_inverse() {
    let mut set = RotatedArraySet::new();
    for v in (0..500).rev().step_by(7) {
        set.insert(v);
    }
    for i in 0..set.len() {
        let v = *set.select(i).unwrap();
        assert_eq!(set.rank(&v), Ok(i));
    }
    for v in 0..500 {
        if let Ok(i) = set.rank(&v) {
            assert_eq!(set.select(i), Some(&v));
        }
    }
}

#[test]
fn invariants_hold_after_each_step() {
    let mut set = RotatedArraySet::new();
    let mut x: u64 = 1;
    for _ in 0..1500 {
        x = x.wrapping_mul(6364136223846793005).wrapping_add(1442695040888963407);
        let v = ((x >> 40) % 97) as u8;
        if (x >> 20) % 2 == 0 {
            set.insert(v);
        } else {
            set.remove(&v);
        }
        assert!(set.assert_invariants());
    }
}
