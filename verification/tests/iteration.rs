use rotated_array_set::{Bound, RotatedArraySet};

fn rotated(n: i32) -> RotatedArraySet<i32> {
    // inserted in descending order, so that the subarrays are rotated
    let mut set = RotatedArraySet::new();
    for v in (0..n).rev() {
        set.insert(v);
    }
    set
}

#[test]
fn iterate_empty_set() {
    let set: RotatedArraySet<usize> = RotatedArraySet::new();
    let mut it = set.iter();
    assert_eq!(it.next(), None);
    assert_eq!(it.next_back(), None);
    assert_eq!(it.len(), 0);
    assert_eq!(it.min(), None);
    assert_eq!(it.max(), None);
    assert_eq!(it.last(), None);
    assert_eq!(it.count(), 0);
}

#[test]
fn iterate_forward() {
    let set = RotatedArraySet::from_vec(vec![3usize, 1, 2]);
    let mut it = set.iter();
    assert_eq!(it.next(), Some(&1));
    assert_eq!(it.next(), Some(&2));
    assert_eq!(it.next(), Some(&3));
    assert_eq!(it.next(), None);
    assert_eq!(it.next(), None);
}

#[test]
fn iterate_backward() {
    let set = rotated(50);
    let mut it = set.iter();
    let mut expected = 49;
    while let Some(&v) = it.next_back() {
        assert_eq!(v, expected);
        expected -= 1;
    }
    assert_eq!(expected, -1);
    for _ in 0..5 {
        assert_eq!(it.next_back(), None);
        assert_eq!(it.next(), None);
    }
}

#[test]
fn cursors_meet_in_the_middle() {
    let set = rotated(7);
    let mut it = set.iter();
    assert_eq!(it.next(), Some(&0));
    assert_eq!(it.next_back(), Some(&6));
    assert_eq!(it.next(), Some(&1));
    assert_eq!(it.next_back(), Some(&5));
    assert_eq!(it.next(), Some(&2));
    assert_eq!(it.next_back(), Some(&4));
    assert_eq!(it.len(), 1);
    assert_eq!(it.next_back(), Some(&3));
    assert_eq!(it.len(), 0);
    assert_eq!(it.next(), None);
    assert_eq!(it.next_back(), None);
    assert!(it.assert_invariants());
}

#[test]
fn single_element_from_the_back() {
    let set = RotatedArraySet::from_vec(vec![9]);
    let mut it = set.iter();
    assert_eq!(it.next_back(), Some(&9));
    assert_eq!(it.next(), None);
    assert_eq!(it.next_back(), None);
    assert!(it.assert_invariants());
}

#[test]
fn nth_is_select() {
    let set = rotated(100);
    for i in 0..100 {
        let mut it = set.iter();
        assert_eq!(it.nth(i), set.select(i));
        assert_eq!(it.next(), set.select(i + 1));
    }
    let mut it = set.iter();
    assert_eq!(it.nth(100), None);
    assert_eq!(it.next(), None);
    assert_eq!(it.next_back(), None);
    let mut it = set.iter();
    assert_eq!(it.nth(usize::MAX), None);
    assert_eq!(it.len(), 0);
}

#[test]
fn nth_back_counts_from_the_end() {
    let set = rotated(100);
    for i in 0..100 {
        let mut it = set.iter();
        assert_eq!(it.nth_back(i), set.select(99 - i));
        if i < 99 {
            assert_eq!(it.next_back(), set.select(98 - i));
        } else {
            assert_eq!(it.next_back(), None);
        }
    }
    let mut it = set.iter();
    assert_eq!(it.nth_back(100), None);
    assert_eq!(it.next(), None);
    assert_eq!(it.next_back(), None);
}

#[test]
fn nth_after_steps_from_both_ends() {
    let set = rotated(10);
    let mut it = set.iter();
    assert_eq!(it.next(), Some(&0));
    assert_eq!(it.next_back(), Some(&9));
    assert_eq!(it.next_back(), Some(&8));
    // 1..=7 are left
    assert_eq!(it.len(), 7);
    assert_eq!(it.nth(2), Some(&3));
    assert_eq!(it.nth_back(1), Some(&6));
    assert_eq!(it.collect(), vec![4, 5]);
}

#[test]
fn overrides_on_a_fresh_iterator() {
    for n in [1, 2, 3, 10, 55, 56] {
        let set = rotated(n);
        let len = n as usize;
        let it = set.iter();
        assert_eq!(it.min(), set.select(0));
        assert_eq!(it.max(), set.select(len - 1));
        assert_eq!(it.last(), set.select(len - 1));
        assert_eq!(it.count(), len);
        assert_eq!(it.len(), len);
        assert_eq!(it.size_hint(), (len, Some(len)));
        assert_eq!(it.peek(), set.select(0));
    }
}

#[test]
fn size_hint_follows_the_steps() {
    let set = rotated(5);
    let mut it = set.iter();
    it.next();
    assert_eq!(it.size_hint(), (4, Some(4)));
    it.next_back();
    assert_eq!(it.size_hint(), (3, Some(3)));
    assert_eq!(it.count(), 3);
    assert_eq!(it.min(), Some(&1));
    assert_eq!(it.max(), Some(&3));
    assert_eq!(it.last(), Some(&3));
}

#[test]
fn compare_iter_with_select() {
    let set = rotated(300);
    let mut it = set.iter();
    let mut i = 0;
    while let Some(v) = it.next() {
        assert_eq!(set.select(i), Some(v));
        i += 1;
    }
    assert_eq!(i, 300);
}

#[test]
fn compare_into_iter_with_select() {
    let set = rotated(300);
    let mut it = set.clone().into_iter();
    for i in 0..set.len() {
        assert_eq!(*set.select(i).unwrap(), it.next().unwrap());
    }
    assert_eq!(it.next(), None);
    assert_eq!(it.next(), None);
}

#[test]
fn forward_is_ascending_and_backward_descending() {
    let set = rotated(120);
    let forward = set.iter().collect();
    assert!(forward.windows(2).all(|w| w[0] < w[1]));
    let mut it = set.iter();
    let mut backward = Vec::new();
    while let Some(&v) = it.next_back() {
        backward.push(v);
    }
    assert!(backward.windows(2).all(|w| w[0] > w[1]));
    assert_eq!(backward.len(), 120);
}

#[test]
fn range_between_bounds() {
    let set = RotatedArraySet::from_vec((1..10).collect());
    let it = set.range(Bound::Included(&4), Bound::Excluded(&8));
    assert_eq!(it.collect(), vec![4, 5, 6, 7]);
    let it = set.range(Bound::Excluded(&4), Bound::Included(&8));
    assert_eq!(it.collect(), vec![5, 6, 7, 8]);
    let it = set.range(Bound::Included(&4), Bound::Included(&4));
    assert_eq!(it.collect(), vec![4]);
    let it = set.range(Bound::Excluded(&4), Bound::Excluded(&5));
    assert_eq!(it.collect(), Vec::<i32>::new());
    let it = set.range(Bound::Unbounded, Bound::Excluded(&3));
    assert_eq!(it.collect(), vec![1, 2]);
    let it = set.range(Bound::Included(&8), Bound::Unbounded);
    assert_eq!(it.collect(), vec![8, 9]);
    let it = set.range(Bound::Unbounded, Bound::Unbounded);
    assert_eq!(it.collect(), (1..10).collect::<Vec<_>>());
}

#[test]
fn range_with_bounds_that_are_no_elements() {
    let mut set = RotatedArraySet::new();
    for v in [3, 5, 8] {
        set.insert(v);
    }
    let mut it = set.range(Bound::Included(&4), Bound::Included(&8));
    assert_eq!(it.next(), Some(&5));
    assert_eq!(it.next(), Some(&8));
    assert_eq!(it.next(), None);
    let mut it = set.range(Bound::Included(&4), Bound::Unbounded);
    assert_eq!(it.next(), Some(&5));
    let it = set.range(Bound::Included(&9), Bound::Included(&20));
    assert_eq!(it.len(), 0);
    let it = set.range(Bound::Included(&0), Bound::Excluded(&3));
    assert_eq!(it.len(), 0);
}

#[test]
fn range_over_rotated_subarrays() {
    let set = rotated(200);
    for lo in (0..200).step_by(13) {
        for hi in (lo..200).step_by(17) {
            let got = set.range(Bound::Included(&lo), Bound::Excluded(&hi)).collect();
            assert_eq!(got, (lo..hi).collect::<Vec<_>>());
            let mut it = set.range(Bound::Excluded(&lo), Bound::Included(&hi));
            if lo < hi {
                assert_eq!(it.next_back(), Some(&hi));
                let after = lo + 1;
                assert_eq!(it.next(), if after < hi { Some(&after) } else { None });
            } else {
                assert_eq!(it.next_back(), None);
            }
        }
    }
}
