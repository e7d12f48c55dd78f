use rotated_array_set::RotatedArraySet;
use std::collections::BTreeSet;

fn elements(set: &RotatedArraySet<i32>) -> Vec<i32> {
    set.iter().collect()
}

struct Lcg(u64);

impl Lcg {
    fn next(&mut self, bound: u64) -> u64 {
        self.0 = self.0.wrapping_mul(6364136223846793005).wrapping_add(1442695040888963407);
        (self.0 >> 33) % bound
    }
}

#[test]
fn insert_twice_then_smaller_and_larger() {
    let mut set = RotatedArraySet::new();
    assert!(set.insert(2));
    assert!(!set.insert(2));
    assert!(set.insert(1));
    assert!(set.insert(3));
    assert_eq!(set.len(), 3);
    assert_eq!(elements(&set), vec![1, 2, 3]);
}

#[test]
fn remove_from_four() {
    let mut set = RotatedArraySet::new();
    for v in [2, 6, 24, 1729] {
        assert!(set.insert(v));
    }
    assert!(set.remove(&6));
    assert_eq!(elements(&set), vec![2, 24, 1729]);
    assert!(!set.remove(&6));
    assert_eq!(elements(&set), vec![2, 24, 1729]);
}

#[test]
fn new_set_is_empty() {
    let set: RotatedArraySet<i32> = RotatedArraySet::new();
    assert_eq!(set.len(), 0);
    assert!(set.is_empty());
    assert_eq!(set.select(0), None);
    assert_eq!(set.rank(&7), Err(0));
    assert_eq!(set.get(&7), None);
    assert!(!set.contains(&7));
    assert!(set.assert_invariants());
}

#[test]
fn with_capacity_is_empty() {
    let mut set = RotatedArraySet::with_capacity(10);
    assert_eq!(set.len(), 0);
    for i in 0..10 {
        assert!(set.insert(i));
    }
    assert!(set.insert(11));
    assert_eq!(set.len(), 11);
    let none: RotatedArraySet<u8> = RotatedArraySet::with_capacity(0);
    assert!(none.is_empty());
}

#[test]
fn default_is_empty() {
    let set: RotatedArraySet<u16> = RotatedArraySet::default();
    assert!(set.is_empty());
}

#[test]
fn clear_empties_the_set() {
    let mut set = RotatedArraySet::new();
    set.insert(1);
    set.insert(5);
    set.clear();
    assert!(set.is_empty());
    assert_eq!(set.len(), 0);
    assert!(set.assert_invariants());
    assert!(set.insert(5));
    assert_eq!(elements(&set), vec![5]);
}

#[test]
fn contains_and_get() {
    let set = RotatedArraySet::from_vec(vec![1, 2, 3]);
    assert!(set.contains(&1));
    assert!(!set.contains(&4));
    assert_eq!(set.get(&2), Some(&2));
    assert_eq!(set.get(&4), None);
}

#[test]
fn rank_of_present_and_absent() {
    let set = RotatedArraySet::from_vec(vec![1, 2, 3]);
    assert_eq!(set.rank(&1), Ok(0));
    assert_eq!(set.rank(&4), Err(3));
    assert_eq!(set.rank(&0), Err(0));
    let gaps = RotatedArraySet::from_vec(vec![10, 20, 30, 40, 50, 60, 70]);
    assert_eq!(gaps.rank(&35), Err(3));
    assert_eq!(gaps.rank(&40), Ok(3));
    assert_eq!(gaps.rank(&75), Err(7));
}

#[test]
fn select_by_rank() {
    let set = RotatedArraySet::from_vec(vec![1, 2, 3]);
    assert_eq!(set.select(0), Some(&1));
    assert_eq!(set.select(2), Some(&3));
    assert_eq!(set.select(3), None);
    assert_eq!(set.select(usize::MAX), None);
}

#[test]
fn take_removes_and_returns() {
    let mut set = RotatedArraySet::from_vec(vec![1, 2, 3]);
    assert_eq!(set.take(&2), Some(2));
    assert_eq!(set.take(&2), None);
    assert_eq!(elements(&set), vec![1, 3]);
}

#[test]
fn insert_into_rotated_subarrays() {
    // descending insertion moves every pivot again and again
    let mut set = RotatedArraySet::new();
    for v in (0..200).rev() {
        assert!(set.insert(v));
        assert!(set.assert_invariants());
    }
    assert_eq!(elements(&set), (0..200).collect::<Vec<_>>());
    for v in 0..200 {
        assert_eq!(set.rank(&v), Ok(v as usize));
        assert_eq!(set.select(v as usize), Some(&v));
    }
}

#[test]
fn remove_until_empty() {
    let mut set = RotatedArraySet::from_vec((0..100).collect());
    // rotate the subarrays first
    for v in [-1, -2, -3, -4, -5] {
        assert!(set.insert(v));
    }
    let mut expected: Vec<i32> = (-5..100).collect();
    let mut rng = Lcg(7);
    while !expected.is_empty() {
        let at = rng.next(expected.len() as u64) as usize;
        let v = expected.remove(at);
        assert!(set.remove(&v));
        assert!(set.assert_invariants());
        assert_eq!(elements(&set), expected);
    }
    assert!(set.is_empty());
    assert!(!set.remove(&0));
}

#[test]
fn insert_and_remove_many() {
    let mut set = RotatedArraySet::new();
    let mut model = BTreeSet::new();
    let mut rng = Lcg(12345);
    for step in 0..4000 {
        let v = rng.next(600) as i32;
        if step % 3 == 2 {
            assert_eq!(set.remove(&v), model.remove(&v));
        } else {
            assert_eq!(set.insert(v), model.insert(v));
        }
        assert_eq!(set.len(), model.len());
        if step % 97 == 0 {
            assert!(set.assert_invariants());
            assert_eq!(elements(&set), model.iter().cloned().collect::<Vec<_>>());
        }
    }
    assert_eq!(elements(&set), model.iter().cloned().collect::<Vec<_>>());
    for v in 0..600 {
        assert_eq!(set.contains(&v), model.contains(&v));
        let below = model.iter().filter(|&&e| e < v).count();
        if model.contains(&v) {
            assert_eq!(set.rank(&v), Ok(below));
            assert_eq!(set.get(&v), Some(&v));
        } else {
            assert_eq!(set.rank(&v), Err(below));
            assert_eq!(set.get(&v), None);
        }
    }
}

#[test]
fn clone_and_eq() {
    let mut a = RotatedArraySet::from_vec(vec![3, 1, 2]);
    let b = a.clone();
    assert!(a.eq(&b));
    assert_eq!(elements(&b), vec![1, 2, 3]);
    a.insert(0);
    assert!(!a.eq(&b));
    assert!(a.remove(&0));
    // the same elements in another layout
    assert!(a.eq(&b));
    let c = RotatedArraySet::from_vec(vec![1, 2, 4]);
    assert!(!b.eq(&c));
}

#[test]
fn works_with_other_element_types() {
    let mut bytes: RotatedArraySet<u8> = RotatedArraySet::new();
    for v in [200u8, 3, 255, 0, 3] {
        bytes.insert(v);
    }
    assert_eq!(bytes.iter().collect(), vec![0, 3, 200, 255]);
    let mut pairs: RotatedArraySet<(i32, char)> = RotatedArraySet::new();
    pairs.insert((2, 'a'));
    pairs.insert((1, 'z'));
    pairs.insert((1, 'b'));
    assert_eq!(pairs.iter().collect(), vec![(1, 'b'), (1, 'z'), (2, 'a')]);
}
