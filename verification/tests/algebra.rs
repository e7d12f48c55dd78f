use rotated_array_set::RotatedArraySet;
use std::collections::BTreeSet;

fn set_of(values: &[i32]) -> RotatedArraySet<i32> {
    RotatedArraySet::from_slice(values)
}

struct Lcg(u64);

impl Lcg {
    fn next(&mut self, bound: u64) -> u64 {
        self.0 = self.0.wrapping_mul(6364136223846793005).wrapping_add(1442695040888963407);
        (self.0 >> 33) % bound
    }

    fn set(&mut self, size: u64, bound: u64) -> (RotatedArraySet<i32>, BTreeSet<i32>) {
        let mut set = RotatedArraySet::new();
        let mut model = BTreeSet::new();
        for _ in 0..size {
            let v = self.next(bound) as i32;
            set.insert(v);
            model.insert(v);
        }
        (set, model)
    }
}

#[test]
fn two_small_sets() {
    let a = set_of(&[1, 2]);
    let b = set_of(&[2, 3]);
    assert_eq!(a.difference(&b).collect(), vec![1]);
    assert_eq!(a.intersection(&b).collect(), vec![2]);
    assert_eq!(a.symmetric_difference(&b).collect(), vec![1, 3]);
    assert_eq!(a.union(&b).collect(), vec![1, 2, 3]);
}

#[test]
fn algebra_with_an_empty_set() {
    let a = set_of(&[1, 2, 3]);
    let none = set_of(&[]);
    assert_eq!(a.difference(&none).collect(), vec![1, 2, 3]);
    assert_eq!(none.difference(&a).collect(), Vec::<i32>::new());
    assert_eq!(a.intersection(&none).collect(), Vec::<i32>::new());
    assert_eq!(none.intersection(&a).collect(), Vec::<i32>::new());
    assert_eq!(a.union(&none).collect(), vec![1, 2, 3]);
    assert_eq!(none.union(&a).collect(), vec![1, 2, 3]);
    assert_eq!(a.symmetric_difference(&none).collect(), vec![1, 2, 3]);
    assert_eq!(none.symmetric_difference(&a).collect(), vec![1, 2, 3]);
    assert_eq!(none.union(&none).collect(), Vec::<i32>::new());
}

#[test]
fn iterators_stay_exhausted() {
    let a = set_of(&[1, 2, 5]);
    let b = set_of(&[2, 3]);
    let mut d = a.difference(&b);
    assert_eq!(d.next(), Some(&1));
    assert_eq!(d.next(), Some(&5));
    let mut i = a.intersection(&b);
    assert_eq!(i.next(), Some(&2));
    let mut u = a.union(&b);
    assert_eq!(u.next(), Some(&1));
    assert_eq!(u.next(), Some(&2));
    assert_eq!(u.next(), Some(&3));
    assert_eq!(u.next(), Some(&5));
    let mut s = a.symmetric_difference(&b);
    assert_eq!(s.next(), Some(&1));
    assert_eq!(s.next(), Some(&3));
    assert_eq!(s.next(), Some(&5));
    for _ in 0..42 {
        assert_eq!(d.next(), None);
        assert_eq!(i.next(), None);
        assert_eq!(u.next(), None);
        assert_eq!(s.next(), None);
    }
}

#[test]
fn size_hints() {
    let a = set_of(&[1, 2, 5, 7]);
    let b = set_of(&[2, 3]);
    assert_eq!(a.difference(&b).size_hint(), (2, Some(4)));
    assert_eq!(b.difference(&a).size_hint(), (0, Some(2)));
    assert_eq!(a.intersection(&b).size_hint(), (0, Some(2)));
    assert_eq!(b.intersection(&a).size_hint(), (0, Some(2)));
    assert_eq!(a.union(&b).size_hint(), (4, Some(6)));
    assert_eq!(a.symmetric_difference(&b).size_hint(), (0, Some(6)));
    let mut d = a.difference(&b);
    d.next();
    assert_eq!(d.size_hint(), (1, Some(3)));
}

#[test]
fn algebra_agrees_with_sets() {
    let mut rng = Lcg(99);
    for round in 0..60 {
        let (a, ma) = rng.set(round * 3, 150);
        let (b, mb) = rng.set(200 - round * 3, 150);
        assert_eq!(a.difference(&b).collect(), ma.difference(&mb).cloned().collect::<Vec<_>>());
        assert_eq!(b.difference(&a).collect(), mb.difference(&ma).cloned().collect::<Vec<_>>());
        assert_eq!(
            a.intersection(&b).collect(),
            ma.intersection(&mb).cloned().collect::<Vec<_>>()
        );
        assert_eq!(
            b.intersection(&a).collect(),
            ma.intersection(&mb).cloned().collect::<Vec<_>>()
        );
        assert_eq!(a.union(&b).collect(), ma.union(&mb).cloned().collect::<Vec<_>>());
        assert_eq!(
            a.symmetric_difference(&b).collect(),
            ma.symmetric_difference(&mb).cloned().collect::<Vec<_>>()
        );
        assert_eq!(a.is_disjoint(&b), ma.is_disjoint(&mb));
        assert_eq!(a.is_subset(&b), ma.is_subset(&mb));
        assert_eq!(a.is_superset(&b), ma.is_superset(&mb));
    }
}

#[test]
fn aligned_and_touching_sets() {
    let mut rng = Lcg(5);
    let (mut a, mut ma) = rng.set(40, 256);
    let (mut b, mut mb) = rng.set(40, 256);
    for v in [0, 255] {
        a.insert(v);
        b.insert(v);
        ma.insert(v);
        mb.insert(v);
    }
    assert_eq!(a.difference(&b).collect(), ma.difference(&mb).cloned().collect::<Vec<_>>());
    assert_eq!(a.union(&b).collect(), ma.union(&mb).cloned().collect::<Vec<_>>());
    // two sets that touch in one value
    let mut low = a.clone();
    let mut high = low.split_off(&127);
    low.insert(127);
    high.insert(127);
    assert_eq!(low.intersection(&high).collect(), vec![127]);
    assert_eq!(high.intersection(&low).collect(), vec![127]);
    assert!(!low.is_disjoint(&high));
    let union = low.union(&high).collect();
    ma.insert(127);
    assert_eq!(union, ma.iter().cloned().collect::<Vec<_>>());
    // two sets that do not touch
    assert!(low.remove(&127));
    assert!(low.is_disjoint(&high));
    assert_eq!(low.intersection(&high).collect(), Vec::<i32>::new());
    assert_eq!(low.symmetric_difference(&high).collect(), union);
}

#[test]
fn disjoint_subset_superset() {
    let a = set_of(&[1, 2, 3]);
    let mut b = RotatedArraySet::new();
    assert!(a.is_disjoint(&b));
    assert!(b.is_subset(&a));
    assert!(a.is_superset(&b));
    b.insert(4);
    assert!(a.is_disjoint(&b));
    assert!(!b.is_subset(&a));
    b.insert(1);
    assert!(!a.is_disjoint(&b));
    let sup = set_of(&[1, 2, 3]);
    let mut set = RotatedArraySet::new();
    assert!(set.is_subset(&sup));
    set.insert(2);
    assert!(set.is_subset(&sup));
    assert!(!set.is_superset(&sup));
    set.insert(4);
    assert!(!set.is_subset(&sup));
    set.insert(1);
    set.insert(3);
    assert!(set.is_superset(&sup));
    assert!(sup.is_subset(&sup));
    // as many elements, but not the same
    assert!(!set_of(&[1, 2, 3]).is_subset(&set_of(&[1, 2, 4])));
    // more elements cannot be a subset
    assert!(!set_of(&[1, 2, 3, 4]).is_subset(&set_of(&[1, 2, 3])));
}

#[test]
fn append_moves_all_elements() {
    let mut a = set_of(&[1, 2, 3]);
    let mut b = set_of(&[3, 4, 5]);
    a.append(&mut b);
    assert_eq!(a.len(), 5);
    assert_eq!(b.len(), 0);
    assert_eq!(a.into_vec(), vec![1, 2, 3, 4, 5]);
    assert!(b.assert_invariants());
    let mut c = set_of(&[]);
    let mut d = set_of(&[9, 7]);
    c.append(&mut d);
    assert_eq!(c.into_vec(), vec![7, 9]);
    assert!(d.is_empty());
}

#[test]
fn split_off_at_three() {
    let mut a = set_of(&[1, 2, 3, 17, 41]);
    let b = a.split_off(&3);
    assert_eq!(a.len(), 2);
    assert_eq!(b.len(), 3);
    assert!(a.assert_invariants());
    assert!(b.assert_invariants());
    assert_eq!(a.into_vec(), vec![1, 2]);
    assert_eq!(b.into_vec(), vec![3, 17, 41]);
}

#[test]
fn split_off_at_the_ends() {
    let mut a = set_of(&[1, 2, 3]);
    let all = a.split_off(&0);
    assert!(a.is_empty());
    assert_eq!(all.into_vec(), vec![1, 2, 3]);
    let mut a = set_of(&[1, 2, 3]);
    let none = a.split_off(&4);
    assert!(none.is_empty());
    assert_eq!(a.into_vec(), vec![1, 2, 3]);
    let mut a = set_of(&[1, 2, 3]);
    let last = a.split_off(&3);
    assert_eq!(last.into_vec(), vec![3]);
    assert_eq!(a.into_vec(), vec![1, 2]);
    // at a value that is no element
    let mut a = set_of(&[10, 20, 30, 40]);
    let tail = a.split_off(&25);
    assert_eq!(a.into_vec(), vec![10, 20]);
    assert_eq!(tail.into_vec(), vec![30, 40]);
}

#[test]
fn split_off_rotated_subarrays() {
    for at in 0..=60 {
        let mut a = RotatedArraySet::new();
        for v in (0..60).rev() {
            a.insert(v);
        }
        let b = a.split_off(&at);
        assert!(a.assert_invariants());
        assert!(b.assert_invariants());
        assert_eq!(a.into_vec(), (0..at).collect::<Vec<_>>());
        assert_eq!(b.into_vec(), (at..60).collect::<Vec<_>>());
    }
}
