use rotated_array_set::RotatedArraySet;

type Bytes = RotatedArraySet<u8>;

#[test]
fn integer_sum_values() {
    assert_eq!(Bytes::integer_sum(0), 0);
    assert_eq!(Bytes::integer_sum(1), 1);
    assert_eq!(Bytes::integer_sum(2), 3);
    assert_eq!(Bytes::integer_sum(3), 6);
    assert_eq!(Bytes::integer_sum(4), 10);
    assert_eq!(Bytes::integer_sum(100), 5050);
    assert_eq!(Bytes::integer_sum(65535), 2147450880);
}

#[test]
fn integer_sum_inverse_values() {
    assert_eq!(Bytes::integer_sum_inverse(0), 0);
    assert_eq!(Bytes::integer_sum_inverse(1), 1);
    assert_eq!(Bytes::integer_sum_inverse(2), 1);
    assert_eq!(Bytes::integer_sum_inverse(3), 2);
    assert_eq!(Bytes::integer_sum_inverse(5), 2);
    assert_eq!(Bytes::integer_sum_inverse(6), 3);
    assert_eq!(Bytes::integer_sum_inverse(9), 3);
    assert_eq!(Bytes::integer_sum_inverse(10), 4);
    assert_eq!(Bytes::integer_sum_inverse(5049), 99);
    assert_eq!(Bytes::integer_sum_inverse(5050), 100);
}

#[test]
fn subarray_and_array_indices() {
    assert_eq!(Bytes::get_subarray_idx_from_array_idx(0), 0);
    assert_eq!(Bytes::get_subarray_idx_from_array_idx(1), 1);
    assert_eq!(Bytes::get_subarray_idx_from_array_idx(2), 1);
    assert_eq!(Bytes::get_subarray_idx_from_array_idx(3), 2);
    assert_eq!(Bytes::get_array_idx_from_subarray_idx(0), 0);
    assert_eq!(Bytes::get_array_idx_from_subarray_idx(1), 1);
    assert_eq!(Bytes::get_array_idx_from_subarray_idx(2), 3);
    assert_eq!(Bytes::get_array_idx_from_subarray_idx(7), 28);
}

#[test]
fn take_sum_and_inverse() {
    for n in (0..3_000_000usize).step_by(997) {
        let sum = Bytes::integer_sum(n);
        assert_eq!(Bytes::integer_sum_inverse(sum), n);
    }
}

#[test]
fn take_inverse_and_sum() {
    let mut n: usize = 0;
    while n < usize::MAX / 2 {
        let inv = Bytes::integer_sum_inverse(n);
        assert!(Bytes::integer_sum(inv) <= n);
        assert!(n < Bytes::integer_sum(inv + 1));
        n = n * 3 + 1;
    }
}

#[test]
fn take_inverse_and_sum_on_inverse_boundary() {
    for n in (1..2_000_000usize).step_by(4099) {
        let sum = Bytes::integer_sum(n);
        for at in [sum - 1, sum, sum + 1] {
            let inv = Bytes::integer_sum_inverse(at);
            assert!(Bytes::integer_sum(inv) <= at);
            assert!(at < Bytes::integer_sum(inv + 1));
        }
    }
}

#[test]
fn inverse_of_the_largest_offset() {
    let inv = Bytes::integer_sum_inverse(usize::MAX);
    assert!(Bytes::integer_sum(inv) <= usize::MAX);
    assert!((inv as u128 + 1) * (inv as u128 + 2) / 2 > usize::MAX as u128);
}
