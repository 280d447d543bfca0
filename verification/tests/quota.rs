use bus1::acct::quota::{
    allocator_exponential, allocator_polynomial, allocator_quasilinear, log2_ceil, quota_reserve,
    value_from_usize,
};

#[test]
fn values_of_sizes() {
    assert_eq!(value_from_usize(0), 0);
    assert_eq!(value_from_usize(71), 71);
}

#[test]
fn logarithms() {
    assert_eq!(log2_ceil(1), 0);
    assert_eq!(log2_ceil(2), 1);
    assert_eq!(log2_ceil(3), 2);
    assert_eq!(log2_ceil(4), 2);
    assert_eq!(log2_ceil(5), 3);
    assert_eq!(log2_ceil(1 << 63), 63);
    assert_eq!(log2_ceil((1 << 63) + 1), 64);
    assert_eq!(log2_ceil(u64::MAX), 64);
    assert_eq!(log2_ceil(0), 64);
}

#[test]
fn allocators() {
    assert_eq!(allocator_exponential(0), Some(2));
    assert_eq!(allocator_exponential(u64::MAX), Some(2));
    assert_eq!(allocator_polynomial(0), Some(1));
    assert_eq!(allocator_polynomial(41), Some(42));
    assert_eq!(allocator_polynomial(u64::MAX), None);
    assert_eq!(allocator_quasilinear(0), Some(1));
    assert_eq!(allocator_quasilinear(1), Some(4));
    assert_eq!(allocator_quasilinear(2), Some(9));
    assert_eq!(allocator_quasilinear(3), Some(12));
    assert_eq!(allocator_quasilinear(7), Some(32));
    assert_eq!(allocator_quasilinear(u64::MAX), None);
    assert_eq!(allocator_quasilinear(u64::MAX - 1), None);
}

#[test]
fn reserves() {
    // Half of the resources are available to a first request.
    assert_eq!(quota_reserve(allocator_exponential, 1, 0, 512), Some(1024));
    // The share of a user is treated as if it was released.
    assert_eq!(quota_reserve(allocator_exponential, 1, 256, 256), Some(768));
    assert_eq!(quota_reserve(allocator_quasilinear, 1, 0, 256), Some(1024));
    assert_eq!(quota_reserve(allocator_polynomial, 3, 10, 5), Some(50));
    // Overflows are treated as rejection.
    assert_eq!(quota_reserve(allocator_exponential, 1, 1, u64::MAX), None);
    assert_eq!(quota_reserve(allocator_exponential, 1, 0, u64::MAX), None);
    assert_eq!(quota_reserve(allocator_polynomial, u64::MAX, 0, 0), None);
}
