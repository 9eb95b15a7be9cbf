use rustycsv::base::simd_index::MAX_INPUT_SIZE;
use rustycsv::exceeds_batch_limit;

#[test]
fn exceeds_batch_limit_at_boundary() {
    assert!(!exceeds_batch_limit(u32::MAX as usize));
    assert!(exceeds_batch_limit(u32::MAX as usize + 1));
}

#[test]
fn exceeds_batch_limit_zero_and_small() {
    assert!(!exceeds_batch_limit(0));
    assert!(!exceeds_batch_limit(1));
    assert!(!exceeds_batch_limit(1024 * 1024));
}

#[test]
fn max_batch_input_size_equals_u32_max() {
    assert_eq!(MAX_INPUT_SIZE, u32::MAX as usize);
}
