use jolt_core::math::{count_trailing_ones, div_ceil, log_2, next_power_of_two, pow2_usize};

#[test]
fn ceiling_logarithm() {
    assert_eq!(log_2(1), 0);
    assert_eq!(log_2(2), 1);
    assert_eq!(log_2(3), 2);
    assert_eq!(log_2(4), 2);
    assert_eq!(log_2(5), 3);
    assert_eq!(log_2(1 << 40), 40);
    assert_eq!(log_2((1 << 40) + 1), 41);
}

#[test]
fn powers_of_two_and_rounding() {
    assert_eq!(pow2_usize(0), 1);
    assert_eq!(pow2_usize(10), 1024);
    assert_eq!(next_power_of_two(0), 1);
    assert_eq!(next_power_of_two(1), 1);
    assert_eq!(next_power_of_two(5), 8);
    assert_eq!(next_power_of_two(8), 8);
    assert_eq!(div_ceil(7, 2), 4);
    assert_eq!(div_ceil(8, 2), 4);
    assert_eq!(div_ceil(0, 3), 0);
}

#[test]
fn trailing_ones_counts_low_set_bits() {
    assert_eq!(count_trailing_ones(0), 0);
    assert_eq!(count_trailing_ones(0b0111), 3);
    assert_eq!(count_trailing_ones(0b1011), 2);
    assert_eq!(count_trailing_ones(usize::MAX), usize::BITS as usize);
}
