use jolt_core::field::Fr;

fn fr(x: u64) -> Fr {
    Fr::from_u64(x)
}

#[test]
fn arithmetic_on_small_values() {
    assert_eq!(fr(3).plus(&fr(4)), fr(7));
    assert_eq!(fr(10).minus(&fr(4)), fr(6));
    assert_eq!(fr(6).times(&fr(7)), fr(42));
    assert_eq!(fr(42).over(&fr(7)), fr(6));
    assert!(Fr::zero().is_zero());
    assert!(!Fr::one().is_zero());
    assert!(fr(5).equals(&fr(5)));
    assert!(!fr(5).equals(&fr(6)));
}

#[test]
fn arithmetic_wraps_around_the_modulus() {
    let minus_one = Fr::zero().minus(&Fr::one());
    assert_ne!(minus_one, Fr::one());
    assert_eq!(minus_one.plus(&Fr::one()), Fr::zero());
    assert_eq!(minus_one.times(&minus_one), Fr::one());
    assert_eq!(Fr::from_i128(-5).plus(&fr(5)), Fr::zero());
    assert_eq!(Fr::from_i128(i128::MIN).plus(&Fr::from_u128(1u128 << 127)), Fr::zero());
    let big = Fr::from_u128(u128::MAX);
    assert_eq!(big.plus(&Fr::one()), Fr::from_u128(1u128 << 64).times(&Fr::from_u128(1u128 << 64)));
}

#[test]
fn inverse_of_zero_is_none() {
    assert!(Fr::zero().inverse().is_none());
    let x = fr(12345);
    let inv = x.inverse().unwrap();
    assert_eq!(x.times(&inv), Fr::one());
    assert_eq!(fr(1).over(&fr(2)).times(&fr(2)), Fr::one());
}
