use ethclient::amount::Amount;
use ethclient::errors::ClientError;
use ethclient::fees::{estimate_transfer_gas_fee, get_readable_balance, transfer_fee};
use ethclient::units::{to_base_units, to_decimal_string};

#[test]
fn parses_whole_number() {
    let a = to_base_units("1", 18).unwrap();
    assert_eq!(a.to_u128(), Some(1_000_000_000_000_000_000u128));
}

#[test]
fn parses_fractional_number() {
    let a = to_base_units("1.5", 18).unwrap();
    assert_eq!(a.to_u128(), Some(1_500_000_000_000_000_000u128));
}

#[test]
fn parses_small_fraction() {
    let a = to_base_units("0.001", 18).unwrap();
    assert_eq!(a.to_u128(), Some(1_000_000_000_000_000u128));
}

#[test]
fn parse_is_exact_at_full_precision() {
    let a = to_base_units("0.123456789012345678", 18).unwrap();
    assert_eq!(a.to_u128(), Some(123_456_789_012_345_678u128));
}

#[test]
fn rejects_empty_string() {
    assert_eq!(to_base_units("", 18), Err(ClientError::InvalidFormat));
}

#[test]
fn rejects_bare_point_forms() {
    assert_eq!(to_base_units(".5", 18), Err(ClientError::InvalidFormat));
    assert_eq!(to_base_units("5.", 18), Err(ClientError::InvalidFormat));
    assert_eq!(to_base_units(".", 18), Err(ClientError::InvalidFormat));
}

#[test]
fn rejects_non_digits() {
    assert_eq!(to_base_units("12a", 18), Err(ClientError::InvalidFormat));
    assert_eq!(to_base_units("-1", 18), Err(ClientError::InvalidFormat));
    assert_eq!(to_base_units("1.2.3", 18), Err(ClientError::InvalidFormat));
    assert_eq!(to_base_units("1,5", 18), Err(ClientError::InvalidFormat));
}

#[test]
fn rejects_excess_fraction_digits() {
    // nineteen fractional digits at precision eighteen would lose value
    assert_eq!(
        to_base_units("0.0000000000000000001", 18),
        Err(ClientError::InvalidFormat)
    );
    // two fractional digits at precision one
    assert_eq!(to_base_units("3.25", 1), Err(ClientError::InvalidFormat));
}

#[test]
fn round_trips_plain_value() {
    let a = to_base_units("1.5", 18).unwrap();
    assert_eq!(to_decimal_string(&a, 18), "1.5");
}

#[test]
fn round_trip_normalizes_zeros() {
    let a = to_base_units("000.500", 18).unwrap();
    assert_eq!(to_decimal_string(&a, 18), "0.5");
    let b = to_base_units("007", 18).unwrap();
    assert_eq!(to_decimal_string(&b, 18), "7");
    let c = to_base_units("0.0", 18).unwrap();
    assert_eq!(to_decimal_string(&c, 18), "0");
}

#[test]
fn formats_zero_consistently() {
    assert_eq!(to_decimal_string(&Amount::zero(), 18), "0");
    assert_eq!(to_decimal_string(&Amount::zero(), 0), "0");
}

#[test]
fn formats_at_precision_zero() {
    let a = to_base_units("12345", 0).unwrap();
    assert_eq!(to_decimal_string(&a, 0), "12345");
}

#[test]
fn zero_balance_reads_as_zero() {
    // a zero-balance account at the native precision
    assert_eq!(get_readable_balance(&Amount::zero()), "0");
}

#[test]
fn one_ether_of_base_units_reads_as_one() {
    let a = Amount::from_u128(1_000_000_000_000_000_000u128);
    assert_eq!(get_readable_balance(&a), "1");
}

#[test]
fn transfer_fee_is_price_times_limit() {
    let price = Amount::from_u64(100_000_000);
    let fee = transfer_fee(&price);
    assert_eq!(fee.to_u128(), Some(2_100_000_000_000u128));
}

#[test]
fn gas_fee_estimate_formats_with_leading_zeros_trimmed() {
    // 100000000 base units per gas unit times the 21000 transfer limit
    // is 2100000000000 base units, which reads 0.0000021 at precision 18
    let price = Amount::from_u64(100_000_000);
    assert_eq!(estimate_transfer_gas_fee(&price), "0.0000021");
}

#[test]
fn multiplication_is_exact_beyond_machine_words() {
    // the product exceeds 128 bits and must not wrap
    let a = to_base_units("340282366920938463463374607431768211455", 0).unwrap();
    let b = a.mul_u64(1_000_000);
    assert_eq!(
        to_decimal_string(&b, 0),
        "340282366920938463463374607431768211455000000"
    );
    assert_eq!(b.to_u128(), None);
}

#[test]
fn mul_add_tracks_exact_value() {
    let a = Amount::from_u64(7);
    let b = a.mul_add(10, 3);
    assert_eq!(b.to_u128(), Some(73));
}

#[test]
fn amount_equality_is_by_value() {
    let a = to_base_units("1.50", 18).unwrap();
    let b = to_base_units("1.5", 18).unwrap();
    assert!(a.eq_amount(&b));
    let c = to_base_units("1.51", 18).unwrap();
    assert!(!c.eq_amount(&a));
}

#[test]
fn is_zero_matches_value() {
    assert!(Amount::zero().is_zero());
    assert!(!Amount::from_u64(1).is_zero());
}

#[test]
fn amount_to_string_and_back_is_lossless() {
    let a = Amount::from_u128(123_456_789_000_000_000_000u128);
    let s = to_decimal_string(&a, 18);
    assert_eq!(s, "123.456789");
    let b = to_base_units(&s, 18).unwrap();
    assert_eq!(a, b);
}

#[test]
fn tiny_amount_to_string_and_back_is_lossless() {
    let a = Amount::from_u64(1);
    let s = to_decimal_string(&a, 18);
    assert_eq!(s, "0.000000000000000001");
    let b = to_base_units(&s, 18).unwrap();
    assert_eq!(a, b);
}
