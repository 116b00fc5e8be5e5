use num_bigint::BigInt;
use shamir::codec::{convert_from_decimal, convert_to_decimal};
use shamir::alphabet::{int_to_symbol, symbol_to_int};
use shamir::SssError;

#[test]
fn test_base_conversion() {
    let test_value = "aed7015";
    let base = 15;
    let decimal = convert_to_decimal(test_value, base).unwrap();

    let result = convert_from_decimal(decimal, base).unwrap();

    let normalized_test = test_value.trim_start_matches('0');
    let normalized_result = result.trim_start_matches('0');

    assert_eq!(normalized_test, normalized_result);
}

#[test]
fn base_conversion_exact_values() {
    assert_eq!(convert_to_decimal("ff", 16).unwrap(), BigInt::from(255u32));
    assert_eq!(convert_to_decimal("FF", 16).unwrap(), BigInt::from(255u32));
    assert_eq!(convert_to_decimal("0", 2).unwrap(), BigInt::from(0u32));
    assert_eq!(convert_to_decimal("z", 36).unwrap(), BigInt::from(35u32));
    assert_eq!(convert_to_decimal("101", 2).unwrap(), BigInt::from(5u32));
    assert_eq!(convert_from_decimal(BigInt::from(255u32), 16).unwrap(), "ff");
    assert_eq!(convert_from_decimal(BigInt::from(0u32), 7).unwrap(), "0");
    assert_eq!(convert_from_decimal(BigInt::from(5u32), 2).unwrap(), "101");
}

#[test]
fn base_conversion_errors() {
    assert_eq!(convert_to_decimal("", 16), Err(SssError::EmptyInput));
    assert_eq!(convert_to_decimal("g", 16), Err(SssError::DigitOutOfRange));
    assert_eq!(convert_to_decimal("2", 2), Err(SssError::DigitOutOfRange));
    assert_eq!(convert_to_decimal("a b", 16), Err(SssError::DigitOutOfRange));
    assert_eq!(
        convert_from_decimal(BigInt::from(-1i32), 16),
        Err(SssError::NegativeValue)
    );
}

#[test]
fn base_round_trip_strips_leading_zeros() {
    let decimal = convert_to_decimal("000ff", 16).unwrap();
    assert_eq!(convert_from_decimal(decimal, 16).unwrap(), "ff");
    let zero = convert_to_decimal("000", 16).unwrap();
    assert_eq!(zero, BigInt::from(0u32));
    assert_eq!(convert_from_decimal(zero, 16).unwrap(), "0");
}

#[test]
fn base_round_trip_lowercases_input() {
    // Decoding is case-insensitive but the canonical output is lower case,
    // so upper-case digit strings round-trip to their lower-case form.
    let decimal = convert_to_decimal("FF", 16).unwrap();
    assert_eq!(convert_from_decimal(decimal, 16).unwrap(), "ff");
}

fn ab_alphabet() -> Vec<char> {
    vec!['a', 'b']
}

#[test]
fn alphabet_codec_values() {
    let a = ab_alphabet();
    assert_eq!(symbol_to_int("ba", &a).unwrap(), BigInt::from(2u32));
    assert_eq!(symbol_to_int("a", &a).unwrap(), BigInt::from(0u32));
    assert_eq!(int_to_symbol(&BigInt::from(0u32), &a).unwrap(), "a");
    assert_eq!(int_to_symbol(&BigInt::from(2u32), &a).unwrap(), "ba");
    assert_eq!(int_to_symbol(&BigInt::from(5u32), &a).unwrap(), "bab");
}

#[test]
fn alphabet_codec_errors() {
    let a = ab_alphabet();
    assert_eq!(symbol_to_int("", &a), Err(SssError::EmptyInput));
    assert_eq!(symbol_to_int("abc", &a), Err(SssError::InvalidSymbol));
    assert_eq!(
        int_to_symbol(&BigInt::from(-1i32), &a),
        Err(SssError::NegativeValue)
    );
}

#[test]
fn alphabet_round_trip_strips_leading_zero_symbols() {
    let a = ab_alphabet();
    let v = symbol_to_int("aba", &a).unwrap();
    assert_eq!(int_to_symbol(&v, &a).unwrap(), "ba");
    let w = symbol_to_int("bab", &a).unwrap();
    assert_eq!(int_to_symbol(&w, &a).unwrap(), "bab");
}
