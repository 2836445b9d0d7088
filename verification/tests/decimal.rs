//! The decimal model: parsing, text, padding and magnitudes.
use localized_numbers::{Decimal, ParseError};

fn dec(text: &str) -> Decimal {
    text.parse().unwrap()
}

#[test]
fn parsed_text_is_kept_exactly() {
    for text in ["0", "-0.00", "012.340", "+7", "1.000000000000000001", "000000000000000000001"] {
        assert_eq!(dec(text).to_string(), text);
    }
}

#[test]
fn parsing_normalizes_the_forms_fixed_decimal_accepts() {
    assert_eq!(dec(".5").to_string(), "0.5");
    assert_eq!(dec("1e3").to_string(), "1000");
    assert_eq!(dec("-25e-1").to_string(), "-2.5");
}

#[test]
fn parsing_rejects_non_decimals() {
    for text in ["", "-", "1.", "abc", "1..2", "1_000", "1,5"] {
        assert_eq!(text.parse::<Decimal>().unwrap_err(), ParseError::Syntax, "{text}");
    }
    assert_eq!("1e40000".parse::<Decimal>().unwrap_err(), ParseError::Limit);
    let too_long = "1".repeat(32769);
    assert_eq!(too_long.parse::<Decimal>().unwrap_err(), ParseError::Limit);
    let longest = "1".repeat(32768);
    assert_eq!(dec(&longest).to_string(), longest);
}

#[test]
fn integers_convert_without_padding() {
    assert_eq!(Decimal::from(0u32).to_string(), "0");
    assert_eq!(Decimal::from(-42i64).to_string(), "-42");
    assert_eq!(Decimal::from(i32::MIN).to_string(), "-2147483648");
    assert_eq!(Decimal::from(i64::MIN).to_string(), "-9223372036854775808");
    assert_eq!(Decimal::from(u64::MAX).to_string(), "18446744073709551615");
    assert_eq!(Decimal::from(1234567u64).to_string(), "1234567");
}

#[test]
fn magnitudes_and_zero() {
    let value = dec("012.340");
    assert_eq!(value.magnitude_range(), (-3, 2));
    assert_eq!(value.nonzero_magnitude_start(), 1);
    assert!(!value.is_zero());
    assert_eq!(dec("0.0022").nonzero_magnitude_start(), -3);
    assert_eq!(dec("000.000").nonzero_magnitude_start(), 0);
    assert!(dec("000.000").is_zero());
    assert!(dec("-0").is_zero());
    assert!(!dec("0.04").is_zero());
}

#[test]
fn trimming_and_padding_follow_fixed_decimal() {
    let mut value = dec("0012.3400");
    value.trim_end();
    assert_eq!(value.to_string(), "0012.34");
    value.trim_start();
    assert_eq!(value.to_string(), "12.34");

    let mut small = dec("0.0022");
    small.trim_start();
    assert_eq!(small.to_string(), "0.0022");

    let mut zero = dec("000.000");
    zero.trim_start();
    zero.trim_end();
    assert_eq!(zero.to_string(), "0");

    let mut padded = dec("123.456");
    padded.pad_end(-2);
    assert_eq!(padded.to_string(), "123.456");
    padded.pad_end(-6);
    assert_eq!(padded.to_string(), "123.456000");
    padded.pad_end(-4);
    assert_eq!(padded.to_string(), "123.4560");
    padded.pad_end(3);
    assert_eq!(padded.to_string(), "123.4560");

    let mut whole = dec("123.000");
    whole.pad_end(0);
    assert_eq!(whole.to_string(), "123");
}

#[test]
fn copies_keep_the_value() {
    let value = dec("-1.50");
    assert_eq!(value.clone().to_string(), "-1.50");
    assert_eq!(value.duplicate().to_string(), "-1.50");
    assert_eq!(value.to_text(), b"-1.50".to_vec());
    assert_eq!(Decimal::from_text(b"-1.50").unwrap().to_string(), "-1.50");
    assert!(Decimal::from_text(b"1e3").is_none());
    assert!(Decimal::from_text(b".5").is_none());
}

#[test]
fn every_integer_type_converts() {
    assert_eq!(Decimal::from(255u8).to_string(), "255");
    assert_eq!(Decimal::from(-128i8).to_string(), "-128");
    assert_eq!(Decimal::from(65535u16).to_string(), "65535");
    assert_eq!(Decimal::from(-32768i16).to_string(), "-32768");
    assert_eq!(Decimal::from(4294967295u32).to_string(), "4294967295");
    assert_eq!(Decimal::from(7usize).to_string(), "7");
    assert_eq!(Decimal::from(-7isize).to_string(), "-7");
    assert_eq!(
        Decimal::from(u128::MAX).to_string(),
        "340282366920938463463374607431768211455"
    );
    assert_eq!(
        Decimal::from(i128::MIN).to_string(),
        "-170141183460469231731687303715884105728"
    );
    assert_eq!(Decimal::from(0i128).to_string(), "0");
}
