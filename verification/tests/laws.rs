//! The library's laws on concrete values.
use localized_numbers::{
    Decimal, GroupingStrategy, NumberFormatter, NumberOptions, PluralCategory, PluralRuleType,
    Precision, PrecisionError, RoundingMode, UnsignedRoundingMode,
};

const HALF_EVEN: RoundingMode = RoundingMode::Unsigned(UnsignedRoundingMode::HalfEven);

fn formatter(language: &str, precision: Precision) -> NumberFormatter {
    NumberFormatter::try_new(
        &language.parse().unwrap(),
        NumberOptions {
            precision,
            grouping: GroupingStrategy::Never,
        },
    )
    .unwrap()
}

#[test]
fn paired_and_explicit_calls_agree_on_every_outcome() {
    let formatter = formatter("en", Precision::fraction_range(0, 20, HALF_EVEN).unwrap());
    for input in ["1", "1.5", "0.000000000000000000001", "2.50", "-3"] {
        let value: Decimal = input.parse().unwrap();
        let paired = formatter.localize(&value, PluralRuleType::Cardinal);
        let text = formatter.format(&value);
        let category = formatter.category(&value, PluralRuleType::Cardinal);
        match paired {
            Ok(number) => {
                assert_eq!(Ok(number.text().to_owned()), text);
                assert_eq!(Ok(number.category()), category);
            }
            Err(e) => assert_eq!(Err(e), category),
        }
    }
}

#[test]
fn prepared_fraction_stays_within_the_range() {
    let formatter = formatter("en", Precision::fraction_range(2, 4, HALF_EVEN).unwrap());
    for (input, expected) in [
        ("1", "1.00"),
        ("1.5", "1.50"),
        ("1.23456", "1.2346"),
        ("1.23000", "1.23"),
        ("1.00001", "1.00"),
        ("9.99999", "10.00"),
    ] {
        assert_eq!(formatter.format(&input.parse().unwrap()).unwrap(), expected);
    }
}

#[test]
fn text_only_formatting_has_no_plural_limit() {
    let formatter = formatter("en", Precision::fixed(25, HALF_EVEN).unwrap());
    let value = Decimal::from(3);
    assert_eq!(
        formatter.format(&value).unwrap(),
        "3.0000000000000000000000000"
    );
    assert_eq!(
        formatter.category(&value, PluralRuleType::Cardinal),
        Err(PrecisionError::PluralFractionTooLong { digits: 25, maximum: 18 })
    );
}

#[test]
fn leading_padding_is_removed_only_for_selection() {
    let formatter = formatter("ru", Precision::preserve());
    let padded: Decimal = "0021".parse().unwrap();
    let number = formatter.localize(&padded, PluralRuleType::Cardinal).unwrap();
    assert_eq!(number.text(), "0021");
    assert_eq!(number.category(), PluralCategory::One);
}

#[test]
fn the_input_is_never_changed() {
    let formatter = formatter("en", Precision::fixed(0, RoundingMode::Ceil).unwrap());
    let value: Decimal = "-0.5".parse().unwrap();
    assert_eq!(formatter.format(&value).unwrap(), "-0");
    assert_eq!(value.to_string(), "-0.5");
}

#[test]
fn preparing_twice_is_preparing_once() {
    for precision in [
        Precision::preserve(),
        Precision::fixed(2, HALF_EVEN).unwrap(),
        Precision::fraction_range(1, 3, RoundingMode::Floor).unwrap(),
    ] {
        for input in ["1", "1.23456", "-0.5", "9.9999", "0.000"] {
            let value: Decimal = input.parse().unwrap();
            let once = precision.prepare(&value).unwrap();
            let twice = precision.prepare(&once).unwrap();
            assert_eq!(twice.to_string(), once.to_string(), "{input}");
        }
    }
}

#[test]
fn leading_padding_never_changes_the_category() {
    let formatter = formatter("ru", Precision::preserve());
    for (plain, padded) in [("21", "00021"), ("2", "0002"), ("5.0", "005.0"), ("0.5", "000.5")] {
        assert_eq!(
            formatter.category(&plain.parse().unwrap(), PluralRuleType::Cardinal),
            formatter.category(&padded.parse().unwrap(), PluralRuleType::Cardinal),
        );
    }
}

#[test]
fn grouping_follows_the_options() {
    let value: Decimal = "1234567.5".parse().unwrap();
    let never = formatter("en", Precision::preserve());
    let auto = NumberFormatter::try_new(&"en".parse().unwrap(), NumberOptions::default()).unwrap();
    assert_eq!(never.format(&value).unwrap(), "1234567.5");
    assert_eq!(auto.format(&value).unwrap(), "1,234,567.5");
}
