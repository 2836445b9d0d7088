//! Error messages, keywords and defaults.
use localized_numbers::{
    plural_keyword, GroupingStrategy, NumberOptions, PluralCategory, Precision, PrecisionError,
    RoundingMode, UnsignedRoundingMode,
};

#[test]
fn every_error_has_its_sentence() {
    assert_eq!(
        PrecisionError::RoundingOverflow.message(),
        "rounding exceeds the supported Decimal magnitude"
    );
    assert_eq!(
        PrecisionError::InvalidRange { minimum: 3, maximum: 2 }.message(),
        "minimum fraction digits (3) exceed maximum (2)"
    );
    assert_eq!(
        PrecisionError::MagnitudeOutOfRange { digits: 65535 }.message(),
        "fraction precision 65535 exceeds the supported maximum 32767"
    );
    assert_eq!(
        PrecisionError::PluralFractionTooLong { digits: 19, maximum: 18 }.message(),
        "plural selection supports at most 18 visible fraction digits, got 19; round explicitly or format text without a plural category"
    );
    assert_eq!(
        PrecisionError::InvalidRange { minimum: 0, maximum: 10 }.message(),
        "minimum fraction digits (0) exceed maximum (10)"
    );
}

#[test]
fn keywords_are_the_cldr_names_and_distinct() {
    let all = [
        (PluralCategory::Zero, "zero"),
        (PluralCategory::One, "one"),
        (PluralCategory::Two, "two"),
        (PluralCategory::Few, "few"),
        (PluralCategory::Many, "many"),
        (PluralCategory::Other, "other"),
    ];
    for (category, keyword) in all {
        assert_eq!(plural_keyword(category), keyword);
    }
    for (a, _) in all {
        for (b, _) in all {
            assert_eq!(plural_keyword(a) == plural_keyword(b), a == b);
        }
    }
}

#[test]
fn defaults_preserve_and_follow_the_locale() {
    let options = NumberOptions::default();
    assert_eq!(options.precision, Precision::preserve());
    assert_eq!(options.grouping, GroupingStrategy::Auto);
    assert_eq!(Precision::default(), Precision::preserve());
    assert_eq!(GroupingStrategy::default(), GroupingStrategy::Auto);
}

#[test]
fn fixed_is_a_range_of_one_length() {
    let mode = RoundingMode::Unsigned(UnsignedRoundingMode::HalfExpand);
    assert_eq!(Precision::fixed(2, mode), Precision::fraction_range(2, 2, mode));
    assert_eq!(Precision::fixed(32767, mode), Precision::fraction_range(32767, 32767, mode));
    assert!(Precision::fixed(32767, mode).is_ok());
    assert_eq!(
        Precision::fixed(32768, mode),
        Err(PrecisionError::MagnitudeOutOfRange { digits: 32768 })
    );
    assert_eq!(
        Precision::fraction_range(40000, 30000, mode),
        Err(PrecisionError::InvalidRange { minimum: 40000, maximum: 30000 })
    );
}
