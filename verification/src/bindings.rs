//! The calls into std and ICU4X that the library trusts, with what each
//! promises. Everything else in the crate is verified against these.
use crate::decimal::{decode_text, is_decimal_text, ParseError};
use crate::formatter::{GroupingStrategy, NumberFormatter, PluralRuleSet, PluralRuleType};
use crate::number::PluralCategory;
use crate::precision::{RoundingMode, UnsignedRoundingMode};
use crate::rounding::rounded_model;
use icu_decimal::options::GroupingStrategy as IcuGrouping;
use icu_decimal::DecimalFormatter;
use icu_locale_core::Locale;
use icu_plurals::PluralCategory as IcuCategory;
use icu_plurals::PluralRuleType as IcuRuleType;
use icu_plurals::PluralRules;
use icu_provider::DataError;
use fixed_decimal::Decimal as IcuDecimal;
use fixed_decimal::SignedRoundingMode as IcuSigned;
use fixed_decimal::UnsignedRoundingMode as IcuUnsigned;
use vstd::prelude::*;

verus! {

/// ICU's locale identifier, carried through to the loaders.
#[verifier::external_type_specification]
#[verifier::external_body]
pub struct ExLocale(icu_locale_core::Locale);

/// ICU's data-loading error, returned from the loaders.
#[verifier::external_type_specification]
#[verifier::external_body]
pub struct ExDataError(icu_provider::DataError);

/// ICU's decimal formatter for one locale and grouping.
#[verifier::external_type_specification]
#[verifier::external_body]
pub struct ExDecimalFormatter(icu_decimal::DecimalFormatter);

/// ICU's plural rules for one locale and rule type.
#[verifier::external_type_specification]
#[verifier::external_body]
pub struct ExPluralRules(icu_plurals::PluralRules);

/// `String::push`: appends one character, as std documents.
#[verifier::external_body]
pub(crate) fn push_char(text: &mut String, c: char)
    ensures
        final(text)@ == old(text)@.push(c),
{
    text.push(c);
}

/// What `fixed_decimal::Decimal::round_with_mode` makes of the decimal that
/// `text` denotes, rounded at `position` with `mode`, written back as text.
pub uninterp spec fn rounded_text(text: Seq<u8>, position: i16, mode: RoundingMode) -> Seq<u8>;

/// `fixed_decimal::Decimal::round_with_mode` on the decimal read from `text`.
///
/// Claims: the result is named [`rounded_text`] of the arguments; it is again
/// a decimal text (the crate writes `[-+]?digits(.digits)?` within `i16`
/// magnitudes); and a rounding at a position at or below zero leaves exactly
/// `-position` fraction digits (the crate sets the lowest magnitude to the
/// position before rounding). When every nonzero digit already lies at or
/// above a position at or below zero, the crate finds the number rounded and
/// returns after that first step (`is_rounded`, decimal.rs `expand_` and
/// `trunc_to_increment_internal`; the half modes choose one of the two), so the
/// sign and integer digits stay and the fraction is only padded or cut to
/// `-position` zeros.
///
/// In general, at a position at or below zero, the result is
/// [`rounded_model`] of the decimal: the sign is never touched; the kept
/// magnitude is truncated, or expanded by one unit at the position, as
/// `trunc_`/`expand_to_increment_internal` do, the mode choosing between them
/// (`half_*_to_increment_internal` compare what lies below the position with
/// half a unit, `half_even` looks at the parity of the digit at the position,
/// `ceil`/`floor` and their half forms pick by sign); the upper magnitude only
/// grows, by a carry; and a carry out of magnitude `i16::MAX` clears every
/// digit (`overflow`), leaving zeros.
#[verifier::external_body]
pub(crate) fn round_text(text: &[u8], position: i16, mode: RoundingMode) -> (rounded: Vec<u8>)
    requires
        is_decimal_text(text@),
    ensures
        rounded@ == rounded_text(text@, position, mode),
        is_decimal_text(rounded@),
        position <= 0 ==> decode_text(rounded@).fraction.len() == -position,
        position <= 0 && decode_text(text@).significant_fraction_len() <= -position
            ==> decode_text(rounded@) == decode_text(text@).padded_end(position as int),
        position <= 0 ==> decode_text(rounded@) == rounded_model(
            decode_text(text@),
            (-(position as int)) as nat,
            mode,
        ),
{
    let mode = match mode {
        RoundingMode::Unsigned(unsigned) => IcuSigned::Unsigned(match unsigned {
            UnsignedRoundingMode::Expand => IcuUnsigned::Expand, UnsignedRoundingMode::Trunc => IcuUnsigned::Trunc,
            UnsignedRoundingMode::HalfExpand => IcuUnsigned::HalfExpand, UnsignedRoundingMode::HalfTrunc => IcuUnsigned::HalfTrunc,
            UnsignedRoundingMode::HalfEven => IcuUnsigned::HalfEven,
        }),
        RoundingMode::Ceil => IcuSigned::Ceil, RoundingMode::Floor => IcuSigned::Floor,
        RoundingMode::HalfCeil => IcuSigned::HalfCeil, RoundingMode::HalfFloor => IcuSigned::HalfFloor,
    };
    let mut decimal = IcuDecimal::try_from_utf8(text).unwrap_or_default();
    decimal.round_with_mode(position, mode);
    decimal.to_string().into_bytes()
}

/// What `fixed_decimal::Decimal::try_from_str` makes of `input`, written
/// back as text, or the error it reports.
pub uninterp spec fn parsed_decimal_text(input: Seq<char>) -> Result<Seq<u8>, ParseError>;

/// `fixed_decimal::Decimal::try_from_str`, the decimal written back as text.
///
/// Claims: the result is named [`parsed_decimal_text`] of the input, and a
/// parsed decimal is written as a decimal text. Which inputs the crate
/// accepts (signs, a leading `.`, exponents) is not stated here.
#[verifier::external_body]
pub(crate) fn parse_decimal(input: &str) -> (text: Result<Vec<u8>, ParseError>)
    ensures
        match text {
            Ok(t) => parsed_decimal_text(input@) == Ok::<Seq<u8>, ParseError>(t@) && is_decimal_text(t@),
            Err(e) => parsed_decimal_text(input@) == Err::<Seq<u8>, ParseError>(e),
        },
{
    match IcuDecimal::try_from_str(input) {
        Ok(decimal) => Ok(decimal.to_string().into_bytes()),
        Err(fixed_decimal::ParseError::Limit) => Err(ParseError::Limit),
        Err(_) => Err(ParseError::Syntax),
    }
}

/// What `icu_decimal::DecimalFormatter::try_new` loads from compiled data
/// for `locale` and `grouping`: the formatter, or the data error.
pub uninterp spec fn loaded_decimal(locale: Locale, grouping: GroupingStrategy) -> Result<
    DecimalFormatter,
    DataError,
>;

/// `icu_decimal::DecimalFormatter::try_new` from compiled data, with the
/// grouping strategy as its options.
///
/// Claims only that the result is named [`loaded_decimal`] of the locale and
/// the grouping: compiled data is fixed, so the same arguments load the same
/// formatter or fail the same way. Which locales load is ICU data, not stated.
#[verifier::external_body]
pub(crate) fn load_decimal_formatter(locale: &Locale, grouping: GroupingStrategy) -> (loaded:
    Result<DecimalFormatter, DataError>)
    ensures
        loaded == loaded_decimal(*locale, grouping),
{
    let grouping = match grouping {
        GroupingStrategy::Auto => IcuGrouping::Auto, GroupingStrategy::Never => IcuGrouping::Never,
        GroupingStrategy::Always => IcuGrouping::Always, GroupingStrategy::Min2 => IcuGrouping::Min2,
    };
    DecimalFormatter::try_new(locale.into(), grouping.into())
}

/// What `icu_plurals::PluralRules::try_new` loads from compiled data for
/// `locale` and the rule type `kind`: the rules, or the data error.
pub uninterp spec fn loaded_rules(locale: Locale, kind: PluralRuleType) -> Result<
    PluralRules,
    DataError,
>;

/// `icu_plurals::PluralRules::try_new` from compiled data, with the rule type
/// as its options (the crate loads cardinal or ordinal rules by that type).
///
/// Claims only that the result is named [`loaded_rules`] of the locale and the
/// rule type. Which locales load is ICU data, not stated.
#[verifier::external_body]
pub(crate) fn load_rules(locale: &Locale, kind: PluralRuleType) -> (loaded: Result<
    PluralRules,
    DataError,
>)
    ensures
        loaded == loaded_rules(*locale, kind),
{
    let kind = match kind {
        PluralRuleType::Cardinal => IcuRuleType::Cardinal,
        PluralRuleType::Ordinal => IcuRuleType::Ordinal,
    };
    PluralRules::try_new(locale.into(), kind.into())
}

/// What the formatter's `icu_decimal::DecimalFormatter::format` writes for
/// the decimal that `text` denotes.
pub uninterp spec fn formatted_text(formatter: NumberFormatter, text: Seq<u8>) -> Seq<char>;

/// `icu_decimal::DecimalFormatter::format` on the decimal read from `text`,
/// written to a `String`.
///
/// Claims only that the result is named [`formatted_text`] of the formatter
/// and the text: the same formatter renders the same decimal the same way.
/// The localized digits, separators and signs are ICU data and not stated.
#[verifier::external_body]
pub(crate) fn render(formatter: &NumberFormatter, text: &[u8]) -> (formatted: String)
    requires
        is_decimal_text(text@),
    ensures
        formatted@ == formatted_text(*formatter, text@),
{
    let decimal = IcuDecimal::try_from_utf8(text).unwrap_or_default();
    formatter.decimal.format(&decimal).to_string()
}

/// What `icu_plurals::PluralRules::category_for` selects with `rules` for the
/// plural operands of the decimal that `text` denotes.
pub uninterp spec fn rule_category(rules: PluralRuleSet, text: Seq<u8>) -> PluralCategory;

/// `icu_plurals::PluralRules::category_for`, with the operands that
/// `icu_plurals::PluralOperands::from` takes from the decimal read from `text`.
///
/// Claims only that the result is named [`rule_category`] of the rules and the
/// text. Which category CLDR data gives is not stated here.
#[verifier::external_body]
pub(crate) fn select_category(rules: &PluralRuleSet, text: &[u8]) -> (category: PluralCategory)
    requires
        is_decimal_text(text@),
    ensures
        category == rule_category(*rules, text@),
{
    let decimal = IcuDecimal::try_from_utf8(text).unwrap_or_default();
    match rules.rules.category_for(&decimal) {
        IcuCategory::Zero => PluralCategory::Zero,
        IcuCategory::One => PluralCategory::One,
        IcuCategory::Two => PluralCategory::Two,
        IcuCategory::Few => PluralCategory::Few,
        IcuCategory::Many => PluralCategory::Many,
        IcuCategory::Other => PluralCategory::Other,
    }
}

} // verus!
