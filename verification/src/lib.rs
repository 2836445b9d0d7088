//! Locale-formatted decimal text and its matching plural category, prepared
//! from one precision policy and handed to ICU4X for display and grammar.
mod bindings;
mod decimal;
mod error;
mod formatter;
mod number;
mod precision;
mod rounding;

pub use decimal::{Decimal, DecimalModel, ParseError, Sign};
pub use error::PrecisionError;
pub use formatter::{
    GroupingStrategy, NumberFormatter, NumberOptions, PluralRuleSet, PluralRuleType,
    MAX_PLURAL_FRACTION_DIGITS,
};
pub use number::{plural_keyword, LocalizedNumber, PluralCategory};
pub use precision::{Precision, RoundingMode, UnsignedRoundingMode};

/// A locale and optional numbering-system preference, such as `ar-EG-u-nu-arab`.
pub use icu_locale_core::Locale;
/// ICU data-loading failure returned while constructing a formatter.
pub use icu_provider::DataError;
