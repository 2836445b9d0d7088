//! ICU-backed decimal text and plural category from one prepared decimal.
use crate::bindings::{
    formatted_text, load_decimal_formatter, load_rules, loaded_decimal, loaded_rules, render,
    rule_category, select_category,
};
use crate::decimal::{
    is_zero_digits, lemma_leading_padding_is_trimmed, lemma_trimmed_start_drops_only_padding,
    lemma_untrimmed_start, with_leading_zeros, Decimal, DecimalModel,
};
use crate::error::PrecisionError;
use crate::number::{LocalizedNumber, PluralCategory};
use crate::precision::{lemma_prepared_fails_only_by_overflow, Precision, RoundingMode, UnsignedRoundingMode};
use icu_decimal::DecimalFormatter;
use icu_locale_core::Locale;
use icu_plurals::PluralRules;
use icu_provider::DataError;
use vstd::prelude::*;

verus! {

/// ICU 2.x decimal-to-plural conversion reads at most this many fraction digits.
/// Longer prepared fractions are rejected instead of silently changing meaning.
pub const MAX_PLURAL_FRACTION_DIGITS: u16 = 18;

/// Locale-sensitive grouping policy.
#[derive(Debug, Clone, Copy, PartialEq, Eq, Hash, Structural)]
#[non_exhaustive]
pub enum GroupingStrategy {
    /// Render grouping separators according to locale preferences.
    Auto,
    /// Never render grouping separators.
    Never,
    /// Always render grouping separators.
    Always,
    /// Render grouping separators only with at least two digits before the
    /// final separator.
    Min2,
}

impl Default for GroupingStrategy {
    fn default() -> (grouping: Self)
        ensures
            grouping == GroupingStrategy::Auto,
    {
        GroupingStrategy::Auto
    }
}

/// Select cardinal (quantity) or ordinal (position) rules.
#[derive(Debug, Clone, Copy, PartialEq, Eq, Hash, Structural)]
#[non_exhaustive]
pub enum PluralRuleType {
    /// Quantities: "1 day", "2 days".
    Cardinal,
    /// Positions: "1st", "2nd".
    Ordinal,
}

impl Default for PluralRuleType {
    fn default() -> (kind: Self)
        ensures
            kind == PluralRuleType::Cardinal,
    {
        PluralRuleType::Cardinal
    }
}

/// Immutable presentation policy applied by a [`NumberFormatter`].
///
/// Construct with [`Default`] and set the fields you need. Precision defaults to
/// preserving the input's visible zeros; grouping follows the selected locale.
/// Changing policy means constructing a new formatter, not mutating a snapshot.
#[derive(Debug, Clone, Copy)]
pub struct NumberOptions {
    /// Rounding and visible fraction digits; defaults to preserving the input.
    pub precision: Precision,
    /// Locale-sensitive grouping; defaults to [`GroupingStrategy::Auto`].
    pub grouping: GroupingStrategy,
}

impl Default for NumberOptions {
    fn default() -> (options: Self)
        ensures
            options.precision.fraction_bounds() is None,
            options.precision.rounding_mode() == RoundingMode::Unsigned(
                UnsignedRoundingMode::HalfEven,
            ),
            options.grouping == GroupingStrategy::Auto,
    {
        NumberOptions { precision: Precision::preserve(), grouping: GroupingStrategy::Auto }
    }
}

/// One locale's plural rules of one kind, as ICU loaded them; held by a
/// [`NumberFormatter`].
#[derive(Debug)]
pub struct PluralRuleSet {
    pub(crate) rules: PluralRules,
}

impl PluralRuleSet {
    /// The ICU rules held.
    pub closed spec fn rules_spec(self) -> PluralRules {
        self.rules
    }
}

/// Prepare decimal text and grammatical selectors for message arguments.
///
/// Construct once per locale/options and reuse across values. There is no global
/// language or string cache. Locale fallback and supported numbering systems
/// follow ICU's compiled data. An extension like `ar-u-nu-latn` changes digits,
/// not Arabic grammar. The formatter does not know a catalog's active language:
/// keep both aligned and rebuild this service when the locale or options change.
#[derive(Debug)]
pub struct NumberFormatter {
    pub(crate) decimal: DecimalFormatter,
    pub(crate) cardinal: PluralRuleSet,
    pub(crate) ordinal: PluralRuleSet,
    pub(crate) options: NumberOptions,
}

impl NumberFormatter {
    /// The policy this formatter applies.
    pub closed spec fn options_spec(self) -> NumberOptions {
        self.options
    }

    /// The ICU decimal formatter held.
    pub closed spec fn decimal_spec(self) -> DecimalFormatter {
        self.decimal
    }

    /// The rules this formatter selects with for `kind`.
    pub closed spec fn rules(self, kind: PluralRuleType) -> PluralRuleSet {
        match kind {
            PluralRuleType::Ordinal => self.ordinal,
            PluralRuleType::Cardinal => self.cardinal,
        }
    }

    /// What [`Self::format`] gives: the ICU text of the prepared decimal.
    pub open spec fn format_result(self, value: DecimalModel) -> Result<Seq<char>, PrecisionError> {
        match self.options_spec().precision.prepared(value) {
            Ok(prepared) => Ok(formatted_text(self, prepared.text())),
            Err(e) => Err(e),
        }
    }

    /// The category of an already prepared decimal: more than
    /// [`MAX_PLURAL_FRACTION_DIGITS`] visible fraction digits is an error;
    /// otherwise ICU selects from the decimal without its leading zero padding
    /// (trailing zeros stay, since they affect grammar).
    pub open spec fn prepared_category(self, prepared: DecimalModel, kind: PluralRuleType) -> Result<
        PluralCategory,
        PrecisionError,
    > {
        if prepared.fraction.len() > MAX_PLURAL_FRACTION_DIGITS {
            Err(
                PrecisionError::PluralFractionTooLong {
                    digits: prepared.fraction.len() as u16,
                    maximum: MAX_PLURAL_FRACTION_DIGITS,
                },
            )
        } else {
            Ok(rule_category(self.rules(kind), prepared.trimmed_start().text()))
        }
    }

    /// What [`Self::category`] gives.
    pub open spec fn category_result(self, value: DecimalModel, kind: PluralRuleType) -> Result<
        PluralCategory,
        PrecisionError,
    > {
        match self.options_spec().precision.prepared(value) {
            Ok(prepared) => self.prepared_category(prepared, kind),
            Err(e) => Err(e),
        }
    }

    /// What [`Self::localize`] gives: text and category of one prepared decimal.
    pub open spec fn localize_result(self, value: DecimalModel, kind: PluralRuleType) -> Result<
        (Seq<char>, PluralCategory),
        PrecisionError,
    > {
        match self.options_spec().precision.prepared(value) {
            Ok(prepared) => match self.prepared_category(prepared, kind) {
                Ok(category) => Ok((formatted_text(self, prepared.text()), category)),
                Err(e) => Err(e),
            },
            Err(e) => Err(e),
        }
    }

    /// The error of the first load that fails, in the order decimal formatter,
    /// cardinal rules, ordinal rules; `None` when all load.
    pub open spec fn first_load_error(locale: Locale, grouping: GroupingStrategy) -> Option<
        DataError,
    > {
        match loaded_decimal(locale, grouping) {
            Err(e) => Some(e),
            Ok(_) => match loaded_rules(locale, PluralRuleType::Cardinal) {
                Err(e) => Some(e),
                Ok(_) => match loaded_rules(locale, PluralRuleType::Ordinal) {
                    Err(e) => Some(e),
                    Ok(_) => None,
                },
            },
        }
    }

    /// Load reusable ICU services using the supplied locale and compiled data.
    ///
    /// # Errors
    /// Returns ICU's [`DataError`] if required formatter or rule data cannot load.
    /// A successful load may use ICU locale fallback, not an exact-data match.
    pub fn try_new(locale: &Locale, options: NumberOptions) -> (result: Result<Self, DataError>)
        ensures
            result is Ok <==> (loaded_decimal(*locale, options.grouping) is Ok && loaded_rules(
                *locale,
                PluralRuleType::Cardinal,
            ) is Ok && loaded_rules(*locale, PluralRuleType::Ordinal) is Ok),
            result matches Ok(formatter) ==> {
                &&& formatter.options_spec() == options
                &&& loaded_decimal(*locale, options.grouping) == Ok::<DecimalFormatter, DataError>(
                    formatter.decimal_spec(),
                )
                &&& loaded_rules(*locale, PluralRuleType::Cardinal) == Ok::<PluralRules, DataError>(
                    formatter.rules(PluralRuleType::Cardinal).rules_spec(),
                )
                &&& loaded_rules(*locale, PluralRuleType::Ordinal) == Ok::<PluralRules, DataError>(
                    formatter.rules(PluralRuleType::Ordinal).rules_spec(),
                )
            },
            result matches Err(e) ==> Self::first_load_error(*locale, options.grouping) == Some(e),
    {
        let decimal = load_decimal_formatter(locale, options.grouping)?;
        let cardinal = load_rules(locale, PluralRuleType::Cardinal)?;
        let ordinal = load_rules(locale, PluralRuleType::Ordinal)?;
        Ok(
            NumberFormatter {
                decimal,
                cardinal: PluralRuleSet { rules: cardinal },
                ordinal: PluralRuleSet { rules: ordinal },
                options,
            },
        )
    }

    /// Format localized text only, without the plural operand precision limit.
    ///
    /// The original decimal is unchanged; this applies the formatter's
    /// precision policy. Use this when no grammatical selector is needed.
    ///
    /// # Errors
    /// Returns [`PrecisionError::RoundingOverflow`] if rounding exceeds the
    /// representable magnitude. No plural precision limit applies.
    pub fn format(&self, value: &Decimal) -> (result: Result<String, PrecisionError>)
        ensures
            match result {
                Ok(text) => self.format_result(value@) == Ok::<Seq<char>, PrecisionError>(text@),
                Err(e) => self.format_result(value@) == Err::<Seq<char>, PrecisionError>(e),
            },
    {
        let prepared = self.options.precision.prepare(value)?;
        Ok(render(self, &prepared.to_text()))
    }

    /// Select grammar using the same precision policy as [`Self::format`].
    ///
    /// For paired text/category output, prefer [`Self::localize`] to prepare once.
    ///
    /// # Errors
    /// Rejects more than 18 visible fraction digits after preparation, including
    /// trailing zeros, because ICU's operand conversion would truncate them.
    /// Also rejects rounding overflow in the prepared decimal.
    pub fn category(&self, value: &Decimal, kind: PluralRuleType) -> (result: Result<
        PluralCategory,
        PrecisionError,
    >)
        ensures
            result == self.category_result(value@, kind),
    {
        let prepared = self.options.precision.prepare(value)?;
        self.category_prepared(&prepared, kind)
    }

    /// Prepare once, then produce a text and selector argument pair.
    ///
    /// # Errors
    /// Returns [`PrecisionError::PluralFractionTooLong`] instead of silently
    /// truncating a prepared fraction longer than 18 digits. No pair is returned
    /// on failure; [`Self::format`] remains available for text-only output.
    /// Also returns [`PrecisionError::RoundingOverflow`] for magnitude overflow.
    pub fn localize(&self, value: &Decimal, kind: PluralRuleType) -> (result: Result<
        LocalizedNumber,
        PrecisionError,
    >)
        ensures
            match result {
                Ok(number) => self.localize_result(value@, kind) == Ok::<
                    (Seq<char>, PluralCategory),
                    PrecisionError,
                >(number@),
                Err(e) => self.localize_result(value@, kind) == Err::<
                    (Seq<char>, PluralCategory),
                    PrecisionError,
                >(e),
            },
    {
        let prepared = self.options.precision.prepare(value)?;
        let category = self.category_prepared(&prepared, kind)?;
        let text = render(self, &prepared.to_text());
        Ok(LocalizedNumber::new(text, category))
    }

    fn category_prepared(&self, value: &Decimal, kind: PluralRuleType) -> (result: Result<
        PluralCategory,
        PrecisionError,
    >)
        ensures
            result == self.prepared_category(value@, kind),
    {
        let (lower, upper) = value.magnitude_range();
        let digits = (-(lower as i32)) as u16;
        if digits > MAX_PLURAL_FRACTION_DIGITS {
            return Err(
                PrecisionError::PluralFractionTooLong {
                    digits,
                    maximum: MAX_PLURAL_FRACTION_DIGITS,
                },
            );
        }
        let rules = match kind {
            PluralRuleType::Ordinal => &self.ordinal,
            PluralRuleType::Cardinal => &self.cardinal,
        };
        // Leading padding is presentation, not magnitude. ICU's large-integer
        // operand marker uses the visible upper magnitude, so remove only padding
        // before selection; keep trailing zeros because they affect grammar.
        let start = value.nonzero_magnitude_start();
        let floor = if start > 0 {
            start
        } else {
            0
        };
        let category = if upper > floor {
            let mut unpadded = value.duplicate();
            unpadded.trim_start();
            select_category(rules, &unpadded.to_text())
        } else {
            proof {
                lemma_untrimmed_start(value@);
            }
            select_category(rules, &value.to_text())
        };
        Ok(category)
    }
}


/// Paired and explicit calls agree: `localize` succeeds exactly when both
/// `format` and `category` do, and then pairs the text of the one with the
/// category of the other; otherwise it fails with the error `category` gives,
/// and `format` fails only where `category` fails in the same way.
pub proof fn lemma_paired_calls_agree(
    formatter: NumberFormatter,
    value: DecimalModel,
    kind: PluralRuleType,
)
    ensures
        formatter.localize_result(value, kind) is Ok <==> (formatter.format_result(value) is Ok
            && formatter.category_result(value, kind) is Ok),
        formatter.localize_result(value, kind) matches Ok((text, category)) ==> (
        formatter.format_result(value) == Ok::<Seq<char>, PrecisionError>(text)
            && formatter.category_result(value, kind) == Ok::<PluralCategory, PrecisionError>(
            category,
        )),
        formatter.localize_result(value, kind) matches Err(e) ==> formatter.category_result(
            value,
            kind,
        ) == Err::<PluralCategory, PrecisionError>(e),
        formatter.format_result(value) matches Err(e) ==> formatter.category_result(value, kind)
            == Err::<PluralCategory, PrecisionError>(e),
{
}

/// Leading zero padding never changes the category of a prepared decimal: it
/// is presentation, not magnitude.
pub proof fn lemma_leading_padding_keeps_category(
    formatter: NumberFormatter,
    prepared: DecimalModel,
    padding: nat,
    kind: PluralRuleType,
)
    requires
        prepared.wf(),
    ensures
        formatter.prepared_category(with_leading_zeros(prepared, padding), kind)
            == formatter.prepared_category(prepared, kind),
{
    lemma_leading_padding_is_trimmed(prepared, padding);
}

/// Text and category both come from the decimal that the formatter's own
/// policy prepares: formatting renders exactly that decimal, selection picks
/// the category of exactly that decimal, and both fail with the policy's error
/// when preparing fails.
pub proof fn lemma_results_use_own_policy(
    formatter: NumberFormatter,
    value: DecimalModel,
    kind: PluralRuleType,
)
    ensures
        formatter.options_spec().precision.prepared(value) matches Ok(prepared) ==> {
            &&& formatter.format_result(value) == Ok::<Seq<char>, PrecisionError>(
                formatted_text(formatter, prepared.text()),
            )
            &&& formatter.category_result(value, kind) == formatter.prepared_category(
                prepared,
                kind,
            )
        },
        formatter.options_spec().precision.prepared(value) matches Err(e) ==> {
            &&& formatter.format_result(value) == Err::<Seq<char>, PrecisionError>(e)
            &&& formatter.category_result(value, kind) == Err::<PluralCategory, PrecisionError>(
                e,
            )
        },
{
}

/// Selection keeps every visible fraction digit: within the operand limit,
/// the category of a prepared decimal is what the rules choose for a decimal
/// with the same sign and exactly the same fraction digits, trailing zeros
/// included, whose integer digits are the prepared ones with at most some
/// leading zero padding removed (the same integer value).
pub proof fn lemma_selection_keeps_visible_fraction(
    formatter: NumberFormatter,
    prepared: DecimalModel,
    kind: PluralRuleType,
)
    requires
        prepared.wf(),
        prepared.fraction.len() <= MAX_PLURAL_FRACTION_DIGITS,
    ensures
        exists|cut: int|
            #![trigger prepared.integer.skip(cut)]
            {
                &&& 0 <= cut < prepared.integer.len()
                &&& is_zero_digits(prepared.integer.take(cut))
                &&& formatter.prepared_category(prepared, kind) == Ok::<
                    PluralCategory,
                    PrecisionError,
                >(
                    rule_category(
                        formatter.rules(kind),
                        (DecimalModel {
                            sign: prepared.sign,
                            integer: prepared.integer.skip(cut),
                            fraction: prepared.fraction,
                        }).text(),
                    ),
                )
            },
{
    lemma_trimmed_start_drops_only_padding(prepared);
    let t = prepared.trimmed_start();
    let cut = prepared.integer.len() - t.integer.len();
    assert(t == DecimalModel {
        sign: prepared.sign,
        integer: prepared.integer.skip(cut),
        fraction: prepared.fraction,
    });
}

/// Text-only formatting has no plural operand limit: it fails only when the
/// precision policy fails. Selection fails with
/// [`PrecisionError::PluralFractionTooLong`] exactly when the prepared decimal
/// shows more than [`MAX_PLURAL_FRACTION_DIGITS`] fraction digits, trailing
/// zeros included, and reports that count.
pub proof fn lemma_plural_fraction_limit(
    formatter: NumberFormatter,
    value: DecimalModel,
    kind: PluralRuleType,
)
    ensures
        formatter.format_result(value) is Ok <==> formatter.options_spec().precision.prepared(
            value,
        ) is Ok,
        (formatter.category_result(value, kind) matches Err(
            PrecisionError::PluralFractionTooLong { digits, maximum },
        )) <==> (formatter.options_spec().precision.prepared(value) matches Ok(prepared)
            && prepared.fraction.len() > MAX_PLURAL_FRACTION_DIGITS),
        formatter.options_spec().precision.prepared(value) matches Ok(prepared) ==> (
        prepared.fraction.len() > MAX_PLURAL_FRACTION_DIGITS ==> formatter.category_result(
            value,
            kind,
        ) == Err::<PluralCategory, PrecisionError>(
            PrecisionError::PluralFractionTooLong {
                digits: prepared.fraction.len() as u16,
                maximum: MAX_PLURAL_FRACTION_DIGITS,
            },
        )),
{
    lemma_prepared_fails_only_by_overflow(formatter.options_spec().precision, value);
}

} // verus!
