//! Apply one precision policy before either formatting or grammatical selection.
use crate::bindings::round_text;
use crate::rounding::rounded_model;
use crate::decimal::{
    decode_text, lemma_padding_keeps_digits, lemma_trim_pad_fixed_point, lemma_trimmed_then_padded,
    Decimal, DecimalModel,
};
use crate::error::{PrecisionError, MAX_FRACTION_DIGITS};
use vstd::prelude::*;

verus! {

/// Sign-independent rounding modes, wrapped by [`RoundingMode::Unsigned`].
#[derive(Debug, Clone, Copy, PartialEq, Eq, Hash, Structural)]
#[non_exhaustive]
pub enum UnsignedRoundingMode {
    /// Away from zero.
    Expand,
    /// Towards zero.
    Trunc,
    /// To nearest, ties away from zero.
    HalfExpand,
    /// To nearest, ties towards zero.
    HalfTrunc,
    /// To nearest, ties to the even neighbour.
    HalfEven,
}

/// Signed rounding modes, including ceiling and floor.
#[derive(Debug, Clone, Copy, PartialEq, Eq, Hash, Structural)]
#[non_exhaustive]
pub enum RoundingMode {
    /// A sign-independent mode.
    Unsigned(UnsignedRoundingMode),
    /// Towards positive infinity.
    Ceil,
    /// Towards negative infinity.
    Floor,
    /// To nearest, ties towards positive infinity.
    HalfCeil,
    /// To nearest, ties towards negative infinity.
    HalfFloor,
}

/// Validated fraction precision shared by display text and plural selection.
///
/// The default preserves the input, including visible trailing zeros. Fraction
/// policies round, remove trailing zeros, then pad to their required minimum.
/// This type does not change the caller's Decimal.
/// Both number text and plural category use the prepared value: rounding `1.2`
/// to `1` can change grammar.
#[derive(Debug, Clone, Copy, PartialEq, Eq)]
pub struct Precision {
    fraction: Option<(i16, i16)>,
    rounding: RoundingMode,
}

impl Precision {
    #[verifier::type_invariant]
    closed spec fn bounded(self) -> bool {
        self.fraction matches Some((minimum, maximum)) ==> 0 <= minimum <= maximum
    }

    /// The visible fraction bounds `(minimum, maximum)`, or `None` to preserve.
    pub closed spec fn fraction_bounds(self) -> Option<(i16, i16)> {
        self.fraction
    }

    /// The mode used when rounding to the maximum.
    pub closed spec fn rounding_mode(self) -> RoundingMode {
        self.rounding
    }

    /// Preserve the input's value and visible precision without rounding.
    /// This keeps `1` distinct from `1.0` for languages whose plural rules depend
    /// on visible fraction digits. It is also the default policy.
    pub fn preserve() -> (precision: Self)
        ensures
            precision.fraction_bounds() is None,
            precision.rounding_mode() == RoundingMode::Unsigned(UnsignedRoundingMode::HalfEven),
    {
        Precision {
            fraction: None,
            rounding: RoundingMode::Unsigned(UnsignedRoundingMode::HalfEven),
        }
    }

    /// Round and show exactly `digits` fraction digits, including trailing zeros.
    ///
    /// # Errors
    /// Returns [`PrecisionError::MagnitudeOutOfRange`] above `i16::MAX` digits.
    /// Plural selection has an additional, checked 18-fraction-digit limit.
    pub fn fixed(digits: u16, rounding: RoundingMode) -> (result: Result<Self, PrecisionError>)
        ensures
            Self::is_range_result(result, digits, digits, rounding),
            result is Ok <==> digits <= MAX_FRACTION_DIGITS,
            result matches Ok(p) ==> p.rounding_mode() == rounding && p.fraction_bounds() == Some(
                (digits as i16, digits as i16),
            ),
    {
        Self::fraction_range(digits, digits, rounding)
    }

    /// What [`Self::fraction_range`] gives for its arguments.
    pub open spec fn range_result(minimum: u16, maximum: u16, rounding: RoundingMode) -> Result<
        (Option<(i16, i16)>, RoundingMode),
        PrecisionError,
    > {
        if minimum > maximum {
            Err(PrecisionError::InvalidRange { minimum, maximum })
        } else if maximum > MAX_FRACTION_DIGITS {
            Err(PrecisionError::MagnitudeOutOfRange { digits: maximum })
        } else {
            Ok((Some((minimum as i16, maximum as i16)), rounding))
        }
    }

    /// `result` is what [`Self::range_result`] describes, and valid.
    pub open spec fn is_range_result(
        result: Result<Self, PrecisionError>,
        minimum: u16,
        maximum: u16,
        rounding: RoundingMode,
    ) -> bool {
        match result {
            Ok(p) => Self::range_result(minimum, maximum, rounding) == Ok::<
                (Option<(i16, i16)>, RoundingMode),
                PrecisionError,
            >((p.fraction_bounds(), p.rounding_mode())),
            Err(e) => Self::range_result(minimum, maximum, rounding) == Err::<
                (Option<(i16, i16)>, RoundingMode),
                PrecisionError,
            >(e),
        }
    }

    /// Round to `maximum` fraction digits and show at least `minimum` digits.
    ///
    /// # Errors
    /// Rejects an inverted range or a maximum greater than `i16::MAX`. This
    /// validates formatting precision; plural operand limits are checked later.
    pub fn fraction_range(minimum: u16, maximum: u16, rounding: RoundingMode) -> (result: Result<
        Self,
        PrecisionError,
    >)
        ensures
            Self::is_range_result(result, minimum, maximum, rounding),
            result is Ok <==> minimum <= maximum <= MAX_FRACTION_DIGITS,
            result matches Ok(p) ==> p.rounding_mode() == rounding && p.fraction_bounds() == Some(
                (minimum as i16, maximum as i16),
            ),
    {
        if minimum > maximum {
            return Err(PrecisionError::InvalidRange { minimum, maximum });
        }
        if maximum > MAX_FRACTION_DIGITS {
            return Err(PrecisionError::MagnitudeOutOfRange { digits: maximum });
        }
        Ok(Precision { fraction: Some((minimum as i16, maximum as i16)), rounding })
    }
}


impl Precision {
    /// The value that this policy prepares from `value`: unchanged when
    /// preserving; otherwise rounded to `maximum` fraction digits, then
    /// stripped of trailing zeros and padded back to `minimum`. A rounding
    /// that carries past the largest magnitude is an error, not zero.
    pub open spec fn prepared(self, value: DecimalModel) -> Result<DecimalModel, PrecisionError> {
        match self.fraction_bounds() {
            None => Ok(value),
            Some((minimum, maximum)) => {
                let rounded = rounded_model(value, maximum as nat, self.rounding_mode());
                if rounded.is_zero() && !value.is_zero() && value.nonzero_magnitude_start() >= 0 {
                    Err(PrecisionError::RoundingOverflow)
                } else {
                    Ok(rounded.trimmed_end().padded_end(-minimum))
                }
            },
        }
    }

    /// What this policy leaves: any decimal when preserving; otherwise
    /// between `minimum` and `maximum` fraction digits, the last nonzero when
    /// there are more than `minimum`. Preparing such a decimal returns it
    /// unchanged, so preparing twice is preparing once.
    pub open spec fn is_prepared_shape(self, value: DecimalModel) -> bool {
        self.fraction_bounds() matches Some((minimum, maximum)) ==> {
            &&& minimum <= value.fraction.len() <= maximum
            &&& value.fraction.len() > minimum ==> value.fraction.last() != 0
        }
    }

    /// Apply this policy to `value`, which is left unchanged.
    ///
    /// # Errors
    /// Returns [`PrecisionError::RoundingOverflow`] if rounding carries past the
    /// largest magnitude a decimal can hold.
    pub fn prepare(self, value: &Decimal) -> (result: Result<Decimal, PrecisionError>)
        ensures
            match result {
                Ok(d) => self.prepared(value@) == Ok::<DecimalModel, PrecisionError>(d@),
                Err(e) => self.prepared(value@) == Err::<DecimalModel, PrecisionError>(e),
            },
            self.fraction_bounds() is None ==> (result matches Ok(d) && d@ == value@),
            result matches Ok(d) ==> self.is_prepared_shape(d@),
            self.is_prepared_shape(value@) ==> (result matches Ok(d) && d@ == value@),
            self.fraction_bounds() matches Some((minimum, maximum)) ==> (
            value@.significant_fraction_len() <= maximum ==> (result matches Ok(d) && d@
                == value@.trimmed_end().padded_end(-minimum))),
    {
        proof {
            use_type_invariant(&self);
        }
        let (minimum, maximum) = match self.fraction {
            None => return Ok(value.duplicate()),
            Some(bounds) => bounds,
        };
        let text = value.to_text();
        proof {
            if self.is_prepared_shape(value@) {
                lemma_trim_pad_fixed_point(value@, minimum as nat);
            }
        }
        let rounded = round_text(&text, -maximum, self.rounding);
        let mut prepared = match Decimal::from_text(&rounded) {
            Some(d) => d,
            None => return Err(PrecisionError::RoundingOverflow),
        };
        proof {
            if value@.significant_fraction_len() <= maximum {
                lemma_padding_keeps_digits(value@, -maximum as int);
            }
        }
        // Upstream signals rounding overflow by clearing the significant digits.
        // Fraction rounding cannot turn a nonzero integer part into zero otherwise.
        if prepared.is_zero() && !value.is_zero() && value.nonzero_magnitude_start() >= 0 {
            return Err(PrecisionError::RoundingOverflow);
        }
        let ghost rounded_value = prepared@;
        prepared.trim_end();
        prepared.pad_end(-minimum);
        proof {
            lemma_trimmed_then_padded(rounded_value, minimum as nat);
            if value@.significant_fraction_len() <= maximum {
                lemma_padding_keeps_digits(value@, -maximum as int);
            }
        }
        Ok(prepared)
    }
}


/// A policy built from a fraction range keeps exactly what the caller asked
/// for: it exists when the range is ordered and its maximum fits a magnitude,
/// and then rounds with the caller's mode between the caller's bounds.
pub proof fn lemma_range_keeps_arguments(
    result: Result<Precision, PrecisionError>,
    minimum: u16,
    maximum: u16,
    rounding: RoundingMode,
)
    requires
        Precision::is_range_result(result, minimum, maximum, rounding),
    ensures
        result is Ok <==> minimum <= maximum <= MAX_FRACTION_DIGITS,
        result matches Ok(p) ==> p.rounding_mode() == rounding && p.fraction_bounds() == Some(
            (minimum as i16, maximum as i16),
        ),
        result matches Err(e) ==> e == (if minimum > maximum {
            PrecisionError::InvalidRange { minimum, maximum }
        } else {
            PrecisionError::MagnitudeOutOfRange { digits: maximum }
        }),
{
}

/// Preparing fails only when rounding carries past the largest magnitude.
pub proof fn lemma_prepared_fails_only_by_overflow(precision: Precision, value: DecimalModel)
    ensures
        precision.prepared(value) matches Err(e) ==> e == PrecisionError::RoundingOverflow,
{
}

/// Preserving is the identity: the prepared decimal is the input, with its
/// sign, padding and visible trailing zeros.
pub proof fn lemma_preserve_is_identity(precision: Precision, value: DecimalModel)
    requires
        precision.fraction_bounds() is None,
    ensures
        precision.prepared(value) == Ok::<DecimalModel, PrecisionError>(value),
{
}

impl Default for Precision {
    fn default() -> (precision: Self)
        ensures
            precision.fraction_bounds() is None,
            precision.rounding_mode() == RoundingMode::Unsigned(UnsignedRoundingMode::HalfEven),
    {
        Self::preserve()
    }
}

} // verus!
