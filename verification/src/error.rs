//! Checked limits for numeric preparation and plural operands.
use crate::bindings::push_char;
use vstd::prelude::*;

verus! {

/// Invalid requested precision or an unsupported prepared plural operand.
#[derive(Debug, Clone, Copy, PartialEq, Eq, Structural)]
#[non_exhaustive]
pub enum PrecisionError {
    /// Rounding would carry past the maximum integer magnitude of a decimal.
    RoundingOverflow,
    /// The minimum visible fraction length exceeds the maximum.
    InvalidRange {
        /// Requested minimum number of fraction digits.
        minimum: u16,
        /// Requested maximum number of fraction digits.
        maximum: u16,
    },
    /// Fraction precision exceeds the supported signed magnitude range.
    MagnitudeOutOfRange {
        /// Requested number of fraction digits.
        digits: u16,
    },
    /// ICU plural conversion would truncate the prepared visible fraction.
    PluralFractionTooLong {
        /// Number of visible fraction digits after preparation.
        digits: u16,
        /// Maximum number supported by the plural operand conversion.
        maximum: u16,
    },
}

/// The largest number of fraction digits a precision may ask for.
pub const MAX_FRACTION_DIGITS: u16 = 32767;

/// The ASCII decimal digit for `d`.
pub open spec fn digit_char(d: nat) -> char {
    ((d % 10) + 48) as char
}

/// The decimal digits of `n`, most significant first, without padding.
pub open spec fn nat_text(n: nat) -> Seq<char>
    decreases n,
{
    if n < 10 {
        seq![digit_char(n)]
    } else {
        nat_text(n / 10).push(digit_char(n % 10))
    }
}

/// The sentence that describes an error.
pub open spec fn message_text(error: PrecisionError) -> Seq<char> {
    match error {
        PrecisionError::RoundingOverflow => "rounding exceeds the supported Decimal magnitude"@,
        PrecisionError::InvalidRange { minimum, maximum } => "minimum fraction digits ("@
            + nat_text(minimum as nat) + ") exceed maximum ("@ + nat_text(maximum as nat) + ")"@,
        PrecisionError::MagnitudeOutOfRange { digits } => "fraction precision "@ + nat_text(
            digits as nat,
        ) + " exceeds the supported maximum "@ + nat_text(MAX_FRACTION_DIGITS as nat),
        PrecisionError::PluralFractionTooLong { digits, maximum } =>
            "plural selection supports at most "@ + nat_text(maximum as nat)
                + " visible fraction digits, got "@ + nat_text(digits as nat)
                + "; round explicitly or format text without a plural category"@,
    }
}

/// Appends the decimal digits of `n` to `text`.
fn push_number(text: &mut String, n: u16)
    ensures
        final(text)@ == old(text)@ + nat_text(n as nat),
    decreases n,
{
    if n >= 10 {
        push_number(text, n / 10);
    }
    let digit = (n % 10) as u8;
    push_char(text, (digit + 48) as char);
    assert(final(text)@ =~= old(text)@ + nat_text(n as nat)) by {
        if n >= 10 {
            assert(old(text)@ + nat_text((n / 10) as nat) + seq![digit_char((n % 10) as nat)] =~= old(text)@ + nat_text(n as nat));
        }
    }
}

impl PrecisionError {
    /// A sentence describing this error, for display to a developer.
    pub fn message(&self) -> (text: String)
        ensures
            text@ == message_text(*self),
    {
        let mut text = String::new();
        match *self {
            PrecisionError::RoundingOverflow => {
                text.append("rounding exceeds the supported Decimal magnitude");
            },
            PrecisionError::InvalidRange { minimum, maximum } => {
                text.append("minimum fraction digits (");
                push_number(&mut text, minimum);
                text.append(") exceed maximum (");
                push_number(&mut text, maximum);
                text.append(")");
            },
            PrecisionError::MagnitudeOutOfRange { digits } => {
                text.append("fraction precision ");
                push_number(&mut text, digits);
                text.append(" exceeds the supported maximum ");
                push_number(&mut text, MAX_FRACTION_DIGITS);
            },
            PrecisionError::PluralFractionTooLong { digits, maximum } => {
                text.append("plural selection supports at most ");
                push_number(&mut text, maximum);
                text.append(" visible fraction digits, got ");
                push_number(&mut text, digits);
                text.append("; round explicitly or format text without a plural category");
            },
        }
        assert(text@ =~= message_text(*self));
        text
    }
}

} // verus!
