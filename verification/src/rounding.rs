//! The numeric meaning of a decimal and of rounding it at a fraction position.
//!
//! A decimal's digits, read as one integer, count units of `10^-f` where `f` is
//! its fraction length. Rounding to `n` fraction digits picks a multiple of
//! `10^-n` next to the exact value, as the rounding mode says; the layout of the
//! result keeps the sign and the integer padding and shows exactly `n` fraction
//! digits.
use crate::decimal::{
    is_digits, is_zero_digits, lemma_leading_zeros_bound, lemma_trailing_zeros_shape,
    lemma_trimmed_then_padded, nat_digits, pow10, with_zeros, DecimalModel, Sign,
    MAX_PART_DIGITS,
};
use crate::error::PrecisionError;
use crate::precision::{Precision, RoundingMode, UnsignedRoundingMode};
use vstd::arithmetic::div_mod::{
    lemma_div_denominator, lemma_div_multiples_vanish, lemma_fundamental_div_mod,
    lemma_div_is_ordered, lemma_fundamental_div_mod_converse, lemma_mod_multiples_basic,
    lemma_mod_pos_bound, lemma_multiply_divide_lt, lemma_small_mod,
};
use vstd::prelude::*;

verus! {

/// The integer that digit values spell, most significant first.
pub open spec fn digits_value(s: Seq<u8>) -> nat
    decreases s.len(),
{
    if s.len() == 0 {
        0
    } else {
        digits_value(s.drop_last()) * 10 + s.last() as nat
    }
}

/// The digit of `x` at power `i` of ten.
pub open spec fn digit_of(x: nat, i: nat) -> u8 {
    ((x / pow10(i)) % 10) as u8
}

/// The last `len` decimal digits of `x`, zero padded on the left.
pub open spec fn padded_digits(x: nat, len: nat) -> Seq<u8> {
    Seq::new(len, |i: int| digit_of(x, (len - 1 - i) as nat))
}

/// The absolute value of a decimal in units of its last visible digit.
pub open spec fn units(m: DecimalModel) -> nat {
    digits_value(m.integer + m.fraction)
}

/// The value of a decimal in units of `10^-scale`, negative for a minus sign;
/// meant for a scale at least its fraction length.
pub open spec fn scaled_value(m: DecimalModel, scale: nat) -> int {
    let magnitude = units(m) * pow10((scale - m.fraction.len()) as nat);
    if m.sign == Sign::Negative {
        -magnitude
    } else {
        magnitude as int
    }
}

/// The absolute value.
pub open spec fn abs(x: int) -> int {
    if x < 0 {
        -x
    } else {
        x
    }
}

/// `result` is a rounding of `value` to a multiple of `unit` as `mode` defines
/// it: a neighbouring multiple; for the directed modes the one towards zero,
/// away from zero, up or down; for the half modes the nearest one, a tie going
/// away from zero, towards zero, to an even multiple, up or down.
pub open spec fn rounds_by_mode(value: int, result: int, unit: int, mode: RoundingMode) -> bool {
    let distance = abs(value - result);
    &&& result % unit == 0
    &&& distance < unit
    &&& match mode {
        RoundingMode::Unsigned(UnsignedRoundingMode::Trunc) => abs(result) <= abs(value),
        RoundingMode::Unsigned(UnsignedRoundingMode::Expand) => abs(result) >= abs(value),
        RoundingMode::Ceil => result >= value,
        RoundingMode::Floor => result <= value,
        RoundingMode::Unsigned(UnsignedRoundingMode::HalfExpand) => 2 * distance <= unit && (2
            * distance == unit ==> abs(result) > abs(value)),
        RoundingMode::Unsigned(UnsignedRoundingMode::HalfTrunc) => 2 * distance <= unit && (2
            * distance == unit ==> abs(result) < abs(value)),
        RoundingMode::Unsigned(UnsignedRoundingMode::HalfEven) => 2 * distance <= unit && (2
            * distance == unit ==> (result / unit) % 2 == 0),
        RoundingMode::HalfCeil => 2 * distance <= unit && (2 * distance == unit ==> result
            > value),
        RoundingMode::HalfFloor => 2 * distance <= unit && (2 * distance == unit ==> result
            < value),
    }
}

/// Whether the magnitude steps up from `quotient` to the next multiple, given
/// the remainder below the rounding position in a unit of `unit`.
pub open spec fn steps_up(mode: RoundingMode, negative: bool, quotient: nat, remainder: nat, unit: nat) -> bool {
    let away = remainder > 0;
    let half_away = 2 * remainder >= unit && remainder > 0;
    let half_towards = 2 * remainder > unit;
    match mode {
        RoundingMode::Unsigned(UnsignedRoundingMode::Trunc) => false,
        RoundingMode::Unsigned(UnsignedRoundingMode::Expand) => away,
        RoundingMode::Ceil => !negative && away,
        RoundingMode::Floor => negative && away,
        RoundingMode::Unsigned(UnsignedRoundingMode::HalfExpand) => half_away,
        RoundingMode::Unsigned(UnsignedRoundingMode::HalfTrunc) => half_towards,
        RoundingMode::Unsigned(UnsignedRoundingMode::HalfEven) => half_towards || (2 * remainder
            == unit && quotient % 2 == 1),
        RoundingMode::HalfCeil => if negative {
            half_towards
        } else {
            half_away
        },
        RoundingMode::HalfFloor => if negative {
            half_away
        } else {
            half_towards
        },
    }
}

/// The larger of two lengths.
pub open spec fn max_len(a: nat, b: nat) -> nat {
    if a >= b {
        a
    } else {
        b
    }
}

/// The magnitude of `m` rounded to `digits` fraction digits, in units of
/// `10^-digits`.
pub open spec fn rounded_units(m: DecimalModel, digits: nat, mode: RoundingMode) -> nat {
    let scale = max_len(m.fraction.len(), digits);
    let exact = units(m) * pow10((scale - m.fraction.len()) as nat);
    let unit = pow10((scale - digits) as nat);
    let quotient = exact / unit;
    if steps_up(mode, m.sign == Sign::Negative, quotient, exact % unit, unit) {
        quotient + 1
    } else {
        quotient
    }
}

/// `m` rounded to `digits` fraction digits: same sign, the integer part
/// padded to at least its former length, exactly `digits` fraction digits. A
/// carry past the largest magnitude gives zero instead.
pub open spec fn rounded_model(m: DecimalModel, digits: nat, mode: RoundingMode) -> DecimalModel {
    let r = rounded_units(m, digits, mode);
    if r < pow10(digits + MAX_PART_DIGITS as nat) {
        let whole = r / pow10(digits);
        DecimalModel {
            sign: m.sign,
            integer: padded_digits(whole, max_len(m.integer.len(), nat_digits(whole).len())),
            fraction: padded_digits(r % pow10(digits), digits),
        }
    } else {
        DecimalModel {
            sign: m.sign,
            integer: padded_digits(0, m.integer.len()),
            fraction: padded_digits(0, digits),
        }
    }
}

proof fn lemma_pow10_positive(k: nat)
    ensures
        pow10(k) >= 1,
    decreases k,
{
    if k > 0 {
        lemma_pow10_positive((k - 1) as nat);
    }
}

proof fn lemma_pow10_add(a: nat, b: nat)
    ensures
        pow10(a + b) == pow10(a) * pow10(b),
    decreases a,
{
    if a == 0 {
        assert(pow10(0) == 1);
        assert(a + b == b);
    } else {
        lemma_pow10_add((a - 1) as nat, b);
        assert(pow10(a + b) == 10 * pow10(((a - 1) as nat + b) as nat));
        assert(pow10(a) == 10 * pow10((a - 1) as nat));
        assert(10 * (pow10((a - 1) as nat) * pow10(b)) == (10 * pow10((a - 1) as nat)) * pow10(b))
            by (nonlinear_arith);
    }
}

proof fn lemma_pow10_monotone(a: nat, b: nat)
    requires
        a <= b,
    ensures
        pow10(a) <= pow10(b),
{
    lemma_pow10_add(a, (b - a) as nat);
    lemma_pow10_positive((b - a) as nat);
    assert(pow10(a) <= pow10(a) * pow10((b - a) as nat)) by (nonlinear_arith)
        requires
            pow10((b - a) as nat) >= 1,
    ;
}

/// Digits side by side: the left ones count in units of `10^len(right)`.
proof fn lemma_digits_value_concat(a: Seq<u8>, b: Seq<u8>)
    ensures
        digits_value(a + b) == digits_value(a) * pow10(b.len()) + digits_value(b),
    decreases b.len(),
{
    if b.len() == 0 {
        assert(a + b =~= a);
        assert(pow10(0) == 1);
        assert(digits_value(a) * 1 == digits_value(a));
    } else {
        let b0 = b.drop_last();
        lemma_digits_value_concat(a, b0);
        assert((a + b).drop_last() =~= a + b0);
        assert((a + b).last() == b.last());
        assert(pow10(b.len()) == 10 * pow10(b0.len()));
        let x = digits_value(a);
        let y = digits_value(b0);
        let p = pow10(b0.len());
        let l = b.last() as nat;
        assert(digits_value(a + b) == digits_value(a + b0) * 10 + l);
        assert(digits_value(b) == y * 10 + l);
        assert((x * p + y) * 10 + l == x * (10 * p) + (y * 10 + l)) by (nonlinear_arith);
    }
}

proof fn lemma_digits_value_bound(s: Seq<u8>)
    requires
        is_digits(s),
    ensures
        digits_value(s) < pow10(s.len()),
    decreases s.len(),
{
    if s.len() > 0 {
        let t = s.drop_last();
        assert(is_digits(t)) by {
            assert forall|i: int| 0 <= i < t.len() implies #[trigger] t[i] <= 9 by {
                assert(t[i] == s[i]);
            }
        }
        lemma_digits_value_bound(t);
        assert(s[s.len() - 1] <= 9);
        let x = digits_value(t);
        let p = pow10(t.len());
        let l = s.last() as nat;
        assert(x * 10 + l < 10 * p) by (nonlinear_arith)
            requires
                x < p,
                l <= 9,
        ;
    }
}

proof fn lemma_digits_value_zero(s: Seq<u8>)
    requires
        is_zero_digits(s),
    ensures
        digits_value(s) == 0,
    decreases s.len(),
{
    if s.len() > 0 {
        let t = s.drop_last();
        assert(is_zero_digits(t)) by {
            assert forall|i: int| 0 <= i < t.len() implies #[trigger] t[i] == 0 by {
                assert(t[i] == s[i]);
            }
        }
        lemma_digits_value_zero(t);
        assert(s[s.len() - 1] == 0);
    }
}

proof fn lemma_digits_value_with_zeros(s: Seq<u8>, k: nat)
    ensures
        digits_value(with_zeros(s, k)) == digits_value(s) * pow10(k),
{
    let z = Seq::new(k, |i: int| 0u8);
    lemma_digits_value_concat(s, z);
    lemma_digits_value_zero(z);
}

/// The places of `x` above the last are the places of `x / 10`.
proof fn lemma_padded_digits_drop_last(x: nat, len: nat)
    requires
        len >= 1,
    ensures
        padded_digits(x, len).drop_last() == padded_digits(x / 10, (len - 1) as nat),
        padded_digits(x, len).last() == (x % 10) as u8,
{
    let p = padded_digits(x, len);
    let q = padded_digits(x / 10, (len - 1) as nat);
    assert forall|i: int| 0 <= i < q.len() implies p.drop_last()[i] == q[i] by {
        let k = (len - 2 - i) as nat;
        lemma_pow10_positive(k);
        lemma_div_denominator(x as int, 10, pow10(k) as int);
        assert(pow10(k + 1) == 10 * pow10(k));
        assert((len - 1 - i) as nat == k + 1);
    }
    assert(p.drop_last() =~= q);
    assert(pow10(0) == 1);
    assert(x / 1 == x);
    assert(p[len - 1] == digit_of(x, 0));
}

/// Written with enough places, a number reads back as itself.
proof fn lemma_padded_digits_value(x: nat, len: nat)
    requires
        x < pow10(len),
    ensures
        digits_value(padded_digits(x, len)) == x,
        is_digits(padded_digits(x, len)),
        padded_digits(x, len).len() == len,
    decreases len,
{
    let p = padded_digits(x, len);
    assert forall|i: int| 0 <= i < p.len() implies #[trigger] p[i] <= 9 by {
        let k = (len - 1 - i) as nat;
        lemma_pow10_positive(k);
        lemma_mod_pos_bound((x / pow10(k)) as int, 10);
    }
    if len > 0 {
        let y = x / 10;
        assert(pow10(len) == 10 * pow10((len - 1) as nat));
        assert(y < pow10((len - 1) as nat)) by {
            lemma_multiply_divide_lt(x as int, 10, pow10((len - 1) as nat) as int);
        }
        lemma_padded_digits_value(y, (len - 1) as nat);
        lemma_padded_digits_drop_last(x, len);
        lemma_fundamental_div_mod(x as int, 10);
        lemma_mod_pos_bound(x as int, 10);
    }
}

/// Digits read as a number and written back in as many places are the same
/// digits.
proof fn lemma_value_padded_digits(s: Seq<u8>)
    requires
        is_digits(s),
    ensures
        padded_digits(digits_value(s), s.len()) == s,
    decreases s.len(),
{
    let x = digits_value(s);
    if s.len() == 0 {
        assert(padded_digits(x, 0) =~= s);
    } else {
        let t = s.drop_last();
        assert(is_digits(t)) by {
            assert forall|i: int| 0 <= i < t.len() implies #[trigger] t[i] <= 9 by {
                assert(t[i] == s[i]);
            }
        }
        lemma_value_padded_digits(t);
        assert(s[s.len() - 1] <= 9);
        lemma_fundamental_div_mod_converse(
            x as int,
            10,
            digits_value(t) as int,
            s.last() as int,
        );
        lemma_padded_digits_drop_last(x, s.len());
        let p = padded_digits(x, s.len());
        assert forall|i: int| 0 <= i < s.len() implies p[i] == s[i] by {
            if i < s.len() - 1 {
                assert(p[i] == p.drop_last()[i]);
                assert(s[i] == t[i]);
            }
        }
        assert(p =~= s);
    }
}

/// Below `10^k`, a number has at most `k` digits (at least one).
proof fn lemma_nat_digits_len(n: nat, k: nat)
    requires
        n < pow10(k),
        k >= 1,
    ensures
        nat_digits(n).len() <= k,
    decreases n,
{
    if n >= 10 {
        assert(pow10(k) == 10 * pow10((k - 1) as nat));
        assert(n / 10 < pow10((k - 1) as nat)) by {
            lemma_multiply_divide_lt(n as int, 10, pow10((k - 1) as nat) as int);
        }
        if k == 1 {
            assert(pow10(0) == 1);
        }
        lemma_nat_digits_len(n / 10, (k - 1) as nat);
    }
}

proof fn lemma_padded_zero(len: nat)
    ensures
        is_zero_digits(padded_digits(0, len)),
{
    assert forall|i: int| 0 <= i < len implies #[trigger] padded_digits(0, len)[i] == 0 by {
        let k = (len - 1 - i) as nat;
        lemma_pow10_positive(k);
        assert(0nat / pow10(k) == 0);
    }
}

/// A number is below ten to the count of its digits.
proof fn lemma_nat_digits_bound(n: nat)
    ensures
        n < pow10(nat_digits(n).len()),
    decreases n,
{
    if n >= 10 {
        lemma_nat_digits_bound(n / 10);
        let l = nat_digits(n / 10).len();
        assert(nat_digits(n).len() == l + 1);
        assert(pow10(l + 1) == 10 * pow10(l));
        lemma_fundamental_div_mod(n as int, 10);
        lemma_mod_pos_bound(n as int, 10);
    } else {
        assert(pow10(1) == 10 * pow10(0));
    }
}

/// Without a carry past the largest magnitude, the rounded decimal keeps the
/// sign, shows `digits` fraction digits and counts the rounded units.
proof fn lemma_rounded_model_units(m: DecimalModel, digits: nat, mode: RoundingMode)
    requires
        rounded_units(m, digits, mode) < pow10(digits + MAX_PART_DIGITS as nat),
    ensures
        rounded_model(m, digits, mode).sign == m.sign,
        rounded_model(m, digits, mode).fraction.len() == digits,
        units(rounded_model(m, digits, mode)) == rounded_units(m, digits, mode),
{
    let r = rounded_units(m, digits, mode);
    let p = pow10(digits);
    lemma_pow10_positive(digits);
    let whole = r / p;
    let len = max_len(m.integer.len(), nat_digits(whole).len());
    lemma_nat_digits_bound(whole);
    lemma_pow10_monotone(nat_digits(whole).len(), len);
    lemma_padded_digits_value(whole, len);
    lemma_mod_pos_bound(r as int, p as int);
    lemma_padded_digits_value(r % p, digits);
    lemma_digits_value_concat(padded_digits(whole, len), padded_digits(r % p, digits));
    lemma_fundamental_div_mod(r as int, p as int);
    assert(whole * p == p * whole) by (nonlinear_arith);
}

/// Zeros appended to the fraction leave the value at a fixed scale alone.
proof fn lemma_scaled_value_zeros(m: DecimalModel, k: nat, scale: nat)
    requires
        m.fraction.len() + k <= scale,
    ensures
        scaled_value(DecimalModel { fraction: with_zeros(m.fraction, k), ..m }, scale)
            == scaled_value(m, scale),
{
    let padded = DecimalModel { fraction: with_zeros(m.fraction, k), ..m };
    let f = m.fraction.len();
    assert(padded.integer + padded.fraction =~= with_zeros(m.integer + m.fraction, k));
    lemma_digits_value_with_zeros(m.integer + m.fraction, k);
    let rest = (scale - f - k) as nat;
    lemma_pow10_add(k, rest);
    assert((k + rest) as nat == (scale - f) as nat);
    assert(padded.fraction.len() == f + k);
    let u = units(m);
    assert(u * pow10(k) * pow10(rest) == u * (pow10(k) * pow10(rest))) by (nonlinear_arith);
}

/// Removing trailing fraction zeros and padding back to `minimum` digits
/// keeps the value at any scale that holds both.
proof fn lemma_trim_pad_keeps_value(m: DecimalModel, minimum: nat, scale: nat)
    requires
        m.fraction.len() <= scale,
        minimum <= scale,
    ensures
        scaled_value(m.trimmed_end().padded_end(-(minimum as int)), scale) == scaled_value(
            m,
            scale,
        ),
        m.trimmed_end().padded_end(-(minimum as int)).sign == m.sign,
{
    let q = m.trimmed_end().padded_end(-(minimum as int));
    let sig = m.significant_fraction_len();
    lemma_trimmed_then_padded(m, minimum);
    lemma_trailing_zeros_shape(m.fraction);
    let core = DecimalModel { fraction: m.fraction.take(sig as int), ..m };
    assert(m =~= DecimalModel {
        fraction: with_zeros(core.fraction, (m.fraction.len() - sig) as nat),
        ..core
    });
    assert(q =~= DecimalModel {
        fraction: with_zeros(core.fraction, (q.fraction.len() - sig) as nat),
        ..core
    });
    lemma_scaled_value_zeros(core, (m.fraction.len() - sig) as nat, scale);
    lemma_scaled_value_zeros(core, (q.fraction.len() - sig) as nat, scale);
}

/// A decimal whose integer digits are all zero cannot round past the
/// largest magnitude: its rounded units stay at most `10^digits`.
proof fn lemma_fraction_only_cannot_overflow(m: DecimalModel, digits: nat, mode: RoundingMode)
    requires
        m.wf(),
        is_zero_digits(m.integer),
    ensures
        rounded_units(m, digits, mode) < pow10(digits + MAX_PART_DIGITS as nat),
{
    let f = m.fraction.len();
    let scale = max_len(f, digits);
    let unit = pow10((scale - digits) as nat);
    lemma_digits_value_concat(m.integer, m.fraction);
    lemma_digits_value_zero(m.integer);
    lemma_digits_value_bound(m.fraction);
    assert(units(m) < pow10(f));
    let exact = units(m) * pow10((scale - f) as nat);
    lemma_pow10_add(f, (scale - f) as nat);
    lemma_pow10_add(digits, (scale - digits) as nat);
    assert((f + (scale - f) as nat) as nat == scale);
    assert((digits + (scale - digits) as nat) as nat == scale);
    lemma_pow10_positive((scale - f) as nat);
    lemma_pow10_positive((scale - digits) as nat);
    assert(exact < pow10(scale)) by (nonlinear_arith)
        requires
            exact == units(m) * pow10((scale - f) as nat),
            units(m) < pow10(f),
            pow10(scale) == pow10(f) * pow10((scale - f) as nat),
            pow10((scale - f) as nat) >= 1,
    ;
    assert(unit * pow10(digits) == pow10(scale)) by (nonlinear_arith)
        requires
            pow10(scale) == pow10(digits) * unit,
    ;
    lemma_multiply_divide_lt(exact as int, unit as int, pow10(digits) as int);
    lemma_pow10_monotone(digits + 1, digits + MAX_PART_DIGITS as nat);
    assert(pow10(digits + 1) == 10 * pow10(digits));
}

/// Keeping the quotient of `exact` by `unit`, or stepping one unit up as
/// [`steps_up`] says, is the rounding that `mode` defines, on either side of
/// zero.
proof fn lemma_step_rounds_by_mode(exact: nat, unit: nat, mode: RoundingMode, negative: bool)
    requires
        unit >= 1,
    ensures
        ({
            let quotient = exact / unit;
            let kept = if steps_up(mode, negative, quotient, exact % unit, unit) {
                quotient + 1
            } else {
                quotient
            };
            let value = if negative {
                -(exact as int)
            } else {
                exact as int
            };
            let result = if negative {
                -(kept * unit)
            } else {
                (kept * unit) as int
            };
            rounds_by_mode(value, result, unit as int, mode)
        }),
{
    let quotient = exact / unit;
    let remainder = exact % unit;
    let step = steps_up(mode, negative, quotient, remainder, unit);
    let kept: nat = if step {
        quotient + 1
    } else {
        quotient
    };
    lemma_fundamental_div_mod(exact as int, unit as int);
    lemma_mod_pos_bound(exact as int, unit as int);
    let base = quotient * unit;
    assert(exact == base + remainder) by (nonlinear_arith)
        requires
            exact == unit * quotient + remainder,
            base == quotient * unit,
    ;
    assert((quotient + 1) * unit == base + unit) by (nonlinear_arith)
        requires
            base == quotient * unit,
    ;
    let magnitude = kept * unit;
    assert(magnitude == if step {
        base + unit
    } else {
        base
    });
    lemma_mod_multiples_basic(kept as int, unit as int);
    lemma_mod_multiples_basic(-(kept as int), unit as int);
    lemma_div_multiples_vanish(kept as int, unit as int);
    lemma_div_multiples_vanish(-(kept as int), unit as int);
    assert(unit * kept == magnitude && unit * (-(kept as int)) == -magnitude) by (nonlinear_arith)
        requires
            magnitude == kept * unit,
    ;
    assert(step ==> remainder > 0);
}

/// A number with two or more digits is at least ten to one less than their
/// count.
proof fn lemma_nat_digits_lower(n: nat)
    requires
        nat_digits(n).len() >= 2,
    ensures
        n >= pow10((nat_digits(n).len() - 1) as nat),
    decreases n,
{
    let l = nat_digits(n / 10).len();
    assert(nat_digits(n).len() == l + 1);
    if l >= 2 {
        lemma_nat_digits_lower(n / 10);
        assert(pow10(l) == 10 * pow10((l - 1) as nat));
        lemma_fundamental_div_mod(n as int, 10);
        lemma_mod_pos_bound(n as int, 10);
    } else {
        assert(pow10(1) == 10 * pow10(0));
    }
}

/// Rounding keeps the integer padding and widens the integer part by at
/// most one digit, a nonzero one that a carry brought.
proof fn lemma_rounded_integer_width(m: DecimalModel, digits: nat, mode: RoundingMode)
    requires
        m.wf(),
        rounded_units(m, digits, mode) < pow10(digits + MAX_PART_DIGITS as nat),
    ensures
        m.integer.len() <= rounded_model(m, digits, mode).integer.len() <= m.integer.len() + 1,
        rounded_model(m, digits, mode).integer.len() > m.integer.len() ==> rounded_model(
            m,
            digits,
            mode,
        ).integer[0] != 0,
{
    let il = m.integer.len();
    let f = m.fraction.len();
    let scale = max_len(f, digits);
    let unit = pow10((scale - digits) as nat);
    let r = rounded_units(m, digits, mode);
    let p = pow10(digits);
    let whole = r / p;
    let exact = units(m) * pow10((scale - f) as nat);
    assert(is_digits(m.integer + m.fraction)) by {
        let s = m.integer + m.fraction;
        assert forall|i: int| 0 <= i < s.len() implies #[trigger] s[i] <= 9 by {
            if i < il {
                assert(s[i] == m.integer[i]);
            } else {
                assert(s[i] == m.fraction[i - il]);
            }
        }
    }
    lemma_digits_value_bound(m.integer + m.fraction);
    lemma_pow10_add(il + f, (scale - f) as nat);
    lemma_pow10_add(il + digits, (scale - digits) as nat);
    assert((il + f + (scale - f) as nat) as nat == (il + digits + (scale - digits) as nat) as nat);
    lemma_pow10_positive((scale - f) as nat);
    lemma_pow10_positive((scale - digits) as nat);
    lemma_pow10_positive(digits);
    lemma_pow10_positive(il);
    let top = pow10(il + digits);
    assert(exact < top * unit) by (nonlinear_arith)
        requires
            exact == units(m) * pow10((scale - f) as nat),
            units(m) < pow10(il + f),
            pow10(il + f) * pow10((scale - f) as nat) == top * unit,
            pow10((scale - f) as nat) >= 1,
    ;
    assert(top * unit == unit * top) by (nonlinear_arith);
    lemma_multiply_divide_lt(exact as int, unit as int, top as int);
    assert(r <= top);
    lemma_pow10_add(il, digits);
    lemma_div_is_ordered(r as int, top as int, p as int);
    assert(top == p * pow10(il)) by (nonlinear_arith)
        requires
            top == pow10(il) * p,
    ;
    lemma_div_multiples_vanish(pow10(il) as int, p as int);
    assert(whole <= pow10(il));
    assert(pow10(il + 1) == pow10(il) * pow10(1)) by {
        lemma_pow10_add(il, 1);
    }
    assert(pow10(1) == 10 * pow10(0));
    lemma_nat_digits_len(whole, il + 1);
    let len = nat_digits(whole).len();
    if len > il {
        lemma_nat_digits_lower(whole);
        lemma_nat_digits_bound(whole);
        let lower = pow10((len - 1) as nat);
        assert(pow10(len) == 10 * lower);
        lemma_pow10_positive((len - 1) as nat);
        lemma_div_is_ordered(lower as int, whole as int, lower as int);
        lemma_div_multiples_vanish(1, lower as int);
        lemma_multiply_divide_lt(whole as int, lower as int, 10);
        lemma_small_mod(whole / lower, 10);
        assert(padded_digits(whole, len)[0] == digit_of(whole, (len - 1) as nat));
    }
}

/// Rounding uses the policy's own mode, once: when a fraction policy
/// prepares `value`, the prepared decimal keeps the sign and is, at a scale
/// that holds both, the multiple of `10^-maximum` that the policy's mode picks
/// for the exact value of `value` (the nearest one for the half modes, a tie
/// broken as the mode says), never the rounding of an already rounded value.
/// It shows between `minimum` and `maximum` fraction digits, the last nonzero
/// above `minimum`, and keeps the integer padding, gaining at most one leading
/// digit, a nonzero one, from a carry.
pub proof fn lemma_prepare_rounds_by_mode(
    precision: Precision,
    value: DecimalModel,
    minimum: i16,
    maximum: i16,
    prepared: DecimalModel,
)
    requires
        value.wf(),
        0 <= minimum <= maximum,
        precision.fraction_bounds() == Some((minimum, maximum)),
        precision.prepared(value) == Ok::<DecimalModel, PrecisionError>(prepared),
    ensures
        prepared.sign == value.sign,
        minimum <= prepared.fraction.len() <= maximum,
        prepared.fraction.len() > minimum ==> prepared.fraction.last() != 0,
        value.integer.len() <= prepared.integer.len() <= value.integer.len() + 1,
        prepared.integer.len() > value.integer.len() ==> prepared.integer[0] != 0,
        ({
            let scale = max_len(value.fraction.len(), maximum as nat);
            rounds_by_mode(
                scaled_value(value, scale),
                scaled_value(prepared, scale),
                pow10((scale - maximum) as nat) as int,
                precision.rounding_mode(),
            )
        }),
{
    let digits = maximum as nat;
    let mode = precision.rounding_mode();
    let rounded = rounded_model(value, digits, mode);
    let scale = max_len(value.fraction.len(), digits);
    let unit = pow10((scale - digits) as nat);
    let r = rounded_units(value, digits, mode);
    if r >= pow10(digits + MAX_PART_DIGITS as nat) {
        if is_zero_digits(value.integer) {
            lemma_fraction_only_cannot_overflow(value, digits, mode);
        }
        lemma_leading_zeros_bound(value.integer);
        lemma_padded_zero(value.integer.len());
        lemma_padded_zero(digits);
        assert(rounded.is_zero());
        assert(false);
    }
    lemma_rounded_model_units(value, digits, mode);
    lemma_rounded_integer_width(value, digits, mode);
    lemma_trimmed_then_padded(rounded, minimum as nat);
    lemma_trim_pad_keeps_value(rounded, minimum as nat, scale);
    lemma_pow10_positive((scale - digits) as nat);
    lemma_step_rounds_by_mode(
        units(value) * pow10((scale - value.fraction.len()) as nat),
        unit,
        mode,
        value.sign == Sign::Negative,
    );
}

/// Rounding a decimal that has no significant digit below the position
/// changes nothing but the fraction's zeros, whatever the mode: the result is
/// the decimal padded or cut to exactly `digits` fraction digits.
pub proof fn lemma_rounding_pads_short_values(m: DecimalModel, digits: nat, mode: RoundingMode)
    requires
        m.wf(),
        m.significant_fraction_len() <= digits,
    ensures
        rounded_model(m, digits, mode) == m.padded_end(-(digits as int)),
{
    let padded = m.padded_end(-(digits as int));
    let tail = padded.fraction;
    let f = m.fraction.len();
    let scale = max_len(f, digits);
    let unit = pow10((scale - digits) as nat);
    lemma_trailing_zeros_shape(m.fraction);
    assert(tail.len() == digits);
    assert(is_digits(tail)) by {
        assert forall|i: int| 0 <= i < tail.len() implies #[trigger] tail[i] <= 9 by {
            if i < f {
                assert(tail[i] == m.fraction[i]);
            }
        }
    }
    let whole_digits = m.integer + tail;
    let x = digits_value(whole_digits);
    if digits >= f {
        assert(m.integer + m.fraction + Seq::new((digits - f) as nat, |i: int| 0u8)
            =~= whole_digits);
        lemma_digits_value_with_zeros(m.integer + m.fraction, (digits - f) as nat);
        assert(pow10(0) == 1);
        assert(x * 1 == x);
    } else {
        assert(whole_digits + Seq::new((f - digits) as nat, |i: int| 0u8) =~= m.integer
            + m.fraction);
        lemma_digits_value_with_zeros(whole_digits, (f - digits) as nat);
        assert(pow10(0) == 1);
        assert(units(m) * 1 == units(m));
    }
    let exact = units(m) * pow10((scale - f) as nat);
    assert(exact == x * unit);
    lemma_pow10_positive((scale - digits) as nat);
    lemma_div_multiples_vanish(x as int, unit as int);
    lemma_mod_multiples_basic(x as int, unit as int);
    assert(unit * x == x * unit) by (nonlinear_arith);
    assert(rounded_units(m, digits, mode) == x);
    assert(is_digits(whole_digits)) by {
        assert forall|i: int| 0 <= i < whole_digits.len() implies #[trigger] whole_digits[i]
            <= 9 by {
            if i < m.integer.len() {
                assert(whole_digits[i] == m.integer[i]);
            } else {
                assert(whole_digits[i] == tail[i - m.integer.len()]);
            }
        }
    }
    lemma_digits_value_bound(whole_digits);
    lemma_pow10_monotone(whole_digits.len(), digits + MAX_PART_DIGITS as nat);
    let p = pow10(digits);
    lemma_pow10_positive(digits);
    lemma_digits_value_concat(m.integer, tail);
    lemma_digits_value_bound(tail);
    lemma_fundamental_div_mod_converse(
        x as int,
        p as int,
        digits_value(m.integer) as int,
        digits_value(tail) as int,
    );
    lemma_digits_value_bound(m.integer);
    lemma_nat_digits_len(digits_value(m.integer), m.integer.len());
    lemma_value_padded_digits(m.integer);
    lemma_value_padded_digits(tail);
    assert(rounded_model(m, digits, mode) =~= padded);
}

} // verus!
