//! An arbitrary-precision decimal with visible leading and trailing zeros.
//!
//! A value is a sign, the digits before the separator (at least one, leading
//! zeros kept as padding) and the digits after it (trailing zeros kept, since
//! they are visible and can change grammar). Its text form is the invariant
//! ASCII form `[-+]?[0-9]+(\.[0-9]+)?` that ICU4X reads and writes.
use crate::bindings::{parse_decimal, parsed_decimal_text, push_char};
use vstd::prelude::*;

verus! {

/// The most digits on either side of the separator: magnitudes are `i16`.
pub const MAX_PART_DIGITS: usize = 32768;

/// The written sign of a decimal.
#[derive(Debug, Clone, Copy, PartialEq, Eq, Hash, Structural)]
pub enum Sign {
    /// No sign, implicitly positive.
    Implicit,
    /// A minus sign; also allowed on zero (`-0.00`).
    Negative,
    /// An explicit plus sign.
    Positive,
}

/// The mathematical view of a [`Decimal`]: sign and digit values, most
/// significant first.
#[verifier::ext_equal]
pub struct DecimalModel {
    pub sign: Sign,
    pub integer: Seq<u8>,
    pub fraction: Seq<u8>,
}

pub open spec fn is_digits(s: Seq<u8>) -> bool {
    forall|i: int| 0 <= i < s.len() ==> #[trigger] s[i] <= 9
}

pub open spec fn is_zero_digits(s: Seq<u8>) -> bool {
    forall|i: int| 0 <= i < s.len() ==> #[trigger] s[i] == 0
}

/// Number of zero digits before the first nonzero one.
pub open spec fn leading_zeros(s: Seq<u8>) -> nat
    decreases s.len(),
{
    if s.len() == 0 {
        0
    } else if s[0] == 0 {
        1 + leading_zeros(s.drop_first())
    } else {
        0
    }
}

/// Number of zero digits after the last nonzero one.
pub open spec fn trailing_zeros(s: Seq<u8>) -> nat
    decreases s.len(),
{
    if s.len() == 0 {
        0
    } else if s.last() == 0 {
        1 + trailing_zeros(s.drop_last())
    } else {
        0
    }
}

/// `s` with `n` zero digits appended.
pub open spec fn with_zeros(s: Seq<u8>, n: nat) -> Seq<u8> {
    s + Seq::new(n, |i: int| 0u8)
}

/// ASCII bytes of digit values.
pub open spec fn digit_bytes(s: Seq<u8>) -> Seq<u8> {
    s.map_values(|d: u8| (d + 48) as u8)
}

/// Digit values of ASCII digit bytes.
pub open spec fn digit_values(s: Seq<u8>) -> Seq<u8> {
    s.map_values(|b: u8| (b - 48) as u8)
}

pub open spec fn is_digit_text(s: Seq<u8>) -> bool {
    forall|i: int| 0 <= i < s.len() ==> 48 <= #[trigger] s[i] <= 57
}

pub open spec fn sign_text(sign: Sign) -> Seq<u8> {
    match sign {
        Sign::Implicit => Seq::empty(),
        Sign::Negative => seq![45u8],
        Sign::Positive => seq![43u8],
    }
}

impl DecimalModel {
    /// At least one integer digit, all parts within `i16` magnitudes.
    pub open spec fn wf(self) -> bool {
        &&& 1 <= self.integer.len() <= MAX_PART_DIGITS
        &&& self.fraction.len() <= MAX_PART_DIGITS
        &&& is_digits(self.integer)
        &&& is_digits(self.fraction)
    }

    /// The numeric value is zero, whatever its sign and padding.
    pub open spec fn is_zero(self) -> bool {
        is_zero_digits(self.integer) && is_zero_digits(self.fraction)
    }

    /// Magnitude of the least significant visible digit.
    pub open spec fn lower_magnitude(self) -> int {
        -(self.fraction.len() as int)
    }

    /// Magnitude of the most significant visible digit, padding included.
    pub open spec fn upper_magnitude(self) -> int {
        self.integer.len() - 1
    }

    /// Magnitude of the most significant nonzero digit; 0 for zero.
    pub open spec fn nonzero_magnitude_start(self) -> int {
        if !is_zero_digits(self.integer) {
            self.integer.len() - 1 - leading_zeros(self.integer)
        } else if !is_zero_digits(self.fraction) {
            -(leading_zeros(self.fraction) + 1)
        } else {
            0
        }
    }

    /// Visible fraction digits up to the last nonzero one.
    pub open spec fn significant_fraction_len(self) -> nat {
        (self.fraction.len() - trailing_zeros(self.fraction)) as nat
    }

    /// Trailing zeros of the fraction removed.
    pub open spec fn trimmed_end(self) -> DecimalModel {
        DecimalModel {
            fraction: self.fraction.take(self.significant_fraction_len() as int),
            ..self
        }
    }

    /// Fraction padded with zeros, or cut back to zeros only, so that exactly
    /// `max(-position, significant fraction)` digits follow the separator;
    /// a positive position changes nothing.
    pub open spec fn padded_end(self, position: int) -> DecimalModel {
        if position > 0 {
            self
        } else {
            let len = if -position >= self.significant_fraction_len() {
                (-position) as nat
            } else {
                self.significant_fraction_len()
            };
            DecimalModel {
                fraction: if len <= self.fraction.len() {
                    self.fraction.take(len as int)
                } else {
                    with_zeros(self.fraction, (len - self.fraction.len()) as nat)
                },
                ..self
            }
        }
    }

    /// Leading zero padding of the integer part removed, keeping one digit.
    pub open spec fn trimmed_start(self) -> DecimalModel {
        let cut = if leading_zeros(self.integer) < self.integer.len() {
            leading_zeros(self.integer) as int
        } else {
            self.integer.len() - 1
        };
        DecimalModel { integer: self.integer.skip(cut), ..self }
    }

    /// The ASCII text: sign, integer digits, and a separator and the fraction
    /// digits when there are any.
    pub open spec fn text(self) -> Seq<u8> {
        sign_text(self.sign) + digit_bytes(self.integer) + if self.fraction.len() == 0 {
            Seq::<u8>::empty()
        } else {
            seq![46u8] + digit_bytes(self.fraction)
        }
    }
}

/// The sign that a text starts with.
pub open spec fn text_sign(t: Seq<u8>) -> Sign {
    if t.len() > 0 && t[0] == 45 {
        Sign::Negative
    } else if t.len() > 0 && t[0] == 43 {
        Sign::Positive
    } else {
        Sign::Implicit
    }
}

/// The text after its sign.
pub open spec fn text_body(t: Seq<u8>) -> Seq<u8> {
    if text_sign(t) == Sign::Implicit {
        t
    } else {
        t.drop_first()
    }
}

/// Index of the first separator, or the length when there is none.
pub open spec fn first_dot(s: Seq<u8>) -> int
    decreases s.len(),
{
    if s.len() == 0 {
        0
    } else if s[0] == 46 {
        0
    } else {
        1 + first_dot(s.drop_first())
    }
}

/// The text is the text of a well-formed decimal.
pub open spec fn is_decimal_text(t: Seq<u8>) -> bool {
    let b = text_body(t);
    let k = first_dot(b);
    &&& 1 <= k <= MAX_PART_DIGITS
    &&& is_digit_text(b.take(k))
    &&& (k == b.len() || (2 <= b.len() - k <= MAX_PART_DIGITS + 1 && is_digit_text(
        b.skip(k + 1),
    )))
}

/// The decimal that a text denotes.
pub open spec fn decode_text(t: Seq<u8>) -> DecimalModel {
    let b = text_body(t);
    let k = first_dot(b);
    DecimalModel {
        sign: text_sign(t),
        integer: digit_values(b.take(k)),
        fraction: if k == b.len() {
            Seq::empty()
        } else {
            digit_values(b.skip(k + 1))
        },
    }
}

proof fn lemma_first_dot(s: Seq<u8>, k: int)
    requires
        0 <= k <= s.len(),
        forall|i: int| 0 <= i < k ==> s[i] != 46,
        k == s.len() || s[k] == 46,
    ensures
        first_dot(s) == k,
    decreases k,
{
    if k > 0 {
        assert forall|i: int| 0 <= i < k - 1 implies s.drop_first()[i] != 46 by {
            assert(s.drop_first()[i] == s[i + 1]);
        }
        if k < s.len() {
            assert(s.drop_first()[k - 1] == s[k]);
        }
        lemma_first_dot(s.drop_first(), k - 1);
    }
}

proof fn lemma_digit_roundtrip(s: Seq<u8>)
    requires
        is_digits(s),
    ensures
        is_digit_text(digit_bytes(s)),
        digit_values(digit_bytes(s)) == s,
{
    assert forall|i: int| 0 <= i < s.len() implies 48 <= #[trigger] digit_bytes(s)[i] <= 57 by {
        assert(s[i] <= 9);
    }
    assert(digit_values(digit_bytes(s)) =~= s);
}

proof fn lemma_digit_text_roundtrip(s: Seq<u8>)
    requires
        is_digit_text(s),
    ensures
        is_digits(digit_values(s)),
        digit_bytes(digit_values(s)) == s,
{
    assert forall|i: int| 0 <= i < s.len() implies #[trigger] digit_values(s)[i] <= 9 by {
        assert(48 <= s[i] <= 57);
    }
    assert forall|i: int| 0 <= i < s.len() implies #[trigger] digit_bytes(digit_values(s))[i]
        == s[i] by {
        assert(48 <= s[i] <= 57);
    }
    assert(digit_bytes(digit_values(s)) =~= s);
}

/// The text of a well-formed decimal reads back as that decimal.
pub proof fn lemma_text_decodes(m: DecimalModel)
    requires
        m.wf(),
    ensures
        is_decimal_text(m.text()),
        decode_text(m.text()) == m,
{
    let t = m.text();
    let s = sign_text(m.sign);
    let di = digit_bytes(m.integer);
    let rest = if m.fraction.len() == 0 {
        Seq::<u8>::empty()
    } else {
        seq![46u8] + digit_bytes(m.fraction)
    };
    lemma_digit_roundtrip(m.integer);
    lemma_digit_roundtrip(m.fraction);
    assert(t == s + di + rest);
    assert(48 <= di[0] <= 57);
    let b = di + rest;
    if m.sign == Sign::Implicit {
        assert(t[0] == di[0]);
        assert(text_sign(t) == Sign::Implicit);
        assert(text_body(t) =~= b);
    } else {
        assert(t[0] == s[0]);
        assert(text_sign(t) == m.sign);
        assert(text_body(t) =~= b);
    }
    assert forall|i: int| 0 <= i < di.len() implies b[i] != 46 by {
        assert(b[i] == di[i]);
    }
    if m.fraction.len() != 0 {
        assert(b[di.len() as int] == 46);
    }
    lemma_first_dot(b, di.len() as int);
    assert(b.take(di.len() as int) =~= di);
    if m.fraction.len() != 0 {
        assert(b.skip(di.len() as int + 1) =~= digit_bytes(m.fraction));
    }
    assert(decode_text(t) =~= m);
}

/// A decimal text is the text of the decimal it denotes.
pub proof fn lemma_decoded_text(t: Seq<u8>)
    requires
        is_decimal_text(t),
    ensures
        decode_text(t).wf(),
        decode_text(t).text() == t,
{
    let b = text_body(t);
    let k = first_dot(b);
    let m = decode_text(t);
    lemma_digit_text_roundtrip(b.take(k));
    if k < b.len() {
        lemma_digit_text_roundtrip(b.skip(k + 1));
        assert(b[k] == 46) by {
            lemma_first_dot_found(b);
        }
        assert(b =~= b.take(k) + (seq![46u8] + b.skip(k + 1)));
    } else {
        assert(b =~= b.take(k));
    }
    assert(m.text() == sign_text(m.sign) + b);
    if text_sign(t) == Sign::Implicit {
        assert(sign_text(m.sign) + b =~= t);
    } else if text_sign(t) == Sign::Negative {
        assert(sign_text(m.sign) + b =~= t);
    } else {
        assert(sign_text(m.sign) + b =~= t);
    }
}

proof fn lemma_first_dot_found(s: Seq<u8>)
    ensures
        0 <= first_dot(s) <= s.len(),
        first_dot(s) < s.len() ==> s[first_dot(s)] == 46,
        forall|i: int| 0 <= i < first_dot(s) ==> s[i] != 46,
    decreases s.len(),
{
    if s.len() > 0 && s[0] != 46 {
        lemma_first_dot_found(s.drop_first());
        assert forall|i: int| 0 <= i < first_dot(s) implies s[i] != 46 by {
            if i > 0 {
                assert(s[i] == s.drop_first()[i - 1]);
            }
        }
    }
}


/// An arbitrary-precision decimal number with visible zero padding.
///
/// Construct one by parsing an invariant decimal string (`"1.0"`, `"-0.00"`,
/// `"1e3"`) or from an integer; never through a float.
#[derive(Debug)]
pub struct Decimal {
    sign: Sign,
    integer: Vec<u8>,
    fraction: Vec<u8>,
}

impl View for Decimal {
    type V = DecimalModel;

    closed spec fn view(&self) -> DecimalModel {
        DecimalModel { sign: self.sign, integer: self.integer@, fraction: self.fraction@ }
    }
}

impl Decimal {
    #[verifier::type_invariant]
    closed spec fn inv(self) -> bool {
        self@.wf()
    }

    /// The ASCII text of this decimal.
    pub fn to_text(&self) -> (text: Vec<u8>)
        ensures
            text@ == self@.text(),
            is_decimal_text(text@),
            decode_text(text@) == self@,
    {
        proof {
            use_type_invariant(self);
            lemma_text_decodes(self@);
        }
        let mut text: Vec<u8> = Vec::new();
        match self.sign {
            Sign::Implicit => {},
            Sign::Negative => text.push(45u8),
            Sign::Positive => text.push(43u8),
        }
        assert(text@ == sign_text(self.sign));
        let n = self.integer.len();
        for i in 0..n
            invariant
                n == self.integer.len(),
                is_digits(self.integer@),
                text@ == sign_text(self.sign) + digit_bytes(self.integer@.take(i as int)),
        {
            let d = self.integer[i];
            assert(d <= 9);
            text.push(d + 48);
            assert(self.integer@.take(i + 1) =~= self.integer@.take(i as int).push(d));
            assert(digit_bytes(self.integer@.take(i + 1)) =~= digit_bytes(
                self.integer@.take(i as int),
            ).push((d + 48) as u8));
        }
        assert(self.integer@.take(n as int) =~= self.integer@);
        let ghost head = text@;
        let m = self.fraction.len();
        if m > 0 {
            text.push(46u8);
            for i in 0..m
                invariant
                    m == self.fraction.len(),
                    is_digits(self.fraction@),
                    text@ == head + seq![46u8] + digit_bytes(self.fraction@.take(i as int)),
            {
                let d = self.fraction[i];
                assert(d <= 9);
                text.push(d + 48);
                assert(self.fraction@.take(i + 1) =~= self.fraction@.take(i as int).push(d));
                assert(digit_bytes(self.fraction@.take(i + 1)) =~= digit_bytes(
                    self.fraction@.take(i as int),
                ).push((d + 48) as u8));
            }
            assert(self.fraction@.take(m as int) =~= self.fraction@);
            assert(text@ =~= self@.text());
        } else {
            assert(text@ =~= self@.text());
        }
        text
    }

    /// A copy with the same view.
    pub fn duplicate(&self) -> (copy: Decimal)
        ensures
            copy@ == self@,
    {
        proof {
            use_type_invariant(self);
        }
        let copy = Decimal {
            sign: self.sign,
            integer: self.integer.clone(),
            fraction: self.fraction.clone(),
        };
        assert(copy.integer@ =~= self.integer@);
        assert(copy.fraction@ =~= self.fraction@);
        copy
    }

    /// Reads the ASCII text of a decimal; `None` for any other text.
    pub fn from_text(text: &[u8]) -> (result: Option<Decimal>)
        ensures
            result is Some <==> is_decimal_text(text@),
            result matches Some(d) ==> d@ == decode_text(text@) && d@.text() == text@,
    {
        let n = text.len();
        if n == 0 {
            assert(first_dot(text_body(text@)) == 0);
            return None;
        }
        let (sign, start) = if text[0] == 45 {
            (Sign::Negative, 1usize)
        } else if text[0] == 43 {
            (Sign::Positive, 1usize)
        } else {
            (Sign::Implicit, 0usize)
        };
        let ghost body = text_body(text@);
        assert(body =~= text@.skip(start as int));
        let mut k = start;
        while k < n && text[k] != 46
            invariant
                start <= k <= n,
                n == text@.len(),
                body == text@.skip(start as int),
                forall|i: int| start <= i < k ==> text@[i] != 46,
            decreases n - k,
        {
            k = k + 1;
        }
        proof {
            assert forall|i: int| 0 <= i < k - start implies body[i] != 46 by {
                assert(body[i] == text@[i + start]);
            }
            if k < n {
                assert(body[k - start] == text@[k as int]);
            }
            lemma_first_dot(body, k - start);
        }
        let int_len = k - start;
        if int_len < 1 || int_len > MAX_PART_DIGITS {
            return None;
        }
        assert(body.take(k - start) =~= text@.subrange(start as int, k as int));
        let integer = match digits_from_text(text, start, k) {
            Some(digits) => digits,
            None => return None,
        };
        let fraction = if k < n {
            let frac_len = n - k - 1;
            if frac_len < 1 || frac_len > MAX_PART_DIGITS {
                return None;
            }
            assert(body.skip(k + 1 - start) =~= text@.subrange(k + 1, n as int));
            match digits_from_text(text, k + 1, n) {
                Some(digits) => digits,
                None => return None,
            }
        } else {
            Vec::new()
        };
        let result = Decimal { sign, integer, fraction };
        proof {
            assert(result@ =~= decode_text(text@));
            lemma_decoded_text(text@);
        }
        Some(result)
    }
}


/// Digit values of `text[from..to]`, or `None` when a byte there is no ASCII digit.
fn digits_from_text(text: &[u8], from: usize, to: usize) -> (digits: Option<Vec<u8>>)
    requires
        from <= to <= text@.len(),
    ensures
        digits is Some <==> is_digit_text(text@.subrange(from as int, to as int)),
        digits matches Some(v) ==> v@ == digit_values(text@.subrange(from as int, to as int)),
{
    let ghost part = text@.subrange(from as int, to as int);
    let mut digits: Vec<u8> = Vec::new();
    for i in from..to
        invariant
            from <= to <= text@.len(),
            part == text@.subrange(from as int, to as int),
            digits@ == digit_values(part.take(i - from)),
            is_digit_text(part.take(i - from)),
    {
        let b = text[i];
        if b < 48 || b > 57 {
            assert(part[i - from] == b);
            return None;
        }
        digits.push(b - 48);
        assert(part.take(i + 1 - from) =~= part.take(i - from).push(b));
        assert(digits@ =~= digit_values(part.take(i + 1 - from)));
    }
    assert(part.take(to - from) =~= part);
    Some(digits)
}

proof fn lemma_leading_zeros(s: Seq<u8>, i: int)
    requires
        0 <= i <= s.len(),
        forall|j: int| 0 <= j < i ==> s[j] == 0,
        i == s.len() || s[i] != 0,
    ensures
        leading_zeros(s) == i,
    decreases i,
{
    if i > 0 {
        assert forall|j: int| 0 <= j < i - 1 implies s.drop_first()[j] == 0 by {
            assert(s.drop_first()[j] == s[j + 1]);
        }
        if i < s.len() {
            assert(s.drop_first()[i - 1] == s[i]);
        }
        lemma_leading_zeros(s.drop_first(), i - 1);
    }
}

proof fn lemma_trailing_zeros(s: Seq<u8>, i: int)
    requires
        0 <= i <= s.len(),
        forall|j: int| s.len() - i <= j < s.len() ==> s[j] == 0,
        i == s.len() || s[s.len() - 1 - i] != 0,
    ensures
        trailing_zeros(s) == i,
    decreases i,
{
    if i > 0 {
        let t = s.drop_last();
        assert forall|j: int| t.len() - (i - 1) <= j < t.len() implies t[j] == 0 by {
            assert(t[j] == s[j]);
        }
        if i < s.len() {
            assert(t[t.len() - 1 - (i - 1)] == s[s.len() - 1 - i]);
        }
        lemma_trailing_zeros(t, i - 1);
    }
}

pub(crate) proof fn lemma_trailing_zeros_shape(s: Seq<u8>)
    ensures
        trailing_zeros(s) <= s.len(),
        forall|j: int| s.len() - trailing_zeros(s) <= j < s.len() ==> s[j] == 0,
        trailing_zeros(s) < s.len() ==> s[s.len() - 1 - trailing_zeros(s)] != 0,
    decreases s.len(),
{
    if s.len() > 0 && s.last() == 0 {
        let t = s.drop_last();
        lemma_trailing_zeros_shape(t);
        assert forall|j: int| s.len() - trailing_zeros(s) <= j < s.len() implies s[j] == 0 by {
            if j < s.len() - 1 {
                assert(s[j] == t[j]);
            }
        }
        if trailing_zeros(s) < s.len() {
            assert(s[s.len() - 1 - trailing_zeros(s)] == t[t.len() - 1 - trailing_zeros(t)]);
        }
    }
}

/// Stripping trailing fraction zeros and then padding to `minimum` digits
/// keeps the sign, the integer digits and the significant fraction digits,
/// and leaves `max(minimum, significant)` fraction digits, the last nonzero
/// when there are more than `minimum`.
pub proof fn lemma_trimmed_then_padded(m: DecimalModel, minimum: nat)
    ensures
        ({
            let q = m.trimmed_end().padded_end(-(minimum as int));
            let sig = m.significant_fraction_len();
            &&& sig <= m.fraction.len()
            &&& q.sign == m.sign
            &&& q.integer == m.integer
            &&& q.fraction.len() == if minimum >= sig {
                minimum
            } else {
                sig
            }
            &&& forall|i: int| 0 <= i < sig ==> #[trigger] q.fraction[i] == m.fraction[i]
            &&& forall|i: int| sig <= i < q.fraction.len() ==> #[trigger] q.fraction[i] == 0
            &&& q.fraction.len() > minimum ==> q.fraction.last() != 0
        }),
{
    let t = m.trimmed_end();
    let sig = m.significant_fraction_len();
    lemma_trailing_zeros_shape(m.fraction);
    lemma_trailing_zeros_shape(t.fraction);
    assert(t.fraction.len() == sig);
    if sig > 0 {
        assert(t.fraction.last() == m.fraction[m.fraction.len() - 1 - trailing_zeros(m.fraction)]);
        assert(trailing_zeros(t.fraction) == 0);
    } else {
        assert(trailing_zeros(t.fraction) == 0);
    }
    assert(t.significant_fraction_len() == sig);
}

/// Removing leading padding drops only zero digits before the first nonzero
/// integer digit (keeping at least one digit), and keeps the sign and every
/// fraction digit, trailing zeros included.
pub proof fn lemma_trimmed_start_drops_only_padding(m: DecimalModel)
    requires
        m.wf(),
    ensures
        ({
            let t = m.trimmed_start();
            let cut = m.integer.len() - t.integer.len();
            &&& t.sign == m.sign
            &&& t.fraction == m.fraction
            &&& 1 <= t.integer.len() <= m.integer.len()
            &&& t.integer == m.integer.skip(cut)
            &&& is_zero_digits(m.integer.take(cut))
            &&& t.integer.len() == 1 || t.integer[0] != 0
        }),
{
    lemma_leading_zeros_bound(m.integer);
    lemma_leading_zeros_prefix(m.integer);
    let t = m.trimmed_start();
    let cut = m.integer.len() - t.integer.len();
    assert forall|i: int| 0 <= i < cut implies #[trigger] m.integer.take(cut)[i] == 0 by {
        assert(m.integer.take(cut)[i] == m.integer[i]);
    }
}

proof fn lemma_leading_zeros_prefix(s: Seq<u8>)
    ensures
        forall|i: int| 0 <= i < leading_zeros(s) ==> s[i] == 0,
        leading_zeros(s) < s.len() ==> s[leading_zeros(s) as int] != 0,
    decreases s.len(),
{
    lemma_leading_zeros_bound(s);
    if s.len() > 0 && s[0] == 0 {
        lemma_leading_zeros_prefix(s.drop_first());
        assert forall|i: int| 0 <= i < leading_zeros(s) implies s[i] == 0 by {
            if i > 0 {
                assert(s[i] == s.drop_first()[i - 1]);
            }
        }
        if leading_zeros(s) < s.len() {
            assert(s[leading_zeros(s) as int] == s.drop_first()[leading_zeros(s.drop_first()) as int]);
        }
    }
}

/// Digits that are zero from index `k` on, with a nonzero digit just before
/// `k` when `k > 0`, have `k` significant digits.
proof fn lemma_significant_len(s: Seq<u8>, k: int)
    requires
        0 <= k <= s.len(),
        forall|j: int| k <= j < s.len() ==> s[j] == 0,
        k == 0 || s[k - 1] != 0,
    ensures
        s.len() - trailing_zeros(s) == k,
{
    lemma_trailing_zeros(s, s.len() - k);
}

/// Fraction digits are all zero exactly when none is significant.
proof fn lemma_zero_fraction(s: Seq<u8>)
    ensures
        is_zero_digits(s) <==> trailing_zeros(s) == s.len(),
{
    lemma_trailing_zeros_shape(s);
    if trailing_zeros(s) == s.len() {
        assert forall|i: int| 0 <= i < s.len() implies #[trigger] s[i] == 0 by {}
    }
}

/// Padding or cutting zeros at or below the last significant fraction digit
/// keeps the value: the same digits remain once trailing zeros are removed,
/// and the decimal is zero exactly when it was.
pub proof fn lemma_padding_keeps_digits(m: DecimalModel, position: int)
    requires
        position <= 0,
        m.significant_fraction_len() <= -position,
    ensures
        m.padded_end(position).trimmed_end() == m.trimmed_end(),
        m.padded_end(position).is_zero() <==> m.is_zero(),
{
    let r = m.padded_end(position);
    let sig = m.significant_fraction_len() as int;
    lemma_trailing_zeros_shape(m.fraction);
    assert(r.fraction.len() == -position);
    assert forall|j: int| 0 <= j < r.fraction.len() implies #[trigger] r.fraction[j] == (if j
        < m.fraction.len() {
        m.fraction[j]
    } else {
        0u8
    }) by {}
    assert forall|j: int| sig <= j < r.fraction.len() implies r.fraction[j] == 0 by {}
    if sig > 0 {
        assert(m.fraction[sig - 1] != 0);
        assert(r.fraction[sig - 1] != 0);
    }
    lemma_significant_len(r.fraction, sig);
    assert(r.trimmed_end().fraction =~= m.trimmed_end().fraction);
    assert(r.trimmed_end() =~= m.trimmed_end());
    lemma_zero_fraction(m.fraction);
    lemma_zero_fraction(r.fraction);
}

/// A decimal with at least `minimum` fraction digits, whose last digit is
/// nonzero when it has more, is unchanged by trimming and padding to
/// `minimum`.
pub proof fn lemma_trim_pad_fixed_point(d: DecimalModel, minimum: nat)
    requires
        minimum <= d.fraction.len(),
        d.fraction.len() > minimum ==> d.fraction.last() != 0,
    ensures
        d.significant_fraction_len() <= d.fraction.len(),
        d.trimmed_end().padded_end(-(minimum as int)) == d,
{
    lemma_trimmed_then_padded(d, minimum);
    lemma_trailing_zeros_shape(d.fraction);
    let q = d.trimmed_end().padded_end(-(minimum as int));
    if d.fraction.len() > minimum {
        assert(trailing_zeros(d.fraction) == 0);
    }
    assert(q.fraction =~= d.fraction);
    assert(q =~= d);
}

/// `m` with `k` more zero digits of leading padding.
pub open spec fn with_leading_zeros(m: DecimalModel, k: nat) -> DecimalModel {
    DecimalModel { integer: Seq::new(k, |i: int| 0u8) + m.integer, ..m }
}

proof fn lemma_leading_zeros_of_padded(s: Seq<u8>, k: nat)
    ensures
        leading_zeros(Seq::new(k, |i: int| 0u8) + s) == k + leading_zeros(s),
    decreases k,
{
    let p = Seq::new(k, |i: int| 0u8) + s;
    if k > 0 {
        let q = Seq::new((k - 1) as nat, |i: int| 0u8) + s;
        assert(p.drop_first() =~= q);
        assert(p[0] == 0);
        lemma_leading_zeros_of_padded(s, (k - 1) as nat);
    } else {
        assert(p =~= s);
    }
}

/// Leading padding is presentation only: removing it from a decimal padded
/// with more leading zeros gives the same decimal as removing it from the
/// decimal itself.
pub proof fn lemma_leading_padding_is_trimmed(m: DecimalModel, k: nat)
    requires
        m.wf(),
    ensures
        with_leading_zeros(m, k).trimmed_start() == m.trimmed_start(),
{
    let w = with_leading_zeros(m, k);
    lemma_leading_zeros_of_padded(m.integer, k);
    lemma_leading_zeros_bound(m.integer);
    if leading_zeros(m.integer) < m.integer.len() {
        assert(w.integer.skip((k + leading_zeros(m.integer)) as int) =~= m.integer.skip(
            leading_zeros(m.integer) as int,
        ));
    } else {
        assert(w.integer.skip(w.integer.len() - 1) =~= m.integer.skip(m.integer.len() - 1));
    }
    assert(w.trimmed_start() =~= m.trimmed_start());
}

/// Without leading padding, removing leading padding changes nothing.
pub proof fn lemma_untrimmed_start(m: DecimalModel)
    requires
        m.wf(),
        m.upper_magnitude() <= (if m.nonzero_magnitude_start() > 0 {
            m.nonzero_magnitude_start()
        } else {
            0
        }),
    ensures
        m.trimmed_start() == m,
{
    if !is_zero_digits(m.integer) {
        lemma_leading_zeros_bound(m.integer);
        assert(m.integer.skip(0) =~= m.integer);
    } else {
        lemma_zero_digits_leading(m.integer);
        assert(m.integer.skip(0) =~= m.integer);
    }
    assert(m.trimmed_start() =~= m);
}

pub(crate) proof fn lemma_leading_zeros_bound(s: Seq<u8>)
    ensures
        leading_zeros(s) <= s.len(),
        leading_zeros(s) == s.len() <==> is_zero_digits(s),
    decreases s.len(),
{
    if s.len() > 0 {
        lemma_leading_zeros_bound(s.drop_first());
        if s[0] == 0 {
            if is_zero_digits(s.drop_first()) {
                assert forall|i: int| 0 <= i < s.len() implies #[trigger] s[i] == 0 by {
                    if i > 0 {
                        assert(s[i] == s.drop_first()[i - 1]);
                    }
                }
            } else {
                let j = choose|j: int| 0 <= j < s.drop_first().len() && s.drop_first()[j] != 0;
                assert(s[j + 1] != 0);
            }
            if is_zero_digits(s) {
                assert forall|i: int| 0 <= i < s.drop_first().len() implies #[trigger] s.drop_first()[i] == 0 by {
                    assert(s[i + 1] == 0);
                }
            }
        } else {
            assert(!is_zero_digits(s)) by {
                assert(s[0] != 0);
            }
        }
    }
}

proof fn lemma_zero_digits_leading(s: Seq<u8>)
    requires
        is_zero_digits(s),
    ensures
        leading_zeros(s) == s.len(),
{
    lemma_leading_zeros_bound(s);
}

/// Index of the first nonzero digit, or the length when all are zero.
fn first_nonzero(digits: &Vec<u8>) -> (index: usize)
    ensures
        index <= digits@.len(),
        forall|j: int| 0 <= j < index ==> digits@[j] == 0,
        index < digits@.len() ==> digits@[index as int] != 0,
        index == leading_zeros(digits@),
        is_zero_digits(digits@) <==> index == digits@.len(),
{
    let mut i: usize = 0;
    while i < digits.len() && digits[i] == 0
        invariant
            i <= digits@.len(),
            forall|j: int| 0 <= j < i ==> digits@[j] == 0,
        decreases digits@.len() - i,
    {
        i = i + 1;
    }
    proof {
        lemma_leading_zeros(digits@, i as int);
    }
    i
}

/// Number of zero digits at the end.
fn count_trailing_zeros(digits: &Vec<u8>) -> (count: usize)
    ensures
        count <= digits@.len(),
        count == trailing_zeros(digits@),
        forall|j: int| digits@.len() - count <= j < digits@.len() ==> digits@[j] == 0,
{
    let n = digits.len();
    let mut i: usize = 0;
    while i < n && digits[n - 1 - i] == 0
        invariant
            n == digits@.len(),
            i <= n,
            forall|j: int| n - i <= j < n ==> digits@[j] == 0,
        decreases n - i,
    {
        i = i + 1;
    }
    proof {
        lemma_trailing_zeros(digits@, i as int);
    }
    i
}

impl Decimal {
    /// Whether the numeric value is zero, whatever the sign and padding.
    pub fn is_zero(&self) -> (zero: bool)
        ensures
            zero == self@.is_zero(),
    {
        first_nonzero(&self.integer) == self.integer.len() && first_nonzero(&self.fraction)
            == self.fraction.len()
    }

    /// The magnitude of the most significant nonzero digit; 0 for zero.
    pub fn nonzero_magnitude_start(&self) -> (magnitude: i16)
        ensures
            magnitude == self@.nonzero_magnitude_start(),
            self@.wf(),
    {
        proof {
            use_type_invariant(self);
        }
        let i = first_nonzero(&self.integer);
        if i < self.integer.len() {
            ((self.integer.len() - 1 - i) as i32) as i16
        } else {
            let j = first_nonzero(&self.fraction);
            if j < self.fraction.len() {
                (-(j as i32) - 1) as i16
            } else {
                0
            }
        }
    }

    /// The visible magnitudes, lowest and highest, padding included.
    pub fn magnitude_range(&self) -> (range: (i16, i16))
        ensures
            range.0 == self@.lower_magnitude(),
            range.1 == self@.upper_magnitude(),
            self@.wf(),
    {
        proof {
            use_type_invariant(self);
        }
        (-(self.fraction.len() as i32) as i16, (self.integer.len() - 1) as i16)
    }

    /// Removes the zeros after the last nonzero fraction digit.
    pub fn trim_end(&mut self)
        ensures
            final(self)@ == old(self)@.trimmed_end(),
    {
        proof {
            use_type_invariant(&*self);
        }
        let zeros = count_trailing_zeros(&self.fraction);
        let keep = self.fraction.len() - zeros;
        let kept = copy_range(&self.fraction, 0, keep);
        assert(kept@ =~= old(self)@.fraction.take(keep as int));
        self.fraction = kept;
        assert(self@ =~= old(self)@.trimmed_end());
    }

    /// Pads the fraction with zeros down to `position`, or removes zeros
    /// below it, never a nonzero digit; a positive position changes nothing.
    pub fn pad_end(&mut self, position: i16)
        ensures
            final(self)@ == old(self)@.padded_end(position as int),
    {
        proof {
            use_type_invariant(&*self);
        }
        if position > 0 {
            return;
        }
        let wanted = (-(position as i32)) as usize;
        let significant = self.fraction.len() - count_trailing_zeros(&self.fraction);
        let len = if wanted >= significant {
            wanted
        } else {
            significant
        };
        if len <= self.fraction.len() {
            let kept = copy_range(&self.fraction, 0, len);
            assert(kept@ =~= old(self)@.fraction.take(len as int));
            self.fraction = kept;
        } else {
            let mut padded = copy_range(&self.fraction, 0, self.fraction.len());
            assert(padded@ =~= with_zeros(old(self)@.fraction, 0));
            let extra = len - self.fraction.len();
            for i in 0..extra
                invariant
                    padded@ == with_zeros(old(self)@.fraction, i as nat),
            {
                padded.push(0u8);
                assert(padded@ =~= with_zeros(old(self)@.fraction, (i + 1) as nat));
            }
            proof {
                assert forall|i: int| 0 <= i < padded@.len() implies #[trigger] padded@[i] <= 9 by {
                    if i >= old(self)@.fraction.len() {
                        assert(padded@[i] == 0);
                    }
                }
            }
            self.fraction = padded;
        }
        assert(self@ =~= old(self)@.padded_end(position as int));
    }

    /// Removes the leading zero padding of the integer part, keeping one digit.
    pub fn trim_start(&mut self)
        ensures
            final(self)@ == old(self)@.trimmed_start(),
    {
        proof {
            use_type_invariant(&*self);
        }
        let lead = first_nonzero(&self.integer);
        let cut = if lead < self.integer.len() {
            lead
        } else {
            self.integer.len() - 1
        };
        let kept = copy_range(&self.integer, cut, self.integer.len());
        assert(kept@ =~= self.integer@.skip(cut as int));
        self.integer = kept;
        assert(self@ =~= old(self)@.trimmed_start());
    }
}

/// A copy of `digits[from..to]`.
fn copy_range(digits: &Vec<u8>, from: usize, to: usize) -> (part: Vec<u8>)
    requires
        from <= to <= digits@.len(),
    ensures
        part@ == digits@.subrange(from as int, to as int),
{
    let mut part: Vec<u8> = Vec::new();
    for i in from..to
        invariant
            from <= to <= digits@.len(),
            part@ == digits@.subrange(from as int, i as int),
    {
        part.push(digits[i]);
        assert(part@ =~= digits@.subrange(from as int, i + 1));
    }
    part
}

/// Why a text is not a decimal.
#[derive(Debug, Clone, Copy, PartialEq, Eq, Structural)]
#[non_exhaustive]
pub enum ParseError {
    /// A magnitude or the number of digits exceeds what a decimal holds.
    Limit,
    /// The text is not an invariant decimal number.
    Syntax,
}

/// Digit values of `n`, most significant first, without padding.
pub open spec fn nat_digits(n: nat) -> Seq<u8>
    decreases n,
{
    if n < 10 {
        seq![n as u8]
    } else {
        nat_digits(n / 10).push((n % 10) as u8)
    }
}

/// The decimal of an integer: its digits, a minus sign when negative.
pub open spec fn integer_model(n: int) -> DecimalModel {
    DecimalModel {
        sign: if n < 0 {
            Sign::Negative
        } else {
            Sign::Implicit
        },
        integer: nat_digits((if n < 0 {
            -n
        } else {
            n
        }) as nat),
        fraction: Seq::empty(),
    }
}

pub open spec fn pow10(k: nat) -> nat
    decreases k,
{
    if k == 0 {
        1
    } else {
        10 * pow10((k - 1) as nat)
    }
}

proof fn lemma_nat_digits(n: nat, k: nat)
    requires
        n < pow10(k),
    ensures
        is_digits(nat_digits(n)),
        nat_digits(n).len() <= k + 1,
        nat_digits(n).len() >= 1,
    decreases n,
{
    if n >= 10 {
        assert(k >= 1) by {
            if k == 0 {
                assert(pow10(0) == 1);
            }
        }
        assert(n / 10 < pow10((k - 1) as nat)) by (nonlinear_arith)
            requires
                n < pow10(k),
                k >= 1,
                pow10(k) == 10 * pow10((k - 1) as nat),
        ;
        lemma_nat_digits(n / 10, (k - 1) as nat);
        let s = nat_digits(n);
        assert forall|i: int| 0 <= i < s.len() implies #[trigger] s[i] <= 9 by {
            if i < s.len() - 1 {
                assert(s[i] == nat_digits(n / 10)[i]);
            }
        }
    }
}

/// Appends the digits of `n` to `digits`.
fn push_digits(digits: &mut Vec<u8>, n: u128)
    ensures
        final(digits)@ == old(digits)@ + nat_digits(n as nat),
    decreases n,
{
    if n >= 10 {
        push_digits(digits, n / 10);
    }
    digits.push((n % 10) as u8);
    assert(final(digits)@ =~= old(digits)@ + nat_digits(n as nat)) by {
        if n >= 10 {
            assert(old(digits)@ + nat_digits((n / 10) as nat) + seq![(n % 10) as u8]
                =~= old(digits)@ + nat_digits(n as nat));
        }
    }
}

impl Decimal {
    /// Reads an invariant decimal string such as `"1.0"`, `"-0.00"` or
    /// `"1e3"`, as `fixed_decimal` does.
    ///
    /// # Errors
    /// Returns what `fixed_decimal` reports for text that is not a decimal.
    pub fn try_from_str(input: &str) -> (result: Result<Decimal, ParseError>)
        ensures
            match result {
                Ok(d) => parsed_decimal_text(input@) == Ok::<Seq<u8>, ParseError>(d@.text()),
                Err(e) => parsed_decimal_text(input@) == Err::<Seq<u8>, ParseError>(e),
            },
    {
        match parse_decimal(input) {
            Ok(text) => match Decimal::from_text(&text) {
                Some(decimal) => Ok(decimal),
                None => Err(ParseError::Syntax),
            },
            Err(e) => Err(e),
        }
    }

    /// The decimal of an unsigned integer.
    pub fn from_u64(n: u64) -> (decimal: Decimal)
        ensures
            decimal@ == integer_model(n as int),
    {
        Self::from_magnitude(false, n as u128)
    }

    /// The decimal of a 128-bit unsigned integer.
    pub fn from_u128(n: u128) -> (decimal: Decimal)
        ensures
            decimal@ == integer_model(n as int),
    {
        Self::from_magnitude(false, n)
    }

    /// The decimal of a 128-bit signed integer.
    pub fn from_i128(n: i128) -> (decimal: Decimal)
        ensures
            decimal@ == integer_model(n as int),
    {
        if n < 0 {
            Self::from_magnitude(true, ((-(n + 1)) as u128) + 1)
        } else {
            Self::from_magnitude(false, n as u128)
        }
    }

    /// The decimal of a signed integer.
    pub fn from_i64(n: i64) -> (decimal: Decimal)
        ensures
            decimal@ == integer_model(n as int),
    {
        if n < 0 {
            Self::from_magnitude(true, (-(n as i128)) as u128)
        } else {
            Self::from_magnitude(false, n as u128)
        }
    }

    fn from_magnitude(negative: bool, n: u128) -> (decimal: Decimal)
        ensures
            decimal@ == (DecimalModel {
                sign: if negative {
                    Sign::Negative
                } else {
                    Sign::Implicit
                },
                integer: nat_digits(n as nat),
                fraction: Seq::empty(),
            }),
    {
        let mut integer: Vec<u8> = Vec::new();
        push_digits(&mut integer, n);
        proof {
            assert(n < pow10(39)) by {
                reveal_with_fuel(pow10, 40);
                assert(pow10(39) == 1000000000000000000000000000000000000000);
            }
            lemma_nat_digits(n as nat, 39);
            assert(integer@ =~= nat_digits(n as nat));
        }
        let sign = if negative {
            Sign::Negative
        } else {
            Sign::Implicit
        };
        let decimal = Decimal { sign, integer, fraction: Vec::new() };
        assert(decimal@.fraction =~= Seq::<u8>::empty());
        decimal
    }

    /// The ASCII text of this decimal as a `String`, such as `"-0.00"`.
    pub fn to_string(&self) -> (text: String)
        ensures
            text@ == self@.text().map_values(|b: u8| b as char),
    {
        let bytes = self.to_text();
        let mut text = String::new();
        for i in 0..bytes.len()
            invariant
                text@ == bytes@.take(i as int).map_values(|b: u8| b as char),
        {
            push_char(&mut text, bytes[i] as char);
            assert(bytes@.take(i + 1) =~= bytes@.take(i as int).push(bytes@[i as int]));
            assert(text@ =~= bytes@.take(i + 1).map_values(|b: u8| b as char));
        }
        assert(bytes@.take(bytes@.len() as int) =~= bytes@);
        text
    }
}

impl core::str::FromStr for Decimal {
    type Err = ParseError;

    fn from_str(input: &str) -> (result: Result<Decimal, ParseError>)
        ensures
            match result {
                Ok(d) => parsed_decimal_text(input@) == Ok::<Seq<u8>, ParseError>(d@.text()),
                Err(e) => parsed_decimal_text(input@) == Err::<Seq<u8>, ParseError>(e),
            },
    {
        Decimal::try_from_str(input)
    }
}

impl From<u8> for Decimal {
    fn from(n: u8) -> (decimal: Decimal)
        ensures
            decimal@ == integer_model(n as int),
    {
        Decimal::from_u128(n as u128)
    }
}

impl vstd::std_specs::convert::FromSpecImpl<u8> for Decimal {
    open spec fn obeys_from_spec() -> bool {
        false
    }

    open spec fn from_spec(n: u8) -> Decimal {
        choose|decimal: Decimal| decimal@ == integer_model(n as int)
    }
}

impl From<u16> for Decimal {
    fn from(n: u16) -> (decimal: Decimal)
        ensures
            decimal@ == integer_model(n as int),
    {
        Decimal::from_u128(n as u128)
    }
}

impl vstd::std_specs::convert::FromSpecImpl<u16> for Decimal {
    open spec fn obeys_from_spec() -> bool {
        false
    }

    open spec fn from_spec(n: u16) -> Decimal {
        choose|decimal: Decimal| decimal@ == integer_model(n as int)
    }
}

impl From<u32> for Decimal {
    fn from(n: u32) -> (decimal: Decimal)
        ensures
            decimal@ == integer_model(n as int),
    {
        Decimal::from_u128(n as u128)
    }
}

impl vstd::std_specs::convert::FromSpecImpl<u32> for Decimal {
    open spec fn obeys_from_spec() -> bool {
        false
    }

    open spec fn from_spec(n: u32) -> Decimal {
        choose|decimal: Decimal| decimal@ == integer_model(n as int)
    }
}

impl From<u64> for Decimal {
    fn from(n: u64) -> (decimal: Decimal)
        ensures
            decimal@ == integer_model(n as int),
    {
        Decimal::from_u128(n as u128)
    }
}

impl vstd::std_specs::convert::FromSpecImpl<u64> for Decimal {
    open spec fn obeys_from_spec() -> bool {
        false
    }

    open spec fn from_spec(n: u64) -> Decimal {
        choose|decimal: Decimal| decimal@ == integer_model(n as int)
    }
}

impl From<u128> for Decimal {
    fn from(n: u128) -> (decimal: Decimal)
        ensures
            decimal@ == integer_model(n as int),
    {
        Decimal::from_u128(n)
    }
}

impl vstd::std_specs::convert::FromSpecImpl<u128> for Decimal {
    open spec fn obeys_from_spec() -> bool {
        false
    }

    open spec fn from_spec(n: u128) -> Decimal {
        choose|decimal: Decimal| decimal@ == integer_model(n as int)
    }
}

impl From<usize> for Decimal {
    fn from(n: usize) -> (decimal: Decimal)
        ensures
            decimal@ == integer_model(n as int),
    {
        Decimal::from_u128(n as u128)
    }
}

impl vstd::std_specs::convert::FromSpecImpl<usize> for Decimal {
    open spec fn obeys_from_spec() -> bool {
        false
    }

    open spec fn from_spec(n: usize) -> Decimal {
        choose|decimal: Decimal| decimal@ == integer_model(n as int)
    }
}

impl From<i8> for Decimal {
    fn from(n: i8) -> (decimal: Decimal)
        ensures
            decimal@ == integer_model(n as int),
    {
        Decimal::from_i128(n as i128)
    }
}

impl vstd::std_specs::convert::FromSpecImpl<i8> for Decimal {
    open spec fn obeys_from_spec() -> bool {
        false
    }

    open spec fn from_spec(n: i8) -> Decimal {
        choose|decimal: Decimal| decimal@ == integer_model(n as int)
    }
}

impl From<i16> for Decimal {
    fn from(n: i16) -> (decimal: Decimal)
        ensures
            decimal@ == integer_model(n as int),
    {
        Decimal::from_i128(n as i128)
    }
}

impl vstd::std_specs::convert::FromSpecImpl<i16> for Decimal {
    open spec fn obeys_from_spec() -> bool {
        false
    }

    open spec fn from_spec(n: i16) -> Decimal {
        choose|decimal: Decimal| decimal@ == integer_model(n as int)
    }
}

impl From<i32> for Decimal {
    fn from(n: i32) -> (decimal: Decimal)
        ensures
            decimal@ == integer_model(n as int),
    {
        Decimal::from_i128(n as i128)
    }
}

impl vstd::std_specs::convert::FromSpecImpl<i32> for Decimal {
    open spec fn obeys_from_spec() -> bool {
        false
    }

    open spec fn from_spec(n: i32) -> Decimal {
        choose|decimal: Decimal| decimal@ == integer_model(n as int)
    }
}

impl From<i64> for Decimal {
    fn from(n: i64) -> (decimal: Decimal)
        ensures
            decimal@ == integer_model(n as int),
    {
        Decimal::from_i128(n as i128)
    }
}

impl vstd::std_specs::convert::FromSpecImpl<i64> for Decimal {
    open spec fn obeys_from_spec() -> bool {
        false
    }

    open spec fn from_spec(n: i64) -> Decimal {
        choose|decimal: Decimal| decimal@ == integer_model(n as int)
    }
}

impl From<i128> for Decimal {
    fn from(n: i128) -> (decimal: Decimal)
        ensures
            decimal@ == integer_model(n as int),
    {
        Decimal::from_i128(n)
    }
}

impl vstd::std_specs::convert::FromSpecImpl<i128> for Decimal {
    open spec fn obeys_from_spec() -> bool {
        false
    }

    open spec fn from_spec(n: i128) -> Decimal {
        choose|decimal: Decimal| decimal@ == integer_model(n as int)
    }
}

impl From<isize> for Decimal {
    fn from(n: isize) -> (decimal: Decimal)
        ensures
            decimal@ == integer_model(n as int),
    {
        Decimal::from_i128(n as i128)
    }
}

impl vstd::std_specs::convert::FromSpecImpl<isize> for Decimal {
    open spec fn obeys_from_spec() -> bool {
        false
    }

    open spec fn from_spec(n: isize) -> Decimal {
        choose|decimal: Decimal| decimal@ == integer_model(n as int)
    }
}

impl Clone for Decimal {
    fn clone(&self) -> (copy: Self)
        ensures
            copy@ == self@,
    {
        self.duplicate()
    }
}

} // verus!
