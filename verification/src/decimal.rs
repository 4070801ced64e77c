//! Decimal values: an unscaled integer and a scale, the count of its digits
//! that follow the decimal point. A negative scale stands for zeros to add
//! behind the digits instead.
//!
//! The arithmetic on decimals (rescaling, ordering, plain notation) is done by
//! the `bigdecimal` crate; the functions here that call it state what they
//! take from it.

use crate::integer::BigInteger;
use bigdecimal::BigDecimal;
use num_bigint::{BigInt, Sign};
use vstd::prelude::*;

verus! {

/// The number of fractional digits of a stored value.
pub const NUMERIC_SCALE: i64 = 9;

/// `10^n`.
pub open spec fn pow10(n: nat) -> nat
    decreases n,
{
    if n == 0 {
        1
    } else {
        10 * pow10((n - 1) as nat)
    }
}

/// The largest mantissa of a stored value: 29 integer digits and 9 fractional
/// digits, all nines.
pub open spec fn max_mantissa() -> int {
    99_999_999_999_999_999_999_999_999_999_999_999_999
}

/// Whether a mantissa lies within the bounds of a stored value.
pub open spec fn in_range(mantissa: int) -> bool {
    -max_mantissa() <= mantissa <= max_mantissa()
}

/// The lowest scale of a decimal within the bounds that is not zero: below
/// it a single digit already stands for `10^29` or more.
pub const LOWEST_SCALE: i64 = -28;

/// The mantissa of `unscaled / 10^scale`: that number times `10^9`, for a
/// scale of at most 9. A negative scale adds zeros behind the digits.
pub open spec fn mantissa(unscaled: int, scale: int) -> int {
    unscaled * pow10((NUMERIC_SCALE - scale) as nat)
}

/// Whether `left_unscaled / 10^left_scale` and `right_unscaled / 10^right_scale`
/// are the same number: whether their digits agree once both are brought to
/// the larger of the two scales.
pub open spec fn same_number(
    left_unscaled: int,
    left_scale: int,
    right_unscaled: int,
    right_scale: int,
) -> bool {
    let common = if left_scale >= right_scale {
        left_scale
    } else {
        right_scale
    };
    left_unscaled * pow10((common - left_scale) as nat) == right_unscaled * pow10(
        (common - right_scale) as nat,
    )
}

/// `10^n` is positive.
pub proof fn lemma_pow10_positive(n: nat)
    ensures
        pow10(n) > 0,
    decreases n,
{
    if n > 0 {
        lemma_pow10_positive((n - 1) as nat);
    }
}

/// `10^n` grows with `n`.
pub proof fn lemma_pow10_increases(low: nat, high: nat)
    requires
        low <= high,
    ensures
        pow10(low) <= pow10(high),
    decreases high,
{
    if low < high {
        lemma_pow10_increases(low, (high - 1) as nat);
        lemma_pow10_positive((high - 1) as nat);
    }
}

/// A decimal and its mantissa taken with nine fractional digits are the same
/// number.
pub proof fn lemma_mantissa_is_same_number(unscaled: int, scale: int)
    requires
        scale <= NUMERIC_SCALE,
    ensures
        same_number(mantissa(unscaled, scale), NUMERIC_SCALE as int, unscaled, scale),
{
    let scaled = mantissa(unscaled, scale);
    let unit = pow10(0);
    assert(scaled * unit == scaled) by (nonlinear_arith)
        requires
            unit == 1,
    ;
}

/// A decimal that is not zero and has a scale below the lowest lies beyond
/// the bounds, whatever its digits.
pub proof fn lemma_low_scale_is_beyond_bounds(unscaled: int, scale: int)
    requires
        unscaled != 0,
        scale < LOWEST_SCALE,
    ensures
        !in_range(mantissa(unscaled, scale)),
{
    let factor = pow10((NUMERIC_SCALE - scale) as nat);
    lemma_pow10_increases(38, (NUMERIC_SCALE - scale) as nat);
    assert(pow10(38) == 100_000_000_000_000_000_000_000_000_000_000_000_000) by {
        reveal_with_fuel(pow10, 39);
    }
    assert(unscaled * factor >= factor || unscaled * factor <= -factor) by (nonlinear_arith)
        requires
            unscaled != 0,
            factor > 0,
    ;
}

/// The character of a decimal digit.
pub open spec fn digit_char(digit: int) -> char {
    if digit == 0 {
        '0'
    } else if digit == 1 {
        '1'
    } else if digit == 2 {
        '2'
    } else if digit == 3 {
        '3'
    } else if digit == 4 {
        '4'
    } else if digit == 5 {
        '5'
    } else if digit == 6 {
        '6'
    } else if digit == 7 {
        '7'
    } else if digit == 8 {
        '8'
    } else {
        '9'
    }
}

/// The decimal digits of `value`, most significant first, without leading
/// zeros; zero is the one digit `0`.
pub open spec fn decimal_digits(value: nat) -> Seq<char>
    decreases value,
{
    if value < 10 {
        seq![digit_char(value as int)]
    } else {
        decimal_digits(value / 10).push(digit_char((value % 10) as int))
    }
}

/// The plain notation of `unscaled / 10^scale` where `unscaled` has more
/// than `scale` digits: a minus sign for a negative number, the digits of the
/// unscaled integer, and a point in front of the last `scale` of them where
/// `scale` is positive.
pub open spec fn plain_notation(unscaled: int, scale: int) -> Seq<char> {
    let digits = decimal_digits(vstd::math::abs(unscaled) as nat);
    let point = digits.len() - scale;
    let body = if scale <= 0 {
        digits
    } else {
        digits.subrange(0, point) + seq!['.'] + digits.subrange(point, digits.len() as int)
    };
    if unscaled < 0 {
        seq!['-'] + body
    } else {
        body
    }
}

/// A decimal value: the number `unscaled / 10^scale`.
#[derive(Debug)]
pub struct Decimal {
    /// All the digits of the value, as an integer.
    pub unscaled: BigInteger,
    /// The number of those digits that follow the decimal point; where it is
    /// negative, the number of zeros to add behind them.
    pub scale: i64,
}

impl Clone for Decimal {
    fn clone(&self) -> (result: Self)
        ensures
            result.unscaled@ == self.unscaled@,
            result.scale == self.scale,
    {
        Decimal { unscaled: self.unscaled.clone(), scale: self.scale }
    }
}

impl Decimal {
    /// The decimal `unscaled / 10^scale`.
    pub fn new(unscaled: BigInteger, scale: i64) -> (result: Decimal)
        ensures
            result.unscaled == unscaled,
            result.scale == scale,
    {
        Decimal { unscaled, scale }
    }

    /// The scale: the number of digits after the decimal point.
    pub fn fractional_digit_count(&self) -> (result: i64)
        ensures
            result == self.scale,
    {
        self.scale
    }

    /// The mantissa of this value at the numeric scale.
    pub open spec fn mantissa(&self) -> int {
        mantissa(self.unscaled@, self.scale as int)
    }
}

/// The same number with `new_scale` fractional digits, by
/// `BigDecimal::with_scale`.
///
/// Taken from `bigdecimal`: zero comes back as zero at the new scale; for any
/// other number, where the scale grows, the unscaled integer is multiplied by
/// ten for each added digit, and nothing is rounded. The integer that comes
/// back has the sign and the bytes that `BigInt::to_bytes_be` gives: no
/// leading zero byte, one zero byte and no minus sign for zero. The scale of
/// a number that is not zero may grow by 37 here, which keeps the power of
/// ten small.
#[verifier::external_body]
pub(crate) fn with_scale(decimal: &Decimal, new_scale: i64) -> (result: Decimal)
    requires
        decimal.scale <= new_scale <= NUMERIC_SCALE,
        decimal.unscaled@ == 0 || new_scale - decimal.scale <= 37,
    ensures
        result.scale == new_scale,
        result.unscaled@ == decimal.unscaled@ * pow10((new_scale - decimal.scale) as nat),
        result.unscaled.well_formed(),
{
    let sign = match decimal.unscaled.negative {
        true => Sign::Minus,
        false => Sign::Plus,
    };
    let digits = BigInt::from_bytes_be(sign, &decimal.unscaled.magnitude);
    let rescaled = BigDecimal::new(digits, decimal.scale).with_scale(new_scale);
    let (digits, scale) = rescaled.into_bigint_and_exponent();
    let (sign, magnitude) = digits.to_bytes_be();
    let negative = match sign {
        Sign::Minus => true,
        Sign::NoSign => false,
        Sign::Plus => false,
    };
    Decimal { unscaled: BigInteger { negative, magnitude }, scale }
}

/// Whether `left` is a smaller number than `right`, by the `<` of
/// `BigDecimal`.
///
/// Taken from `bigdecimal`: its ordering is that of the numbers, whatever
/// their scales, so two decimals compare as their mantissas do. Zero is told
/// from any other number by its sign alone; the scales of two numbers that
/// are not zero lie between the lowest scale and 9 here, so they differ by 37
/// at most.
#[verifier::external_body]
pub(crate) fn less_than(left: &Decimal, right: &Decimal) -> (result: bool)
    requires
        left.scale <= NUMERIC_SCALE,
        right.scale <= NUMERIC_SCALE,
        left.unscaled@ == 0 || LOWEST_SCALE <= left.scale,
        right.unscaled@ == 0 || LOWEST_SCALE <= right.scale,
    ensures
        result == (left.mantissa() < right.mantissa()),
{
    let left_sign = match left.unscaled.negative {
        true => Sign::Minus,
        false => Sign::Plus,
    };
    let right_sign = match right.unscaled.negative {
        true => Sign::Minus,
        false => Sign::Plus,
    };
    let left_digits = BigInt::from_bytes_be(left_sign, &left.unscaled.magnitude);
    let right_digits = BigInt::from_bytes_be(right_sign, &right.unscaled.magnitude);
    BigDecimal::new(left_digits, left.scale) < BigDecimal::new(right_digits, right.scale)
}

/// The text of a decimal beyond the bounds, as `BigDecimal` displays it.
///
/// Taken from `bigdecimal`: a number with more digits than its scale, and a
/// scale between 0 and 9, is displayed in plain notation, without an
/// exponent; a decimal beyond the bounds has at least thirty digits in front
/// of the point. With a negative scale the text depends on how `bigdecimal`
/// was built, and nothing is said of it.
#[verifier::external_body]
pub(crate) fn to_text(decimal: &Decimal) -> (result: String)
    requires
        decimal.scale <= NUMERIC_SCALE,
        !in_range(decimal.mantissa()),
    ensures
        0 <= decimal.scale ==> result@ == plain_notation(decimal.unscaled@, decimal.scale as int),
{
    let sign = match decimal.unscaled.negative {
        true => Sign::Minus,
        false => Sign::Plus,
    };
    let digits = BigInt::from_bytes_be(sign, &decimal.unscaled.magnitude);
    BigDecimal::new(digits, decimal.scale).to_string()
}

} // verus!
