//! Encoding of arbitrary-precision decimals into the byte strings of a
//! fixed-scale NUMERIC column, and back.
//!
//! A value is stored as the minimal two's-complement form of `value * 10^9`,
//! with the bytes in reverse order (least significant byte first).

pub mod byte_order;
pub mod decimal;
pub mod integer;
pub mod twos_complement;

use crate::byte_order::{lemma_reverse_is_self_inverse, reverse};
use crate::decimal::{
    in_range, lemma_low_scale_is_beyond_bounds, lemma_mantissa_is_same_number,
    lemma_pow10_positive, less_than, mantissa, max_mantissa, plain_notation, pow10, same_number,
    to_text, with_scale, Decimal, LOWEST_SCALE, NUMERIC_SCALE,
};
use crate::integer::{be_value, BigInteger};
use crate::twos_complement::{
    from_java_byte_array, is_minimal, lemma_minimal_is_shortest, lemma_sign_symmetry,
    lemma_twos_complement_decodes, pow256, to_java_byte_array, twos_complement,
    twos_complement_value,
};
use vstd::prelude::*;

verus! {

/// Why a value cannot be encoded or decoded.
#[derive(Debug)]
pub enum NumericEncoderError {
    /// The decimal has this many fractional digits; only the second number
    /// of them can be stored.
    ScaleExceeded(i64, i64),
    /// The decimal, given in plain notation, lies beyond the bounds.
    Overflow(String),
}

/// The stored bytes of a mantissa: its minimal two's-complement form, least
/// significant byte first.
pub open spec fn stored_form(mantissa: int) -> Seq<u8> {
    twos_complement(mantissa).reverse()
}

/// The mantissa that stored bytes stand for.
pub open spec fn stored_value(bytes: Seq<u8>) -> int {
    twos_complement_value(bytes.reverse())
}

/// At the numeric scale the mantissa is the unscaled integer itself.
pub proof fn lemma_mantissa_at_numeric_scale(unscaled: int)
    ensures
        mantissa(unscaled, NUMERIC_SCALE as int) == unscaled,
{
    assert(pow10(0) == 1);
    assert(unscaled * 1 == unscaled) by (nonlinear_arith);
}

/// The big-endian bytes of the largest mantissa.
fn max_magnitude() -> (result: Vec<u8>)
    ensures
        be_value(result@) == max_mantissa(),
{
    let bytes: Vec<u8> = vec![
        75, 59, 76, 168, 90, 134, 196, 122, 9, 138, 34, 63, 255, 255, 255, 255,
    ];
    proof {
        reveal_with_fuel(be_value, 17);
    }
    bytes
}

/// The largest decimal that can be stored:
/// `99999999999999999999999999999.999999999`.
pub fn max_numeric_value() -> (result: Decimal)
    ensures
        result.unscaled@ == max_mantissa(),
        result.scale == NUMERIC_SCALE,
{
    let magnitude = max_magnitude();
    Decimal::new(BigInteger::from_bytes_be(false, magnitude.as_slice()), NUMERIC_SCALE)
}

/// The smallest decimal that can be stored:
/// `-99999999999999999999999999999.999999999`.
pub fn min_numeric_value() -> (result: Decimal)
    ensures
        result.unscaled@ == -max_mantissa(),
        result.scale == NUMERIC_SCALE,
{
    let magnitude = max_magnitude();
    Decimal::new(BigInteger::from_bytes_be(true, magnitude.as_slice()), NUMERIC_SCALE)
}

/// Checks that a decimal with at most nine fractional digits lies within the
/// bounds.
///
/// A decimal that is not zero and whose scale is below the lowest lies
/// beyond them whatever its digits; any other is held against the two bounds.
fn check_bounds(decimal: &Decimal) -> (result: Result<(), NumericEncoderError>)
    requires
        decimal.scale <= NUMERIC_SCALE,
    ensures
        match result {
            Ok(_) => in_range(decimal.mantissa()),
            Err(NumericEncoderError::Overflow(text)) => {
                &&& !in_range(decimal.mantissa())
                &&& 0 <= decimal.scale ==> text@ == plain_notation(
                    decimal.unscaled@,
                    decimal.scale as int,
                )
            },
            Err(NumericEncoderError::ScaleExceeded(_, _)) => false,
        },
{
    let beyond = if decimal.scale < LOWEST_SCALE && !decimal.unscaled.is_zero() {
        proof {
            lemma_low_scale_is_beyond_bounds(decimal.unscaled@, decimal.scale as int);
        }
        true
    } else {
        let lowest = min_numeric_value();
        let highest = max_numeric_value();
        proof {
            lemma_mantissa_at_numeric_scale(lowest.unscaled@);
            lemma_mantissa_at_numeric_scale(highest.unscaled@);
        }
        less_than(decimal, &lowest) || less_than(&highest, decimal)
    };
    if beyond {
        Err(NumericEncoderError::Overflow(to_text(decimal)))
    } else {
        Ok(())
    }
}

/// Checks that a decimal can be stored: first that it has no more than nine
/// fractional digits, then that it lies within the bounds.
///
/// The text of an overflow is the decimal in plain notation where its scale
/// is not negative.
pub fn validate(decimal: &Decimal) -> (result: Result<(), NumericEncoderError>)
    ensures
        match result {
            Ok(_) => decimal.scale <= NUMERIC_SCALE && in_range(decimal.mantissa()),
            Err(NumericEncoderError::ScaleExceeded(actual, allowed)) => {
                &&& decimal.scale > NUMERIC_SCALE
                &&& actual == decimal.scale
                &&& allowed == NUMERIC_SCALE
            },
            Err(NumericEncoderError::Overflow(text)) => {
                &&& decimal.scale <= NUMERIC_SCALE
                &&& !in_range(decimal.mantissa())
                &&& 0 <= decimal.scale ==> text@ == plain_notation(
                    decimal.unscaled@,
                    decimal.scale as int,
                )
            },
        },
{
    let scale = decimal.fractional_digit_count();
    if scale > NUMERIC_SCALE {
        return Err(NumericEncoderError::ScaleExceeded(scale, NUMERIC_SCALE));
    }
    check_bounds(decimal)
}

/// Encodes a decimal as the bytes of a NUMERIC value.
///
/// A decimal with no more than nine fractional digits and within the bounds
/// gives the stored form of its mantissa. Any other decimal is refused: for
/// its scale first, then for its size.
pub fn encode_bigdecimal_to_bigquery_bytes(decimal: &Decimal) -> (result: Result<
    Vec<u8>,
    NumericEncoderError,
>)
    ensures
        match result {
            Ok(bytes) => {
                &&& decimal.scale <= NUMERIC_SCALE
                &&& in_range(decimal.mantissa())
                &&& bytes@ == stored_form(decimal.mantissa())
                &&& is_minimal(bytes@.reverse())
            },
            Err(NumericEncoderError::ScaleExceeded(actual, allowed)) => {
                &&& decimal.scale > NUMERIC_SCALE
                &&& actual == decimal.scale
                &&& allowed == NUMERIC_SCALE
            },
            Err(NumericEncoderError::Overflow(text)) => {
                &&& decimal.scale <= NUMERIC_SCALE
                &&& !in_range(decimal.mantissa())
                &&& 0 <= decimal.scale ==> text@ == plain_notation(
                    decimal.unscaled@,
                    decimal.scale as int,
                )
            },
        },
{
    match validate(decimal) {
        Err(error) => {
            return Err(error);
        },
        Ok(_) => {},
    }
    proof {
        if decimal.unscaled@ != 0 && decimal.scale < LOWEST_SCALE {
            lemma_low_scale_is_beyond_bounds(decimal.unscaled@, decimal.scale as int);
        }
    }
    let scaled = with_scale(decimal, NUMERIC_SCALE);
    let bytes = to_java_byte_array(&scaled.unscaled);
    proof {
        lemma_reverse_is_self_inverse(bytes@);
    }
    Ok(reverse(bytes.as_slice()))
}

/// Decodes the bytes of a NUMERIC value.
///
/// The bytes always stand for a mantissa; the empty string stands for zero.
/// A mantissa within the bounds gives the decimal with nine fractional
/// digits; any other is refused.
pub fn decode_bigquery_bytes_to_bigdecimal(bytes: &[u8]) -> (result: Result<
    Decimal,
    NumericEncoderError,
>)
    ensures
        match result {
            Ok(decimal) => {
                &&& in_range(stored_value(bytes@))
                &&& decimal.unscaled@ == stored_value(bytes@)
                &&& decimal.scale == NUMERIC_SCALE
            },
            Err(NumericEncoderError::Overflow(text)) => {
                &&& !in_range(stored_value(bytes@))
                &&& text@ == plain_notation(stored_value(bytes@), NUMERIC_SCALE as int)
            },
            Err(NumericEncoderError::ScaleExceeded(_, _)) => false,
        },
{
    let ordered = reverse(bytes);
    let scaled_value = from_java_byte_array(ordered.as_slice());
    let decimal = Decimal::new(scaled_value, NUMERIC_SCALE);
    proof {
        lemma_mantissa_at_numeric_scale(decimal.unscaled@);
    }
    match check_bounds(&decimal) {
        Err(error) => Err(error),
        Ok(_) => Ok(decimal),
    }
}

/// Round trip: the bytes that a decimal within the bounds is encoded to are
/// decoded to its mantissa with nine fractional digits, which is the same
/// number as the decimal.
pub proof fn lemma_round_trip(unscaled: int, scale: int)
    requires
        scale <= NUMERIC_SCALE,
        in_range(mantissa(unscaled, scale)),
    ensures
        stored_value(stored_form(mantissa(unscaled, scale))) == mantissa(unscaled, scale),
        in_range(stored_value(stored_form(mantissa(unscaled, scale)))),
        same_number(
            stored_value(stored_form(mantissa(unscaled, scale))),
            NUMERIC_SCALE as int,
            unscaled,
            scale,
        ),
{
    let scaled = mantissa(unscaled, scale);
    lemma_reverse_is_self_inverse(twos_complement(scaled));
    lemma_twos_complement_decodes(scaled);
    lemma_mantissa_is_same_number(unscaled, scale);
}

/// Minimality: the stored form of a mantissa has no redundant byte at its
/// most significant end, and no other bytes that stand for the same mantissa
/// are shorter.
pub proof fn lemma_stored_form_is_minimal(mantissa: int, other: Seq<u8>)
    ensures
        is_minimal(stored_form(mantissa).reverse()),
        other.len() >= 1 && stored_value(other) == mantissa ==> stored_form(mantissa).len()
            <= other.len(),
{
    lemma_reverse_is_self_inverse(twos_complement(mantissa));
    lemma_twos_complement_decodes(mantissa);
    if other.len() >= 1 && stored_value(other) == mantissa {
        lemma_reverse_is_self_inverse(other);
        lemma_minimal_is_shortest(other.reverse());
    }
}

/// Sign symmetry: a decimal above zero and its negation are stored in the
/// same number of bytes, but where the mantissa is `128 * 256^k`: there the
/// positive form is one byte longer.
pub proof fn lemma_stored_form_sign_symmetry(unscaled: int, scale: int)
    requires
        unscaled > 0,
        scale <= NUMERIC_SCALE,
    ensures
        mantissa(-unscaled, scale) == -mantissa(unscaled, scale),
        stored_form(mantissa(-unscaled, scale)).len() <= stored_form(
            mantissa(unscaled, scale),
        ).len() <= stored_form(mantissa(-unscaled, scale)).len() + 1,
        stored_form(mantissa(unscaled, scale)).len() == stored_form(
            mantissa(-unscaled, scale),
        ).len() + 1 <==> mantissa(unscaled, scale) == 128 * pow256(
            (stored_form(mantissa(-unscaled, scale)).len() - 1) as nat,
        ),
{
    let factor = pow10((NUMERIC_SCALE - scale) as nat);
    lemma_pow10_positive((NUMERIC_SCALE - scale) as nat);
    assert(unscaled * factor > 0 && (-unscaled) * factor == -(unscaled * factor))
        by (nonlinear_arith)
        requires
            unscaled > 0,
            factor > 0,
    ;
    let scaled = mantissa(unscaled, scale);
    lemma_sign_symmetry(scaled);
    lemma_reverse_is_self_inverse(twos_complement(scaled));
    lemma_reverse_is_self_inverse(twos_complement(-scaled));
}

} // verus!
