//! Minimal big-endian two's-complement byte strings of arbitrary-precision
//! integers.

use crate::integer::{
    be_value, is_canonical, lemma_be_value_leading_zero, lemma_be_value_positive,
    lemma_strip_leading_zeros, BigInteger,
};
use vstd::prelude::*;

verus! {

/// `256^n`.
pub open spec fn pow256(n: nat) -> nat
    decreases n,
{
    if n == 0 {
        1
    } else {
        256 * pow256((n - 1) as nat)
    }
}

/// The shortest big-endian two's-complement byte string of `value`: its
/// base-256 digits, down to a first byte whose top bit gives the sign.
pub open spec fn twos_complement(value: int) -> Seq<u8>
    decreases (if value < 0 { -value } else { value }),
{
    if -128 <= value < 128 {
        seq![(value % 256) as u8]
    } else {
        twos_complement(value / 256).push((value % 256) as u8)
    }
}

/// The integer that a big-endian two's-complement byte string stands for. The
/// empty string stands for zero.
pub open spec fn twos_complement_value(bytes: Seq<u8>) -> int {
    if bytes.len() == 0 {
        0
    } else if bytes[0] >= 128 {
        be_value(bytes) - pow256(bytes.len())
    } else {
        be_value(bytes) as int
    }
}

/// A two's-complement byte string is minimal when its first byte is needed:
/// no `0x00` in front of a byte with a clear top bit, and no `0xFF` in front
/// of a byte with a set top bit.
pub open spec fn is_minimal(bytes: Seq<u8>) -> bool {
    &&& bytes.len() >= 1
    &&& bytes.len() >= 2 ==> {
        &&& !(bytes[0] == 0x00 && bytes[1] < 0x80)
        &&& !(bytes[0] == 0xFF && bytes[1] >= 0x80)
    }
}

/// Every byte replaced by its bitwise complement.
pub open spec fn complement(bytes: Seq<u8>) -> Seq<u8> {
    Seq::new(bytes.len(), |i: int| (255 - bytes[i]) as u8)
}

/// `256^n` is positive.
pub proof fn lemma_pow256_positive(n: nat)
    ensures
        pow256(n) > 0,
    decreases n,
{
    if n > 0 {
        lemma_pow256_positive((n - 1) as nat);
    }
}

/// A magnitude of `n` bytes is below `256^n`.
pub proof fn lemma_be_value_bound(bytes: Seq<u8>)
    ensures
        be_value(bytes) < pow256(bytes.len()),
    decreases bytes.len(),
{
    if bytes.len() > 0 {
        lemma_be_value_bound(bytes.drop_last());
    }
}

/// The first byte weighs `256^(n-1)`.
pub proof fn lemma_be_value_first(bytes: Seq<u8>)
    requires
        bytes.len() >= 1,
    ensures
        be_value(bytes) == bytes[0] * pow256((bytes.len() - 1) as nat) + be_value(
            bytes.subrange(1, bytes.len() as int),
        ),
    decreases bytes.len(),
{
    let rest = bytes.subrange(1, bytes.len() as int);
    if bytes.len() == 1 {
        assert(bytes.drop_last() =~= Seq::<u8>::empty());
        assert(rest =~= Seq::<u8>::empty());
        assert(be_value(bytes.drop_last()) == 0);
        assert(be_value(rest) == 0);
        let unit = pow256((bytes.len() - 1) as nat);
        assert(bytes[0] * unit == bytes[0]) by (nonlinear_arith)
            requires
                unit == 1,
        ;
    } else {
        let front = bytes.drop_last();
        lemma_be_value_first(front);
        assert(front.subrange(1, front.len() as int) =~= rest.drop_last());
        assert(rest.last() == bytes.last());
        assert(front[0] == bytes[0]);
        let weight = pow256((front.len() - 1) as nat);
        assert(pow256((bytes.len() - 1) as nat) == 256 * weight);
        assert(bytes[0] * (256 * weight) == (bytes[0] * weight) * 256) by (nonlinear_arith);
        assert(be_value(rest) == be_value(rest.drop_last()) * 256 + rest.last());
    }
}

/// Replacing the byte at `index` moves the value by the difference of the two
/// bytes, at that byte's weight.
pub proof fn lemma_be_value_update(bytes: Seq<u8>, index: int, byte: u8)
    requires
        0 <= index < bytes.len(),
    ensures
        be_value(bytes.update(index, byte)) == be_value(bytes) + (byte - bytes[index]) * pow256(
            (bytes.len() - 1 - index) as nat,
        ),
    decreases bytes.len(),
{
    let changed = bytes.update(index, byte);
    let delta = byte - bytes[index];
    if index == bytes.len() - 1 {
        assert(changed.drop_last() =~= bytes.drop_last());
        let unit = pow256((bytes.len() - 1 - index) as nat);
        assert(delta * unit == delta) by (nonlinear_arith)
            requires
                unit == 1,
        ;
    } else {
        let front = bytes.drop_last();
        lemma_be_value_update(front, index, byte);
        assert(changed.drop_last() =~= front.update(index, byte));
        let weight = pow256((front.len() - 1 - index) as nat);
        assert(pow256((bytes.len() - 1 - index) as nat) == 256 * weight);
        assert((delta * weight) * 256 == delta * (256 * weight)) by (nonlinear_arith);
    }
}

/// Complementing every byte of an `n`-byte magnitude `m` gives `256^n - 1 - m`.
pub proof fn lemma_complement_value(bytes: Seq<u8>)
    ensures
        be_value(complement(bytes)) == pow256(bytes.len()) - 1 - be_value(bytes),
    decreases bytes.len(),
{
    if bytes.len() > 0 {
        lemma_complement_value(bytes.drop_last());
        assert(complement(bytes).drop_last() =~= complement(bytes.drop_last()));
    }
}

/// Beyond its first byte, a two's-complement string reads like a number in
/// base 256: the last byte is the lowest digit.
pub proof fn lemma_twos_complement_value_last(bytes: Seq<u8>)
    requires
        bytes.len() >= 2,
    ensures
        twos_complement_value(bytes) == twos_complement_value(bytes.drop_last()) * 256
            + bytes.last(),
{
    assert(bytes.drop_last()[0] == bytes[0]);
    assert(pow256(bytes.len()) == 256 * pow256((bytes.len() - 1) as nat));
}

/// The bytes of `twos_complement` stand for the value they were made from,
/// and none of them is redundant.
pub proof fn lemma_twos_complement_decodes(value: int)
    ensures
        twos_complement_value(twos_complement(value)) == value,
        is_minimal(twos_complement(value)),
        twos_complement(value).len() == 1 <==> -128 <= value < 128,
    decreases (if value < 0 { -value } else { value }),
{
    let bytes = twos_complement(value);
    if -128 <= value < 128 {
        assert(bytes.drop_last() =~= Seq::<u8>::empty());
        assert(be_value(bytes.drop_last()) == 0);
        assert(pow256(1) == 256 * pow256(0));
    } else {
        let front = twos_complement(value / 256);
        lemma_twos_complement_decodes(value / 256);
        assert(bytes.drop_last() =~= front);
        lemma_twos_complement_value_last(bytes);
    }
}

/// A minimal byte string is the one that `twos_complement` gives for its
/// value: the minimal form of an integer is unique.
pub proof fn lemma_minimal_is_unique(bytes: Seq<u8>)
    requires
        is_minimal(bytes),
    ensures
        twos_complement(twos_complement_value(bytes)) == bytes,
    decreases bytes.len(),
{
    let value = twos_complement_value(bytes);
    if bytes.len() == 1 {
        assert(bytes.drop_last() =~= Seq::<u8>::empty());
        assert(be_value(bytes.drop_last()) == 0);
        assert(pow256(1) == 256 * pow256(0));
        assert(twos_complement(value) =~= bytes);
    } else {
        let front = bytes.drop_last();
        lemma_twos_complement_value_last(bytes);
        lemma_minimal_is_unique(front);
        let high = twos_complement_value(front);
        assert(value == high * 256 + bytes.last());
        if -128 <= value < 128 {
            assert(high == 0 || high == -1);
            assert(twos_complement(high).len() == 1);
            assert(front.len() == 1);
            assert(front[0] == bytes[0]);
            assert(bytes[1] == bytes.last());
            assert(front[0] == twos_complement(high)[0]);
            assert(false);
        }
        assert(value / 256 == high);
        assert(value % 256 == bytes.last());
        assert(twos_complement(value) =~= front.push(bytes.last()));
        assert(front.push(bytes.last()) =~= bytes);
    }
}

/// A redundant first byte can be dropped without changing the value.
pub proof fn lemma_redundant_first_byte(bytes: Seq<u8>)
    requires
        bytes.len() >= 2,
        !is_minimal(bytes),
    ensures
        twos_complement_value(bytes.subrange(1, bytes.len() as int)) == twos_complement_value(
            bytes,
        ),
{
    let rest = bytes.subrange(1, bytes.len() as int);
    lemma_be_value_first(bytes);
    assert(rest[0] == bytes[1]);
    assert(pow256(bytes.len()) == 256 * pow256(rest.len()));
    let weight = pow256(rest.len());
    assert(bytes[0] == 0 ==> bytes[0] * weight == 0) by (nonlinear_arith);
    assert(bytes[0] == 255 ==> bytes[0] * weight == 255 * weight) by (nonlinear_arith);
}

/// No byte string that stands for the same integer is shorter than the
/// minimal form.
pub proof fn lemma_minimal_is_shortest(bytes: Seq<u8>)
    requires
        bytes.len() >= 1,
    ensures
        twos_complement(twos_complement_value(bytes)).len() <= bytes.len(),
    decreases bytes.len(),
{
    if is_minimal(bytes) {
        lemma_minimal_is_unique(bytes);
    } else {
        lemma_redundant_first_byte(bytes);
        lemma_minimal_is_shortest(bytes.subrange(1, bytes.len() as int));
    }
}

/// `256^n` grows with `n`.
pub proof fn lemma_pow256_increases(low: nat, high: nat)
    requires
        low <= high,
    ensures
        pow256(low) <= pow256(high),
    decreases high,
{
    if low < high {
        lemma_pow256_increases(low, (high - 1) as nat);
        lemma_pow256_positive((high - 1) as nat);
    }
}

/// The minimal form of `value` has `n` bytes where `n` is the least count
/// with `-128 * 256^(n-1) <= value < 128 * 256^(n-1)`.
pub proof fn lemma_twos_complement_length(value: int)
    ensures
        twos_complement(value).len() >= 1,
        -128 * pow256((twos_complement(value).len() - 1) as nat) <= value,
        value < 128 * pow256((twos_complement(value).len() - 1) as nat),
        twos_complement(value).len() >= 2 ==> {
            ||| value < -128 * pow256((twos_complement(value).len() - 2) as nat)
            ||| value >= 128 * pow256((twos_complement(value).len() - 2) as nat)
        },
    decreases (if value < 0 { -value } else { value }),
{
    if -128 <= value < 128 {
        assert(pow256(0) == 1);
    } else {
        let high = value / 256;
        let n = twos_complement(value).len();
        lemma_twos_complement_length(high);
        assert(twos_complement(high).len() == n - 1);
        assert(pow256((n - 1) as nat) == 256 * pow256((n - 2) as nat));
        if n >= 3 {
            assert(pow256((n - 2) as nat) == 256 * pow256((n - 3) as nat));
        } else {
            assert(pow256(0) == 1);
        }
    }
}

/// A positive integer and its negation have minimal forms of the same
/// length, but for the integers `128 * 256^k`: there the negation fits the
/// sign into the top bit, and the positive form needs one byte more.
pub proof fn lemma_sign_symmetry(value: int)
    requires
        value > 0,
    ensures
        twos_complement(-value).len() <= twos_complement(value).len(),
        twos_complement(value).len() <= twos_complement(-value).len() + 1,
        twos_complement(value).len() == twos_complement(-value).len() + 1 <==> value == 128
            * pow256((twos_complement(-value).len() - 1) as nat),
{
    let plus = twos_complement(value).len();
    let minus = twos_complement(-value).len();
    lemma_twos_complement_length(value);
    lemma_twos_complement_length(-value);
    lemma_pow256_positive((plus - 1) as nat);
    lemma_pow256_positive((minus - 1) as nat);
    if minus > plus {
        lemma_pow256_increases((plus - 1) as nat, (minus - 2) as nat);
    }
    if plus > minus + 1 {
        lemma_pow256_increases(minus as nat, (plus - 2) as nat);
        assert(pow256(minus as nat) == 256 * pow256((minus - 1) as nat));
    }
    if plus <= minus {
        lemma_pow256_increases((plus - 1) as nat, (minus - 1) as nat);
    }
}

/// Negates an `n`-byte number modulo `256^n`, in place: every byte is
/// complemented, then one is added from the least significant byte leftward,
/// the carry moving on while a byte wraps to zero.
fn negate(bytes: &mut Vec<u8>)
    ensures
        final(bytes)@.len() == old(bytes)@.len(),
        be_value(final(bytes)@) == if be_value(old(bytes)@) == 0 {
            0
        } else {
            pow256(old(bytes)@.len()) - be_value(old(bytes)@)
        },
{
    let ghost given = bytes@;
    let n = bytes.len();
    let mut i: usize = 0;
    while i < n
        invariant
            i <= n,
            n == given.len(),
            bytes@.len() == n,
            forall|j: int| 0 <= j < i ==> bytes@[j] == (255 - given[j]) as u8,
            forall|j: int| i <= j < n ==> bytes@[j] == given[j],
        decreases n - i,
    {
        let byte = bytes[i];
        assert(!byte == 255 - byte) by (bit_vector);
        bytes[i] = !byte;
        i += 1;
    }
    let ghost complemented = bytes@;
    proof {
        assert(complemented =~= complement(given));
        lemma_complement_value(given);
        lemma_be_value_bound(given);
    }
    let mut carry = true;
    let mut k: usize = n;
    while carry && k > 0
        invariant
            k <= n,
            bytes@.len() == n,
            be_value(bytes@) + (if carry {
                pow256((n - k) as nat)
            } else {
                0
            }) == be_value(complemented) + 1,
        decreases k,
    {
        k -= 1;
        let byte = bytes[k];
        let ghost weight = pow256((n - 1 - k) as nat);
        assert(pow256((n - k) as nat) == 256 * weight);
        if byte == 0xFF {
            proof {
                lemma_be_value_update(bytes@, k as int, 0);
                let delta = 0u8 - bytes@[k as int];
                assert(delta * weight == -255 * weight) by (nonlinear_arith)
                    requires
                        delta == -255,
                ;
            }
            bytes[k] = 0;
        } else {
            proof {
                lemma_be_value_update(bytes@, k as int, (byte + 1) as u8);
                let delta = (byte + 1) as u8 - bytes@[k as int];
                assert(delta * weight == weight) by (nonlinear_arith)
                    requires
                        delta == 1,
                ;
            }
            bytes[k] = byte + 1;
            carry = false;
        }
    }
    proof {
        lemma_be_value_bound(bytes@);
    }
}

/// The minimal big-endian two's-complement bytes of `value`.
///
/// A value that is not negative gives its magnitude, with a `0x00` in front
/// where the top bit of the first byte is set. A negative value gives its
/// negated magnitude, with a `0xFF` in front where the top bit of the first
/// byte is clear. A negative value has a nonzero magnitude, so the increment
/// never carries out of the most significant byte.
pub fn to_java_byte_array(value: &BigInteger) -> (result: Vec<u8>)
    ensures
        result@ == twos_complement(value@),
        is_minimal(result@),
        twos_complement_value(result@) == value@,
{
    let negative = value.is_negative();
    let mut bytes = vstd::slice::slice_to_vec(value.magnitude());
    let ghost magnitude = bytes@;
    let ghost n = magnitude.len();
    proof {
        lemma_be_value_bound(magnitude);
        lemma_be_value_first(magnitude);
        lemma_pow256_positive((n - 1) as nat);
        assert(pow256(n) == 256 * pow256((n - 1) as nat));
        let top = pow256((n - 1) as nat);
        assert(magnitude[0] >= 1 ==> magnitude[0] * top >= top) by (nonlinear_arith)
            requires
                top > 0,
        ;
    }
    if negative {
        negate(&mut bytes);
        let ghost negated = bytes@;
        let first = bytes[0];
        assert(first & 0x80 == 0 <==> first < 128) by (bit_vector);
        if first & 0x80 == 0 {
            bytes.insert(0, 0xFF);
            proof {
                assert(bytes@.subrange(1, bytes@.len() as int) =~= negated);
                lemma_be_value_first(bytes@);
                let weight = pow256(n);
                assert(pow256(n + 1) == 256 * weight);
                assert(bytes@[0] * weight == 255 * weight) by (nonlinear_arith)
                    requires
                        bytes@[0] == 255,
                ;
            }
        } else {
            proof {
                if n >= 2 {
                    let low = negated.subrange(1, n as int);
                    lemma_be_value_first(negated);
                    lemma_be_value_first(low);
                    let weight = pow256((n - 2) as nat);
                    assert(pow256((n - 1) as nat) == 256 * weight);
                    lemma_pow256_positive((n - 2) as nat);
                    assert(low[0] == negated[1]);
                    if negated[0] == 0xFF && negated[1] >= 0x80 {
                        assert(negated[0] * (256 * weight) == 65280 * weight)
                            by (nonlinear_arith)
                            requires
                                negated[0] == 255,
                        ;
                        assert(negated[1] * weight >= 128 * weight) by (nonlinear_arith)
                            requires
                                negated[1] >= 128,
                                weight > 0,
                        ;
                        assert(false);
                    }
                }
            }
        }
    } else {
        let first = bytes[0];
        assert(first & 0x80 != 0 <==> first >= 128) by (bit_vector);
        if first & 0x80 != 0 {
            bytes.insert(0, 0);
            proof {
                assert(bytes@ =~= seq![0u8] + magnitude);
                lemma_be_value_leading_zero(magnitude);
            }
        }
    }
    proof {
        lemma_minimal_is_unique(bytes@);
    }
    bytes
}

/// The integer that the big-endian two's-complement `bytes` stand for; the
/// empty string gives zero.
///
/// Where the top bit of the first byte is set, the bytes are negated to give
/// the magnitude of a negative integer. Otherwise they are the magnitude as
/// they stand. Redundant leading bytes do not change the result.
pub fn from_java_byte_array(bytes: &[u8]) -> (result: BigInteger)
    ensures
        result@ == twos_complement_value(bytes@),
        result.negative_sign() == (twos_complement_value(bytes@) < 0),
        is_canonical(result.magnitude_bytes()),
{
    proof {
        lemma_strip_leading_zeros(bytes@);
    }
    if bytes.len() == 0 {
        return BigInteger::from_bytes_be(false, bytes);
    }
    let first = bytes[0];
    assert(first & 0x80 != 0 <==> first >= 128) by (bit_vector);
    if first & 0x80 != 0 {
        let mut magnitude = vstd::slice::slice_to_vec(bytes);
        proof {
            lemma_be_value_bound(bytes@);
            lemma_be_value_positive(bytes@);
        }
        negate(&mut magnitude);
        proof {
            lemma_strip_leading_zeros(magnitude@);
        }
        BigInteger::from_bytes_be(true, magnitude.as_slice())
    } else {
        BigInteger::from_bytes_be(false, bytes)
    }
}

} // verus!
