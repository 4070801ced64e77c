//! Arbitrary-precision signed integers held as a sign and big-endian
//! magnitude bytes.

use vstd::prelude::*;

verus! {

/// The number that `bytes` spell as base-256 digits, most significant first.
pub open spec fn be_value(bytes: Seq<u8>) -> nat
    decreases bytes.len(),
{
    if bytes.len() == 0 {
        0
    } else {
        be_value(bytes.drop_last()) * 256 + bytes.last() as nat
    }
}

/// A magnitude is canonical when it has at least one byte and no leading
/// zero byte in front of another byte.
pub open spec fn is_canonical(magnitude: Seq<u8>) -> bool {
    &&& magnitude.len() >= 1
    &&& magnitude.len() >= 2 ==> magnitude[0] != 0
}

/// `bytes` without its leading zero bytes; a single zero byte stands for zero.
pub open spec fn strip_leading_zeros(bytes: Seq<u8>) -> Seq<u8>
    decreases bytes.len(),
{
    if bytes.len() == 0 {
        seq![0u8]
    } else if bytes.len() >= 2 && bytes[0] == 0 {
        strip_leading_zeros(bytes.subrange(1, bytes.len() as int))
    } else {
        bytes
    }
}

/// The integer with the given sign and magnitude.
pub open spec fn signed_value(negative: bool, magnitude: nat) -> int {
    if negative {
        -(magnitude as int)
    } else {
        magnitude as int
    }
}

/// A leading zero byte does not change the value.
pub proof fn lemma_be_value_leading_zero(bytes: Seq<u8>)
    ensures
        be_value(seq![0u8] + bytes) == be_value(bytes),
    decreases bytes.len(),
{
    let extended = seq![0u8] + bytes;
    if bytes.len() == 0 {
        assert(extended.drop_last() =~= Seq::<u8>::empty());
        assert(be_value(extended.drop_last()) == 0);
    } else {
        assert(extended.drop_last() =~= seq![0u8] + bytes.drop_last());
        lemma_be_value_leading_zero(bytes.drop_last());
    }
}

/// Stripping leading zero bytes keeps the value and gives a canonical magnitude.
pub proof fn lemma_strip_leading_zeros(bytes: Seq<u8>)
    ensures
        is_canonical(strip_leading_zeros(bytes)),
        be_value(strip_leading_zeros(bytes)) == be_value(bytes),
        strip_leading_zeros(bytes).len() <= if bytes.len() == 0 { 1 } else { bytes.len() },
    decreases bytes.len(),
{
    if bytes.len() == 0 {
        assert(seq![0u8].drop_last() =~= Seq::<u8>::empty());
        assert(be_value(seq![0u8].drop_last()) == 0);
    } else if bytes.len() >= 2 && bytes[0] == 0 {
        let rest = bytes.subrange(1, bytes.len() as int);
        lemma_strip_leading_zeros(rest);
        assert(bytes =~= seq![0u8] + rest);
        lemma_be_value_leading_zero(rest);
    }
}

/// A magnitude whose first byte is not zero is positive.
pub proof fn lemma_be_value_positive(bytes: Seq<u8>)
    requires
        bytes.len() >= 1,
        bytes[0] != 0,
    ensures
        be_value(bytes) > 0,
    decreases bytes.len(),
{
    if bytes.len() >= 2 {
        lemma_be_value_positive(bytes.drop_last());
    } else {
        assert(bytes.drop_last() =~= Seq::<u8>::empty());
        assert(be_value(bytes.drop_last()) == 0);
    }
}

/// An arbitrary-precision signed integer: a sign and the big-endian bytes of
/// its magnitude, kept canonical. Zero is the single byte `0` without a sign.
#[derive(Debug)]
pub struct BigInteger {
    pub(crate) negative: bool,
    pub(crate) magnitude: Vec<u8>,
}

impl View for BigInteger {
    type V = int;

    open spec fn view(&self) -> int {
        signed_value(self.negative_sign(), be_value(self.magnitude_bytes()))
    }
}

impl Clone for BigInteger {
    fn clone(&self) -> (result: Self)
        ensures
            result.negative_sign() == self.negative_sign(),
            result.magnitude_bytes() == self.magnitude_bytes(),
            result@ == self@,
    {
        proof {
            use_type_invariant(self);
        }
        BigInteger {
            negative: self.negative,
            magnitude: vstd::slice::slice_to_vec(self.magnitude.as_slice()),
        }
    }
}

impl BigInteger {
    /// The invariant of every value: the magnitude is canonical, and only a
    /// nonzero magnitude carries a minus sign.
    #[verifier::type_invariant]
    pub closed spec fn well_formed(self) -> bool {
        &&& is_canonical(self.magnitude@)
        &&& self.negative ==> be_value(self.magnitude@) > 0
    }

    /// Whether the sign is minus.
    pub closed spec fn negative_sign(&self) -> bool {
        self.negative
    }

    /// The big-endian bytes of the magnitude.
    pub closed spec fn magnitude_bytes(&self) -> Seq<u8> {
        self.magnitude@
    }

    /// Builds the integer with the given sign whose magnitude `bytes` spell in
    /// big-endian order. Leading zero bytes are dropped, and a zero magnitude
    /// loses its sign.
    pub fn from_bytes_be(negative: bool, bytes: &[u8]) -> (result: BigInteger)
        ensures
            result.well_formed(),
            result.magnitude_bytes() == strip_leading_zeros(bytes@),
            result.negative_sign() == (negative && be_value(bytes@) > 0),
            result@ == signed_value(negative, be_value(bytes@)),
    {
        let last: usize = if bytes.len() == 0 {
            0
        } else {
            bytes.len() - 1
        };
        let mut start: usize = 0;
        proof {
            assert(bytes@.subrange(0, bytes.len() as int) =~= bytes@);
        }
        while start < last && bytes[start] == 0
            invariant
                start <= last,
                last == if bytes.len() == 0 { 0 } else { bytes.len() - 1 },
                strip_leading_zeros(bytes@.subrange(start as int, bytes.len() as int))
                    == strip_leading_zeros(bytes@),
            decreases bytes.len() - start,
        {
            proof {
                let rest = bytes@.subrange(start as int, bytes.len() as int);
                assert(rest.subrange(1, rest.len() as int) =~= bytes@.subrange(
                    start + 1,
                    bytes.len() as int,
                ));
            }
            start += 1;
        }
        let mut magnitude = vstd::slice::slice_to_vec(
            vstd::slice::slice_subrange(bytes, start, bytes.len()),
        );
        if magnitude.len() == 0 {
            magnitude.push(0);
        }
        proof {
            let rest = bytes@.subrange(start as int, bytes.len() as int);
            if bytes.len() == 0 {
                assert(magnitude@ =~= seq![0u8]);
            }
            assert(magnitude@ == strip_leading_zeros(rest));
            lemma_strip_leading_zeros(bytes@);
        }
        let is_zero = magnitude.len() == 1 && magnitude[0] == 0;
        proof {
            if is_zero {
                assert(magnitude@.drop_last() =~= Seq::<u8>::empty());
                assert(be_value(magnitude@.drop_last()) == 0);
            } else {
                lemma_be_value_positive(magnitude@);
            }
        }
        BigInteger { negative: negative && !is_zero, magnitude }
    }

    /// Whether the integer is zero.
    pub fn is_zero(&self) -> (result: bool)
        ensures
            result == (self@ == 0),
    {
        proof {
            use_type_invariant(self);
            if self.magnitude@.len() == 1 && self.magnitude@[0] == 0 {
                assert(self.magnitude@.drop_last() =~= Seq::<u8>::empty());
                assert(be_value(self.magnitude@.drop_last()) == 0);
            } else {
                lemma_be_value_positive(self.magnitude@);
            }
        }
        self.magnitude.len() == 1 && self.magnitude[0] == 0
    }

    /// Whether the integer is below zero.
    pub fn is_negative(&self) -> (result: bool)
        ensures
            result == self.negative_sign(),
            result == (self@ < 0),
    {
        proof {
            use_type_invariant(self);
        }
        self.negative
    }

    /// The big-endian bytes of the magnitude, without leading zero bytes; the
    /// magnitude of zero is one zero byte.
    pub fn magnitude(&self) -> (result: &[u8])
        ensures
            result@ == self.magnitude_bytes(),
            is_canonical(result@),
            be_value(result@) == vstd::math::abs(self@),
    {
        proof {
            use_type_invariant(self);
        }
        self.magnitude.as_slice()
    }
}

} // verus!
