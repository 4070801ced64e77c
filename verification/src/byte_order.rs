//! The byte order of the stored form: the two's-complement bytes in reverse.

use vstd::prelude::*;

verus! {

/// The bytes of `bytes` in reverse order.
pub fn reverse(bytes: &[u8]) -> (result: Vec<u8>)
    ensures
        result@ == bytes@.reverse(),
{
    let n = bytes.len();
    let mut result: Vec<u8> = Vec::with_capacity(n);
    let mut i: usize = n;
    while i > 0
        invariant
            i <= n,
            n == bytes@.len(),
            result@.len() == n - i,
            forall|j: int| 0 <= j < result@.len() ==> result@[j] == bytes@[n - 1 - j],
        decreases i,
    {
        i -= 1;
        result.push(bytes[i]);
    }
    proof {
        assert(result@ =~= bytes@.reverse());
    }
    result
}

/// Reversing twice gives the bytes back.
pub proof fn lemma_reverse_is_self_inverse(bytes: Seq<u8>)
    ensures
        bytes.reverse().reverse() == bytes,
        bytes.reverse().len() == bytes.len(),
{
    assert(bytes.reverse().reverse() =~= bytes);
}

} // verus!
