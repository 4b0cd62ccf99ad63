//! The bit-stream model: a packet is a sequence of bits, each byte contributing
//! its bits least significant first, and a fixed-width field is the unsigned
//! integer assembled from the next bits, least significant first.

use vstd::prelude::*;

verus! {

use vstd::arithmetic::power2::{pow2, lemma_pow2_unfold};

/// The numeric value of a single bit.
pub open spec fn bit_val(b: bool) -> nat {
    if b {
        1
    } else {
        0
    }
}

/// The unsigned integer held by a bit string, least significant bit first.
pub open spec fn uint_of(s: Seq<bool>) -> nat
    decreases s.len(),
{
    if s.len() == 0 {
        0
    } else {
        bit_val(s[0]) + 2 * uint_of(s.skip(1))
    }
}

/// A byte buffer as a bit stream: bytes in order, each least significant bit first.
pub open spec fn bytes_bits(bytes: Seq<u8>) -> Seq<bool> {
    Seq::new(bytes.len() * 8, |i: int| (bytes[i / 8] >> ((i % 8) as u8)) & 1 == 1)
}

/// The value of the next `n` bits of a stream.
pub open spec fn field(s: Seq<bool>, n: int) -> nat {
    uint_of(s.take(n))
}

/// A bit string of length `n` holds a value below `pow2(n)`.
pub proof fn lemma_uint_of_bound(s: Seq<bool>)
    ensures
        uint_of(s) < pow2(s.len()),
    decreases s.len(),
{
    if s.len() == 0 {
        vstd::arithmetic::power2::lemma2_to64();
    } else {
        lemma_uint_of_bound(s.skip(1));
        lemma_pow2_unfold(s.len());
    }
}

/// The next `n` bits of a stream of length at least `n` form a value below `pow2(n)`.
pub proof fn lemma_field_bound(s: Seq<bool>, n: int)
    requires
        0 <= n <= s.len(),
    ensures
        field(s, n) < pow2(n as nat),
{
    lemma_uint_of_bound(s.take(n));
}

} // verus!
