//! The mathematical model of a bit stream laid over a byte sequence.
//!
//! Bit `i` of a stream is bit `i % 8` of byte `i / 8`, least significant bit
//! first. Both readers of this crate state what they return over this model.

use vstd::prelude::*;
use vstd::arithmetic::power2::*;

verus! {

/// Bit `i` of the stream over `source`. Every position outside the stream
/// holds a zero bit.
pub open spec fn bit_at(source: Seq<u8>, i: int) -> nat {
    if 0 <= i < 8 * source.len() {
        ((source[i / 8] >> ((i % 8) as u8)) & 1u8) as nat
    } else {
        0
    }
}

/// The number whose binary digits are the `n` bits that start at position
/// `lo`; the bit at `lo` is the least significant one.
pub open spec fn bits_value(source: Seq<u8>, lo: int, n: nat) -> nat
    decreases n,
{
    if n == 0 {
        0
    } else {
        bit_at(source, lo) + 2 * bits_value(source, lo + 1, (n - 1) as nat)
    }
}

/// A bit is zero or one.
pub proof fn lemma_bit_at_is_bit(source: Seq<u8>, i: int)
    ensures
        bit_at(source, i) <= 1,
{
    if 0 <= i < 8 * source.len() {
        let b: u8 = source[i / 8];
        let k: u8 = (i % 8) as u8;
        assert((b >> k) & 1u8 <= 1u8) by (bit_vector);
    }
}

} // verus!
