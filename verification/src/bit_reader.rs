//! A reader that takes bits from the front of a byte slice toward its end.

use vstd::prelude::*;
use vstd::arithmetic::power2::*;
use crate::bitstream::{bit_at, bits_value, lemma_bit_at_is_bit};

verus! {

/// Why a bit reader refused a read.
#[derive(Debug, Clone, Copy, PartialEq, Eq)]
#[non_exhaustive]
pub enum GetBitsError {
    /// More bits were asked for in one read than the reader hands out.
    TooManyBits { num_requested_bits: usize, limit: u8 },
    /// Fewer bits are left in the stream than were asked for.
    NotEnoughRemainingBits { requested: usize, remaining: usize },
}

/// Reads a byte slice as a stream of bits, first byte first, lowest bit first.
pub struct BitReader<'s> {
    source: &'s [u8],
    idx: usize,
}

impl<'s> BitReader<'s> {
    /// The position lies in the stream, and the stream's bits can be counted.
    #[verifier::type_invariant]
    spec fn inv(self) -> bool {
        self.idx <= 8 * self.source@.len() <= usize::MAX
    }

    /// The bytes under the reader.
    pub closed spec fn source(&self) -> Seq<u8> {
        self.source@
    }

    /// How many bits have been taken so far.
    pub closed spec fn position(&self) -> nat {
        self.idx as nat
    }

    /// A reader at the first bit of `source`.
    pub fn new(source: &'s [u8]) -> (r: BitReader<'s>)
        requires
            8 * source@.len() <= usize::MAX,
        ensures
            r.source() == source@,
            r.position() == 0,
    {
        BitReader { source, idx: 0 }
    }

    /// Number of bits not yet taken.
    pub fn bits_left(&self) -> (r: usize)
        ensures
            r == 8 * self.source().len() - self.position(),
            self.position() <= 8 * self.source().len(),
    {
        proof {
            use_type_invariant(self);
        }
        self.source.len() * 8 - self.idx
    }

    /// Number of bits taken so far.
    pub fn bits_read(&self) -> (r: usize)
        ensures
            r == self.position(),
            self.position() <= 8 * self.source().len(),
    {
        proof {
            use_type_invariant(self);
        }
        self.idx
    }

    /// Hands the last `n` bits back to the stream.
    pub fn return_bits(&mut self, n: usize)
        requires
            n <= old(self).position(),
        ensures
            final(self).source() == old(self).source(),
            final(self).position() == old(self).position() - n,
    {
        proof {
            use_type_invariant(&*self);
        }
        self.idx = self.idx - n;
    }

    /// Takes the next `n` bits. The first bit taken becomes the least
    /// significant bit of the result. A refused read leaves the reader where
    /// it was.
    pub fn get_bits(&mut self, n: usize) -> (r: Result<u64, GetBitsError>)
        ensures
            final(self).source() == old(self).source(),
            old(self).position() <= 8 * old(self).source().len(),
            n > 64 ==> r == Err::<u64, GetBitsError>(
                GetBitsError::TooManyBits { num_requested_bits: n, limit: 64 },
            ) && final(self).position() == old(self).position(),
            n <= 64 && old(self).position() + n > 8 * old(self).source().len() ==> r == Err::<
                u64,
                GetBitsError,
            >(
                GetBitsError::NotEnoughRemainingBits {
                    requested: n,
                    remaining: (8 * old(self).source().len() - old(self).position()) as usize,
                },
            ) && final(self).position() == old(self).position(),
            n <= 64 && old(self).position() + n <= 8 * old(self).source().len() ==> r == Ok::<
                u64,
                GetBitsError,
            >(bits_value(old(self).source(), old(self).position() as int, n as nat) as u64)
                && final(self).position() == old(self).position() + n
                && bits_value(old(self).source(), old(self).position() as int, n as nat) < pow2(
                n as nat,
            ) <= 0x1_0000_0000_0000_0000,
    {
        proof {
            use_type_invariant(&*self);
        }
        if n > 64 {
            return Err(GetBitsError::TooManyBits { num_requested_bits: n, limit: 64 });
        }
        let left_in_stream: usize = self.source.len() * 8 - self.idx;
        if left_in_stream < n {
            return Err(
                GetBitsError::NotEnoughRemainingBits { requested: n, remaining: left_in_stream },
            );
        }
        let start: usize = self.idx;
        let mut value: u64 = 0;
        let mut left: usize = n;
        proof {
            lemma2_to64();
            lemma2_to64_rest();
        }
        while left > 0
            invariant
                left <= n <= 64,
                start + n <= 8 * self.source@.len() <= usize::MAX,
                value == bits_value(self.source@, start + left, (n - left) as nat),
                value < pow2((n - left) as nat),
            decreases left,
        {
            left = left - 1;
            let pos: usize = start + left;
            let byte: u8 = self.source[pos / 8];
            let k: u8 = (pos % 8) as u8;
            let bit: u64 = ((byte >> k) & 1u8) as u64;
            proof {
                lemma_bit_at_is_bit(self.source@, pos as int);
                assert(bit == bit_at(self.source@, pos as int));
                lemma_pow2_unfold((n - left) as nat);
                crate::arith::lemma_pow2_monotone((n - left) as nat, 64);
                lemma2_to64();
                assert(bits_value(self.source@, pos as int, (n - left) as nat) == bit_at(
                    self.source@,
                    pos as int,
                ) + 2 * bits_value(self.source@, pos + 1, (n - left - 1) as nat));
            }
            value = value * 2 + bit;
        }
        proof {
            crate::arith::lemma_pow2_monotone(n as nat, 64);
            lemma2_to64();
        }
        self.idx = start + n;
        Ok(value)
    }
}

} // verus!
