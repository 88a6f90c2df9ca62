//! A reader that takes bits from the end of a byte slice toward its start.

use vstd::prelude::*;
use vstd::arithmetic::power2::*;
use crate::bit_reader::GetBitsError;
use crate::bitstream::{bit_at, bits_value, lemma_bit_at_is_bit};

verus! {

/// The largest number of bits that one read of the reversed reader hands out.
pub const MAX_BITS_PER_READ: u8 = 56;

/// The count of remaining bits after `n` more bits were taken from a stream
/// that had `remaining` left. The count goes below zero once the stream is
/// overrun, and stays at the lowest `isize` rather than wrapping.
pub open spec fn remaining_after(remaining: int, n: nat) -> int {
    if remaining - n < isize::MIN {
        isize::MIN as int
    } else {
        remaining - n
    }
}

/// Reads a byte slice as a stream of bits from its last byte toward its
/// first, highest bit first. Reads past the start of the slice yield zero
/// bits and drive the count of remaining bits below zero.
pub struct BitReaderReversed<'s> {
    source: &'s [u8],
    remaining: isize,
}

impl<'s> BitReaderReversed<'s> {
    /// No more bits remain than the stream holds.
    #[verifier::type_invariant]
    spec fn inv(self) -> bool {
        self.remaining <= 8 * self.source@.len()
    }

    /// The bytes under the reader.
    pub closed spec fn source(&self) -> Seq<u8> {
        self.source@
    }

    /// Bits not yet taken; negative by the number of bits read past the start.
    pub closed spec fn remaining(&self) -> int {
        self.remaining as int
    }

    /// A reader at the last bit of `source`.
    pub fn new(source: &'s [u8]) -> (r: BitReaderReversed<'s>)
        requires
            8 * source@.len() <= isize::MAX,
        ensures
            r.source() == source@,
            r.remaining() == 8 * source@.len(),
    {
        BitReaderReversed { source, remaining: (source.len() * 8) as isize }
    }

    /// Bits not yet taken. A negative count tells that the stream was overrun.
    pub fn bits_remaining(&self) -> (r: isize)
        ensures
            r == self.remaining(),
            self.remaining() <= 8 * self.source().len(),
    {
        proof {
            use_type_invariant(self);
        }
        self.remaining
    }

    /// Takes the next `n` bits, at most 56. The first bit taken becomes the
    /// most significant bit of the result. Bits asked for beyond the start of
    /// the slice read as zero.
    pub fn get_bits(&mut self, n: u8) -> (r: Result<u64, GetBitsError>)
        ensures
            final(self).source() == old(self).source(),
            n > MAX_BITS_PER_READ ==> r == Err::<u64, GetBitsError>(
                GetBitsError::TooManyBits {
                    num_requested_bits: n as usize,
                    limit: MAX_BITS_PER_READ,
                },
            ) && final(self).remaining() == old(self).remaining(),
            n <= MAX_BITS_PER_READ ==> r == Ok::<u64, GetBitsError>(
                bits_value(old(self).source(), old(self).remaining() - n, n as nat) as u64,
            ) && final(self).remaining() == remaining_after(old(self).remaining(), n as nat)
                && bits_value(old(self).source(), old(self).remaining() - n, n as nat) < pow2(
                n as nat,
            ) <= 0x100_0000_0000_0000,
    {
        proof {
            use_type_invariant(&*self);
        }
        if n > MAX_BITS_PER_READ {
            return Err(
                GetBitsError::TooManyBits { num_requested_bits: n as usize, limit: MAX_BITS_PER_READ },
            );
        }
        let top: isize = self.remaining;
        let mut value: u64 = 0;
        let mut taken: u8 = 0;
        proof {
            lemma2_to64();
            lemma2_to64_rest();
        }
        while taken < n
            invariant
                taken <= n <= 56,
                top <= 8 * self.source@.len(),
                value == bits_value(self.source@, top - taken, taken as nat),
                value < pow2(taken as nat),
            decreases n - taken,
        {
            let bit: u64 = if (taken as isize) < top {
                let pos: usize = (top - 1 - taken as isize) as usize;
                let byte: u8 = self.source[pos / 8];
                let k: u8 = (pos % 8) as u8;
                ((byte >> k) & 1u8) as u64
            } else {
                0
            };
            proof {
                let pos: int = top - 1 - taken;
                lemma_bit_at_is_bit(self.source@, pos);
                assert(bit == bit_at(self.source@, pos));
                lemma_pow2_unfold((taken + 1) as nat);
                crate::arith::lemma_pow2_monotone((taken + 1) as nat, 56);
                lemma2_to64_rest();
                assert(bits_value(self.source@, pos, (taken + 1) as nat) == bit_at(
                    self.source@,
                    pos,
                ) + 2 * bits_value(self.source@, pos + 1, taken as nat));
            }
            value = value * 2 + bit;
            taken = taken + 1;
        }
        proof {
            crate::arith::lemma_pow2_monotone(n as nat, 56);
            lemma2_to64_rest();
        }
        self.remaining = if top < isize::MIN + n as isize {
            isize::MIN
        } else {
            top - n as isize
        };
        Ok(value)
    }
}

} // verus!
