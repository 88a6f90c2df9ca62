//! The Huffman decoder: one lookup in the decode table per symbol, along a
//! reversed bit stream.

use vstd::prelude::*;
use vstd::arithmetic::power2::*;
use vstd::bits::*;
use crate::bit_reader_reverse::{remaining_after, BitReaderReversed, MAX_BITS_PER_READ};
use crate::bit_reader::GetBitsError;
use crate::bitstream::bits_value;
use crate::canonical::{lemma_valid_weights, Entry};
use crate::errors::HuffmanDecoderError;
use crate::table::HuffmanTable;

verus! {

/// The state that follows `state` in a table of `2^m` slots, once `num_bits`
/// bits of value `new_bits` are read: the old bits move up, those that leave
/// the table's width are dropped, and the new bits come in below.
pub open spec fn shifted_state(state: nat, m: nat, num_bits: nat, new_bits: nat) -> nat {
    (state * pow2(num_bits)) % pow2(m) + new_bits
}

/// A cursor into a Huffman decode table: the next `max_num_bits` bits of the
/// stream, held as a number.
pub struct HuffmanDecoder<'table> {
    /// The table that the decoder looks symbols up in.
    pub table: &'table HuffmanTable,
    /// The slot of the decode table that the decoder stands on.
    pub state: u64,
}

impl<'t> HuffmanDecoder<'t> {
    /// The table that the decoder looks symbols up in.
    pub open spec fn spec_table(&self) -> HuffmanTable {
        *self.table
    }

    /// The slot that the decoder stands on.
    pub open spec fn spec_state(&self) -> u64 {
        self.state
    }

    /// Whether the decoder stands on a slot of a built table.
    pub open spec fn wf(&self) -> bool {
        &&& self.spec_table().is_built()
        &&& self.spec_state() < self.spec_table().spec_decode().len()
    }

    /// The slot that the decoder stands on.
    pub open spec fn current(&self) -> Entry
        recommends
            self.wf(),
    {
        self.spec_table().spec_decode()[self.spec_state() as int]
    }

    /// A decoder on the first slot of `table`.
    pub fn new(table: &'t HuffmanTable) -> (r: HuffmanDecoder<'t>)
        ensures
            r.spec_table() == *table,
            r.spec_state() == 0,
            table.is_built() ==> r.wf(),
    {
        proof {
            lemma_pow2_pos(table.spec_max_num_bits() as nat);
        }
        HuffmanDecoder { table, state: 0 }
    }

    /// Puts the decoder back on the first slot, of `new_table` if one is
    /// given.
    pub fn reset(&mut self, new_table: Option<&'t HuffmanTable>)
        ensures
            final(self).spec_state() == 0,
            final(self).spec_table() == (match new_table {
                Some(next_table) => *next_table,
                None => old(self).spec_table(),
            }),
            final(self).spec_table().is_built() ==> final(self).wf(),
    {
        self.state = 0;
        if let Some(next_table) = new_table {
            self.table = next_table;
        }
        proof {
            lemma_pow2_pos(self.spec_table().spec_max_num_bits() as nat);
        }
    }

    /// The symbol of the slot that the decoder stands on.
    pub fn decode_symbol(&mut self) -> (r: u8)
        requires
            old(self).wf(),
        ensures
            *final(self) == *old(self),
            r == old(self).current().symbol,
    {
        proof {
            lemma_valid_weights(self.spec_table().spec_weights());
            crate::arith::lemma_pow2_monotone(self.spec_table().spec_max_num_bits() as nat, 11);
            lemma2_to64();
        }
        self.table.entry(self.state as usize).symbol
    }

    /// Reads the first state from the stream: as many bits as the longest
    /// code has. Gives the number of bits read.
    pub fn init_state(&mut self, br: &mut BitReaderReversed<'_>) -> (r: Result<
        u8,
        HuffmanDecoderError,
    >)
        ensures
            final(self).spec_table() == old(self).spec_table(),
            final(br).source() == old(br).source(),
            old(self).spec_table().spec_max_num_bits() > MAX_BITS_PER_READ ==> r == Err::<
                u8,
                HuffmanDecoderError,
            >(
                HuffmanDecoderError::GetBitsError(
                    GetBitsError::TooManyBits {
                        num_requested_bits: old(self).spec_table().spec_max_num_bits() as usize,
                        limit: MAX_BITS_PER_READ,
                    },
                ),
            ) && final(self).spec_state() == old(self).spec_state() && final(br).remaining()
                == old(br).remaining(),
            old(self).spec_table().spec_max_num_bits() <= MAX_BITS_PER_READ ==> r == Ok::<
                u8,
                HuffmanDecoderError,
            >(old(self).spec_table().spec_max_num_bits()) && final(self).spec_state()
                == bits_value(
                old(br).source(),
                old(br).remaining() - old(self).spec_table().spec_max_num_bits(),
                old(self).spec_table().spec_max_num_bits() as nat,
            ) && final(br).remaining() == remaining_after(
                old(br).remaining(),
                old(self).spec_table().spec_max_num_bits() as nat,
            ),
            old(self).spec_table().is_built() ==> r is Ok && final(self).wf(),
    {
        let num_bits: u8 = self.table.max_bits();
        proof {
            if self.spec_table().is_built() {
                lemma_valid_weights(self.spec_table().spec_weights());
            }
        }
        match br.get_bits(num_bits) {
            Err(e) => Err(HuffmanDecoderError::from(e)),
            Ok(new_bits) => {
                self.state = new_bits;
                Ok(num_bits)
            },
        }
    }

    /// Moves on by the code of the symbol just decoded: reads as many bits
    /// as that code has and takes them into the state. Gives the number of
    /// bits read.
    pub fn next_state(&mut self, br: &mut BitReaderReversed<'_>) -> (r: Result<
        u8,
        HuffmanDecoderError,
    >)
        requires
            old(self).wf(),
        ensures
            final(self).spec_table() == old(self).spec_table(),
            final(br).source() == old(br).source(),
            r == Ok::<u8, HuffmanDecoderError>(old(self).current().num_bits),
            final(self).wf(),
            final(self).spec_state() == shifted_state(
                old(self).spec_state() as nat,
                old(self).spec_table().spec_max_num_bits() as nat,
                old(self).current().num_bits as nat,
                bits_value(
                    old(br).source(),
                    old(br).remaining() - old(self).current().num_bits,
                    old(self).current().num_bits as nat,
                ),
            ),
            final(br).remaining() == remaining_after(
                old(br).remaining(),
                old(self).current().num_bits as nat,
            ),
    {
        let entry: Entry = self.table.entry(self.state as usize);
        let num_bits: u8 = entry.num_bits;
        let size: u64 = self.table.table_size() as u64;
        let ghost m: u64 = self.spec_table().spec_max_num_bits() as u64;
        proof {
            lemma_valid_weights(self.spec_table().spec_weights());
            crate::arith::lemma_pow2_monotone(m as nat, 11);
            lemma2_to64();
        }
        match br.get_bits(num_bits) {
            Err(e) => Err(HuffmanDecoderError::from(e)),
            Ok(new_bits) => {
                let old_state: u64 = self.state;
                let shift: u64 = num_bits as u64;
                let mask: u64 = size - 1;
                proof {
                    lemma_u64_shl_is_mul(1u64, m);
                    lemma_u64_shl_is_mul(1u64, shift);
                    crate::arith::lemma_pow2_monotone(shift as nat, 11);
                    assert(size == 1u64 << m);
                    assert(new_bits < 1u64 << shift);
                    assert(old_state * pow2(shift as nat) <= 2048 * 2048) by (nonlinear_arith)
                        requires
                            old_state < 2048,
                            pow2(shift as nat) <= 2048,
                    ;
                    lemma_u64_shl_is_mul(old_state, shift);
                    let moved: u64 = old_state << shift;
                    lemma_u64_low_bits_mask_is_mod(moved, m as nat);
                    assert(low_bits_mask(m as nat) == mask);
                    assert(((moved & mask) | new_bits) == (moved & mask) + new_bits) by (bit_vector)
                        requires
                            moved == old_state << shift,
                            shift <= 11,
                            old_state < 2048,
                            new_bits < 1u64 << shift,
                    ;
                    assert(((moved & mask) | new_bits) <= mask) by (bit_vector)
                        requires
                            mask + 1 == 1u64 << m,
                            shift <= m,
                            m <= 11,
                            new_bits < 1u64 << shift,
                    ;
                }
                self.state = old_state << shift;
                self.state = self.state & mask;
                self.state = self.state | new_bits;
                Ok(num_bits)
            },
        }
    }
}

/// A state on a slot of the table has no bit outside the table's width.
pub proof fn lemma_state_is_masked(decoder: HuffmanDecoder)
    requires
        decoder.wf(),
    ensures
        decoder.spec_state() & ((decoder.spec_table().spec_decode().len() - 1) as u64)
            == decoder.spec_state(),
        decoder.spec_table().spec_decode().len() == pow2(
            decoder.spec_table().spec_max_num_bits() as nat,
        ),
        decoder.current().num_bits >= 1,
        decoder.current().num_bits <= decoder.spec_table().spec_max_num_bits(),
{
    let m: u64 = decoder.spec_table().spec_max_num_bits() as u64;
    let s: u64 = decoder.spec_state();
    lemma_valid_weights(decoder.spec_table().spec_weights());
    crate::arith::lemma_pow2_monotone(m as nat, 11);
    lemma2_to64();
    lemma_u64_shl_is_mul(1u64, m);
    let size: u64 = (1u64 << m);
    assert(s & ((size - 1) as u64) == s) by (bit_vector)
        requires
            size == 1u64 << m,
            m <= 11,
            s < size,
    ;
}

} // verus!
