//! The decoder that walks an FSE table, state by state, along a reversed bit
//! stream.

use vstd::prelude::*;
use vstd::arithmetic::power2::*;
use crate::bit_reader_reverse::{remaining_after, BitReaderReversed};
use crate::bitstream::bits_value;
use crate::errors::FSEDecoderError;
use crate::fse_layout::{entry_in_table, FSEEntry};
use crate::fse_table::FSETable;

verus! {

/// The state that a decoder starts in: the one that the next `al` bits of
/// the stream name.
pub open spec fn initial_state(
    decode: Seq<FSEEntry>,
    al: nat,
    payload: Seq<u8>,
    remaining: int,
) -> FSEEntry {
    decode[bits_value(payload, remaining - al, al) as int]
}

/// The state that follows `state`: its base line plus the next bits of the
/// stream, as many as the state asks for.
pub open spec fn next_state(
    decode: Seq<FSEEntry>,
    state: FSEEntry,
    payload: Seq<u8>,
    remaining: int,
) -> FSEEntry {
    decode[state.base_line + bits_value(
        payload,
        remaining - state.num_bits,
        state.num_bits as nat,
    )]
}

/// A cursor into an FSE table.
pub struct FSEDecoder<'t> {
    state: FSEEntry,
    table: &'t FSETable,
}

impl<'t> FSEDecoder<'t> {
    /// The state that the decoder is in.
    pub closed spec fn spec_state(&self) -> FSEEntry {
        self.state
    }

    /// The table that the decoder walks.
    pub closed spec fn spec_table(&self) -> FSETable {
        *self.table
    }

    /// Whether the decoder stands on a state of a built table.
    pub open spec fn wf(&self) -> bool {
        &&& self.spec_table().is_built()
        &&& entry_in_table(self.spec_state(), self.spec_table().spec_accuracy_log())
    }

    /// A decoder on the first state of `table`.
    pub fn new(table: &'t FSETable) -> (r: FSEDecoder<'t>)
        ensures
            r.spec_table() == *table,
            r.spec_state() == (if table.spec_decode().len() > 0 {
                table.spec_decode()[0]
            } else {
                FSEEntry { base_line: 0, num_bits: 0, symbol: 0 }
            }),
            table.is_built() ==> r.wf(),
    {
        let state = if table.num_states() > 0 {
            table.entry(0)
        } else {
            FSEEntry { base_line: 0, num_bits: 0, symbol: 0 }
        };
        proof {
            if table.is_built() {
                lemma_pow2_pos(table.spec_accuracy_log());
                assert(entry_in_table(table.spec_decode()[0], table.spec_accuracy_log()));
            }
        }
        FSEDecoder { state, table }
    }

    /// The symbol of the state that the decoder is in.
    pub fn decode_symbol(&self) -> (r: u8)
        ensures
            r == self.spec_state().symbol,
    {
        self.state.symbol
    }

    /// Reads the first state from the stream.
    pub fn init_state(&mut self, bits: &mut BitReaderReversed<'_>) -> (r: Result<
        (),
        FSEDecoderError,
    >)
        requires
            old(self).spec_table().spec_accuracy_log() == 0 || old(self).spec_table().is_built(),
        ensures
            final(self).spec_table() == old(self).spec_table(),
            final(bits).source() == old(bits).source(),
            old(self).spec_table().spec_accuracy_log() == 0 ==> r == Err::<(), FSEDecoderError>(
                FSEDecoderError::TableIsUninitialized,
            ) && final(self).spec_state() == old(self).spec_state() && final(bits).remaining()
                == old(bits).remaining(),
            old(self).spec_table().spec_accuracy_log() != 0 ==> r == Ok::<(), FSEDecoderError>(())
                && final(self).wf() && final(self).spec_state() == initial_state(
                old(self).spec_table().spec_decode(),
                old(self).spec_table().spec_accuracy_log(),
                old(bits).source(),
                old(bits).remaining(),
            ) && final(bits).remaining() == remaining_after(
                old(bits).remaining(),
                old(self).spec_table().spec_accuracy_log(),
            ),
    {
        let al: u8 = self.table.accuracy_log();
        if al == 0 {
            return Err(FSEDecoderError::TableIsUninitialized);
        }
        proof {
            crate::arith::lemma_pow2_monotone(al as nat, 20);
            lemma2_to64();
        }
        match bits.get_bits(al) {
            Err(e) => Err(FSEDecoderError::GetBitsError(e)),
            Ok(index) => {
                self.state = self.table.entry(index as usize);
                Ok(())
            },
        }
    }

    /// Moves on to the next state, reading as many bits as the state that
    /// the decoder is in asks for.
    pub fn update_state(&mut self, bits: &mut BitReaderReversed<'_>) -> (r: Result<
        (),
        FSEDecoderError,
    >)
        requires
            old(self).wf(),
        ensures
            final(self).spec_table() == old(self).spec_table(),
            final(bits).source() == old(bits).source(),
            r == Ok::<(), FSEDecoderError>(()),
            final(self).wf(),
            final(self).spec_state() == next_state(
                old(self).spec_table().spec_decode(),
                old(self).spec_state(),
                old(bits).source(),
                old(bits).remaining(),
            ),
            final(bits).remaining() == remaining_after(
                old(bits).remaining(),
                old(self).spec_state().num_bits as nat,
            ),
    {
        let num_bits: u8 = self.state.num_bits;
        proof {
            crate::arith::lemma_pow2_monotone(self.spec_table().spec_accuracy_log(), 20);
            lemma2_to64();
        }
        match bits.get_bits(num_bits) {
            Err(e) => Err(FSEDecoderError::GetBitsError(e)),
            Ok(add) => {
                let new_state: usize = self.state.base_line as usize + add as usize;
                self.state = self.table.entry(new_state);
                Ok(())
            },
        }
    }
}

} // verus!
