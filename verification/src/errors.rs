//! What can go wrong while a table is read or a stream is decoded.

use vstd::prelude::*;
use crate::bit_reader::GetBitsError;
use vstd::std_specs::convert::FromSpecImpl;

verus! {

/// Why the description of an FSE table was refused.
#[derive(Debug, Clone, Copy, PartialEq, Eq)]
#[non_exhaustive]
#[allow(inconsistent_fields)]
pub enum FSETableError {
    /// The accuracy log is above what the caller allows.
    AccLogTooBig { got: u8, max: u8 },
    /// The description ended before the table was complete.
    GetBitsError(GetBitsError),
    /// More symbols are described than a byte can name.
    TooManySymbols { got: usize },
}

/// Why an FSE decoder could not move on.
#[derive(Debug, Clone, Copy, PartialEq, Eq)]
#[non_exhaustive]
#[allow(inconsistent_fields)]
pub enum FSEDecoderError {
    /// The bit reader refused a read.
    GetBitsError(GetBitsError),
    /// The table under the decoder was never built.
    TableIsUninitialized,
}

/// Why a Huffman table could not be built.
#[derive(Debug, Clone, Copy, PartialEq, Eq)]
#[non_exhaustive]
#[allow(inconsistent_fields)]
pub enum HuffmanTableError {
    /// The bit reader refused a read.
    GetBitsError(GetBitsError),
    /// An FSE decoder of the weight stream could not move on.
    FSEDecoderError(FSEDecoderError),
    /// The FSE table in front of the compressed weights was refused.
    FSETableError(FSETableError),
    /// There is no header byte.
    SourceIsEmpty,
    /// The header promises more compressed bytes than follow it.
    NotEnoughBytesForWeights { got_bytes: usize, expected_bytes: u8 },
    /// The compressed weights end in a whole byte of padding.
    ExtraPadding { skipped_bits: i32 },
    /// More than 255 weights were decoded.
    TooManyWeights { got: usize },
    /// All weights are zero, or there are none.
    MissingWeights,
    /// What the weights leave of the code space is no power of two.
    LeftoverIsNotAPowerOf2 { got: u32 },
    /// Fewer bytes follow the FSE table than the header promises.
    NotEnoughBytesToDecompressWeights { have: usize, need: usize },
    /// The FSE table is longer than the whole section of the weights.
    FSETableUsedTooManyBytes { used: usize, available_bytes: u8 },
    /// The header promises more directly written weights than follow it.
    NotEnoughBytesInSource { got: usize, need: usize },
    /// A weight is above the longest code that a table may hold.
    WeightBiggerThanMaxNumBits { got: u8 },
    /// The weights ask for codes longer than a table may hold.
    MaxBitsTooHigh { got: u8 },
}

/// Why a Huffman decoder could not move on.
#[derive(Debug, Clone, Copy, PartialEq, Eq)]
#[non_exhaustive]
#[allow(inconsistent_fields)]
pub enum HuffmanDecoderError {
    /// The bit reader refused a read.
    GetBitsError(GetBitsError),
}

} // verus!

verus! {

impl From<GetBitsError> for HuffmanTableError {
    fn from(val: GetBitsError) -> (r: HuffmanTableError) {
        HuffmanTableError::GetBitsError(val)
    }
}

impl FromSpecImpl<GetBitsError> for HuffmanTableError {
    open spec fn obeys_from_spec() -> bool {
        true
    }

    open spec fn from_spec(val: GetBitsError) -> HuffmanTableError {
        HuffmanTableError::GetBitsError(val)
    }
}

impl From<FSEDecoderError> for HuffmanTableError {
    fn from(val: FSEDecoderError) -> (r: HuffmanTableError) {
        HuffmanTableError::FSEDecoderError(val)
    }
}

impl FromSpecImpl<FSEDecoderError> for HuffmanTableError {
    open spec fn obeys_from_spec() -> bool {
        true
    }

    open spec fn from_spec(val: FSEDecoderError) -> HuffmanTableError {
        HuffmanTableError::FSEDecoderError(val)
    }
}

impl From<FSETableError> for HuffmanTableError {
    fn from(val: FSETableError) -> (r: HuffmanTableError) {
        HuffmanTableError::FSETableError(val)
    }
}

impl FromSpecImpl<FSETableError> for HuffmanTableError {
    open spec fn obeys_from_spec() -> bool {
        true
    }

    open spec fn from_spec(val: FSETableError) -> HuffmanTableError {
        HuffmanTableError::FSETableError(val)
    }
}

impl From<GetBitsError> for HuffmanDecoderError {
    fn from(val: GetBitsError) -> (r: HuffmanDecoderError) {
        HuffmanDecoderError::GetBitsError(val)
    }
}

impl FromSpecImpl<GetBitsError> for HuffmanDecoderError {
    open spec fn obeys_from_spec() -> bool {
        true
    }

    open spec fn from_spec(val: GetBitsError) -> HuffmanDecoderError {
        HuffmanDecoderError::GetBitsError(val)
    }
}

} // verus!
