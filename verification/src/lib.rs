//! Entropy-decoding core of a block codec: a canonical Huffman decode table
//! rebuilt from per-symbol weights, and the table-driven decoder that walks a
//! bit stream from its end toward its start.
//!
//! Every function carries a contract over mathematical models (sequences of
//! bytes, natural numbers), and every contract is proved.

pub mod arith;
pub mod bitstream;
pub mod bit_reader;
pub mod bit_reader_reverse;
pub mod errors;
pub mod canonical;
pub mod table;
pub mod fse_format;
pub mod fse_layout;
pub mod fse_spread;
pub mod fse_table;
pub mod fse_decoder;
pub mod weights;
pub mod decoder;
pub mod laws;

pub use crate::bit_reader::{BitReader, GetBitsError};
pub use crate::bit_reader_reverse::BitReaderReversed;
pub use crate::canonical::Entry;
pub use crate::decoder::HuffmanDecoder;
pub use crate::errors::{FSEDecoderError, FSETableError, HuffmanDecoderError, HuffmanTableError};
pub use crate::fse_decoder::FSEDecoder;
pub use crate::fse_layout::FSEEntry;
pub use crate::fse_table::FSETable;
pub use crate::table::HuffmanTable;
