use huff0::weights::{decode_weight_stream, read_direct_weights};
use huff0::{FSETable, FSETableError, GetBitsError, HuffmanTable, HuffmanTableError};

#[test]
fn direct_weights_come_two_to_a_byte() {
    let mut table = HuffmanTable::new();
    assert_eq!(table.read_weights(&[129, 0x21]), Ok(2));
    assert_eq!(table.weights(), &[2u8, 1][..]);
}

#[test]
fn direct_weights_of_odd_number_leave_half_a_byte() {
    let mut table = HuffmanTable::new();
    assert_eq!(table.read_weights(&[130, 0x21, 0x1F, 0x77]), Ok(3));
    assert_eq!(table.weights(), &[2u8, 1, 1][..]);
}

#[test]
fn direct_weights_may_be_as_many_as_128() {
    let mut source = vec![255u8];
    for i in 0..64u8 {
        source.push(i.wrapping_mul(37));
    }
    let mut table = HuffmanTable::new();
    assert_eq!(table.read_weights(&source), Ok(65));
    let weights = table.weights();
    assert_eq!(weights.len(), 128);
    for i in 0..64usize {
        assert_eq!(weights[2 * i], source[1 + i] >> 4);
        assert_eq!(weights[2 * i + 1], source[1 + i] & 0xF);
    }
}

#[test]
fn direct_weights_read_on_their_own() {
    let mut weights = vec![9u8, 9, 9];
    read_direct_weights(&[0xAB, 0xCD, 0xEF], 5, &mut weights);
    assert_eq!(weights, vec![0xA, 0xB, 0xC, 0xD, 0xE]);
}

#[test]
fn empty_source_holds_no_weights() {
    let mut table = HuffmanTable::new();
    assert_eq!(table.read_weights(&[]), Err(HuffmanTableError::SourceIsEmpty));
    assert_eq!(table.build_decoder(&[]), Err(HuffmanTableError::SourceIsEmpty));
}

#[test]
fn direct_weights_need_all_their_bytes() {
    let mut table = HuffmanTable::new();
    assert_eq!(
        table.read_weights(&[130, 0x21]),
        Err(HuffmanTableError::NotEnoughBytesInSource { got: 1, need: 2 })
    );
    assert_eq!(
        table.read_weights(&[255]),
        Err(HuffmanTableError::NotEnoughBytesInSource { got: 0, need: 64 })
    );
    assert_eq!(
        table.read_weights(&[128]),
        Err(HuffmanTableError::NotEnoughBytesInSource { got: 0, need: 1 })
    );
}

#[test]
fn compressed_weights_need_all_their_bytes() {
    let mut table = HuffmanTable::new();
    assert_eq!(
        table.read_weights(&[5, 1, 2]),
        Err(HuffmanTableError::NotEnoughBytesForWeights { got_bytes: 2, expected_bytes: 5 })
    );
    assert_eq!(
        table.read_weights(&[127]),
        Err(HuffmanTableError::NotEnoughBytesForWeights { got_bytes: 0, expected_bytes: 127 })
    );
}

#[test]
fn compressed_weights_need_a_table() {
    let mut table = HuffmanTable::new();
    assert_eq!(
        table.read_weights(&[2, 0xFF, 0xFF]),
        Err(HuffmanTableError::FSETableError(FSETableError::GetBitsError(
            GetBitsError::NotEnoughRemainingBits { requested: 21, remaining: 12 }
        )))
    );
    assert_eq!(
        table.read_weights(&[0]),
        Err(HuffmanTableError::FSETableError(FSETableError::GetBitsError(
            GetBitsError::NotEnoughRemainingBits { requested: 4, remaining: 0 }
        )))
    );
}

#[test]
fn compressed_weights_table_must_fit_the_section() {
    let mut table = HuffmanTable::new();
    assert_eq!(
        table.read_weights(&[1, 0xF0, 0x03]),
        Err(HuffmanTableError::FSETableUsedTooManyBytes { used: 2, available_bytes: 1 })
    );
}

#[test]
fn compressed_weights_end_in_less_than_a_byte_of_padding() {
    let mut table = HuffmanTable::new();
    assert_eq!(
        table.read_weights(&[3, 0xF0, 0x03, 0x00]),
        Err(HuffmanTableError::ExtraPadding { skipped_bits: 9 })
    );
    assert_eq!(
        table.read_weights(&[4, 0xF0, 0x03, 0xFF, 0x00]),
        Err(HuffmanTableError::ExtraPadding { skipped_bits: 9 })
    );
    // Nothing behind the table: every bit reads as padding.
    assert_eq!(
        table.read_weights(&[2, 0xF0, 0x03]),
        Err(HuffmanTableError::ExtraPadding { skipped_bits: 9 })
    );
}

#[test]
fn compressed_weights_stop_at_255() {
    // A table whose states read no bits never uses the stream up.
    let mut table = HuffmanTable::new();
    assert_eq!(
        table.read_weights(&[5, 0xF0, 0x03, 0x00, 0x00, 0x80]),
        Err(HuffmanTableError::TooManyWeights { got: 256 })
    );
    assert_eq!(
        table.build_decoder(&[5, 0xF0, 0x03, 0x00, 0x00, 0x80]),
        Err(HuffmanTableError::TooManyWeights { got: 256 })
    );
    assert_eq!(table.table_size(), 0);
}

#[test]
fn compressed_weights_of_the_smallest_stream() {
    let mut table = HuffmanTable::new();
    assert_eq!(table.read_weights(&[4, 0x10, 0xF8, 0x01, 0x80]), Ok(5));
    assert_eq!(table.weights(), &[1u8, 1][..]);
}

#[test]
fn compressed_weights_are_decoded_by_two_decoders_in_turn() {
    let source = [0x07u8, 0x10, 0xF3, 0x01, 0xE3, 0x23, 0x41, 0x01];
    let mut table = HuffmanTable::new();
    assert_eq!(table.read_weights(&source), Ok(8));
    assert_eq!(table.weights(), &[2u8, 2, 0, 0, 2, 0, 0, 1, 1, 0, 0][..]);
}

#[test]
fn compressed_weights_leave_what_follows_unread() {
    let source = [0x07u8, 0x10, 0xF3, 0x01, 0xE3, 0x23, 0x41, 0x01, 0xAA, 0xBB, 0xCC];
    let mut table = HuffmanTable::new();
    assert_eq!(table.read_weights(&source), Ok(8));
    assert_eq!(table.weights(), &[2u8, 2, 0, 0, 2, 0, 0, 1, 1, 0, 0][..]);
}

#[test]
fn weight_stream_decoded_on_its_own() {
    let mut fse = FSETable::new();
    assert_eq!(fse.build_decoder(&[0x10, 0xF3, 0x01], 100), Ok(3));
    let mut weights = vec![7u8];
    assert_eq!(decode_weight_stream(&fse, &[0xE3, 0x23, 0x41, 0x01], &mut weights), Ok(()));
    assert_eq!(weights, vec![2, 2, 0, 0, 2, 0, 0, 1, 1, 0, 0]);
    assert_eq!(
        decode_weight_stream(&fse, &[0x00], &mut weights),
        Err(HuffmanTableError::ExtraPadding { skipped_bits: 9 })
    );
}

#[test]
fn bytes_used_are_the_header_and_what_it_counts() {
    let mut table = HuffmanTable::new();
    for n in 1..=128u32 {
        let header = (127 + n) as u8;
        let mut source = vec![header];
        for _ in 0..64 {
            source.push(0x11);
        }
        assert_eq!(table.read_weights(&source), Ok(1 + (n + 1) / 2));
        assert_eq!(table.weights().len(), n as usize);
    }
    assert_eq!(table.read_weights(&[4, 0x10, 0xF8, 0x01, 0x80]), Ok(1 + 4));
    // Seven bits of padding, the mark, and eight bits for two states of five.
    assert_eq!(table.read_weights(&[5, 0x10, 0xF8, 0x01, 0x01, 0x01]), Ok(1 + 5));
    assert_eq!(table.weights(), &[1u8, 1][..]);
}

#[test]
fn refused_description_leaves_the_weights() {
    let mut table = HuffmanTable::new();
    assert_eq!(table.read_weights(&[129, 0x21]), Ok(2));
    assert_eq!(
        table.read_weights(&[3, 0xF0, 0x03, 0x00]),
        Err(HuffmanTableError::ExtraPadding { skipped_bits: 9 })
    );
    assert_eq!(table.weights(), &[2u8, 1][..]);
    assert_eq!(table.read_weights(&[]), Err(HuffmanTableError::SourceIsEmpty));
    assert_eq!(table.weights(), &[2u8, 1][..]);
    assert!(table.read_weights(&[130, 0x21]).is_err());
    assert_eq!(table.weights(), &[2u8, 1][..]);
    assert!(table.read_weights(&[5, 1, 2]).is_err());
    assert_eq!(table.weights(), &[2u8, 1][..]);
    assert!(table.read_weights(&[2, 0xFF, 0xFF]).is_err());
    assert_eq!(table.weights(), &[2u8, 1][..]);
    assert!(table.read_weights(&[1, 0xF0, 0x03]).is_err());
    assert_eq!(table.weights(), &[2u8, 1][..]);
}

#[test]
fn refused_weights_beyond_255_are_left_in_the_table() {
    let mut table = HuffmanTable::new();
    assert_eq!(table.read_weights(&[129, 0x21]), Ok(2));
    assert_eq!(
        table.read_weights(&[5, 0xF0, 0x03, 0x00, 0x00, 0x80]),
        Err(HuffmanTableError::TooManyWeights { got: 256 })
    );
    assert_eq!(table.weights().len(), 256);
    assert!(table.weights().iter().all(|w| *w == 0));
}

#[test]
fn refused_padding_leaves_the_weights_of_a_stream() {
    let mut fse = FSETable::new();
    assert_eq!(fse.build_decoder(&[0x10, 0xF3, 0x01], 100), Ok(3));
    let mut weights = vec![7u8, 8, 9];
    assert_eq!(
        decode_weight_stream(&fse, &[0x12, 0x00], &mut weights),
        Err(HuffmanTableError::ExtraPadding { skipped_bits: 9 })
    );
    assert_eq!(weights, vec![7, 8, 9]);
}

#[test]
fn errors_of_the_parts_become_errors_of_the_table() {
    let bits = GetBitsError::TooManyBits { num_requested_bits: 57, limit: 56 };
    assert_eq!(HuffmanTableError::from(bits), HuffmanTableError::GetBitsError(bits));
    let table = FSETableError::TooManySymbols { got: 301 };
    assert_eq!(HuffmanTableError::from(table), HuffmanTableError::FSETableError(table));
    let decoder = huff0::FSEDecoderError::TableIsUninitialized;
    assert_eq!(HuffmanTableError::from(decoder), HuffmanTableError::FSEDecoderError(decoder));
    assert_eq!(
        huff0::HuffmanDecoderError::from(bits),
        huff0::HuffmanDecoderError::GetBitsError(bits)
    );
    let converted: HuffmanTableError = bits.into();
    assert_eq!(converted, HuffmanTableError::GetBitsError(bits));
}
