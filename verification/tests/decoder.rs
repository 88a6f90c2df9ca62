use huff0::{BitReaderReversed, GetBitsError, HuffmanDecoder, HuffmanDecoderError, HuffmanTable};

#[test]
fn decoder_looks_one_symbol_up_per_step() {
    let mut table = HuffmanTable::new();
    assert_eq!(table.build_decoder(&[129, 0x21]), Ok(2));
    // Codes: symbol 0 is 1, symbol 1 is 00, symbol 2 is 01.
    // Bits in reading order: 1 00 01 1 00.
    let source = [0b1000_1100u8];
    let mut br = BitReaderReversed::new(&source);
    let mut decoder = HuffmanDecoder::new(&table);
    assert_eq!(decoder.state, 0);
    assert_eq!(decoder.init_state(&mut br), Ok(2));
    assert_eq!(decoder.state, 2);
    assert_eq!(decoder.decode_symbol(), 0);
    assert_eq!(decoder.decode_symbol(), 0);
    assert_eq!(decoder.next_state(&mut br), Ok(1));
    assert_eq!(decoder.state, 0);
    assert_eq!(decoder.decode_symbol(), 1);
    assert_eq!(decoder.next_state(&mut br), Ok(2));
    assert_eq!(decoder.state, 1);
    assert_eq!(decoder.decode_symbol(), 2);
    assert_eq!(decoder.next_state(&mut br), Ok(2));
    assert_eq!(decoder.state, 2);
    assert_eq!(decoder.decode_symbol(), 0);
    assert_eq!(br.bits_remaining(), 1);
    assert_eq!(decoder.next_state(&mut br), Ok(1));
    assert_eq!(decoder.decode_symbol(), 1);
    assert_eq!(br.bits_remaining(), 0);
    // Past the start of the stream every bit reads as zero.
    assert_eq!(decoder.next_state(&mut br), Ok(2));
    assert_eq!(decoder.state, 0);
    assert_eq!(br.bits_remaining(), -2);
}

#[test]
fn decoder_state_stays_inside_the_table() {
    let source = [0x07u8, 0x10, 0xF3, 0x01, 0xE3, 0x23, 0x41, 0x01];
    let mut table = HuffmanTable::new();
    assert_eq!(table.build_decoder(&source), Ok(8));
    let size = table.table_size() as u64;
    let stream: Vec<u8> = (0..64u32).map(|i| (i * 151 + 43) as u8).collect();
    let mut br = BitReaderReversed::new(&stream);
    let mut decoder = HuffmanDecoder::new(&table);
    assert_eq!(decoder.init_state(&mut br), Ok(4));
    let mut bits_read = 4;
    for _ in 0..200 {
        assert!(decoder.state < size);
        assert_eq!(decoder.state, decoder.state & (size - 1));
        let entry = table.entry(decoder.state as usize);
        assert_eq!(decoder.decode_symbol(), entry.symbol);
        assert_eq!(decoder.next_state(&mut br), Ok(entry.num_bits));
        bits_read += entry.num_bits as isize;
        assert_eq!(br.bits_remaining(), 512 - bits_read);
    }
}

#[test]
fn decoder_takes_the_new_bits_in_below_the_old() {
    let mut table = HuffmanTable::new();
    // Weights 2, 1, 1: symbol 3 has one bit, symbol 0 two, symbols 1 and 2 three.
    assert_eq!(table.build_decoder(&[130, 0x21, 0x10]), Ok(3));
    let source = [0b0101_0111u8];
    let mut br = BitReaderReversed::new(&source);
    let mut decoder = HuffmanDecoder::new(&table);
    assert_eq!(decoder.init_state(&mut br), Ok(3));
    // 010: symbol 0, code 01.
    assert_eq!(decoder.state, 0b010);
    assert_eq!(decoder.decode_symbol(), 0);
    assert_eq!(decoder.next_state(&mut br), Ok(2));
    // The 0 that was looked ahead stays, 10 comes in: 010 again.
    assert_eq!(decoder.state, 0b010);
    assert_eq!(decoder.next_state(&mut br), Ok(2));
    // 0 stays, 11 comes in.
    assert_eq!(decoder.state, 0b011);
    assert_eq!(decoder.decode_symbol(), 0);
    assert_eq!(decoder.next_state(&mut br), Ok(2));
    // 1 stays, the last 1 and a zero from past the start come in.
    assert_eq!(decoder.state, 0b110);
    assert_eq!(decoder.decode_symbol(), 3);
    assert_eq!(br.bits_remaining(), -1);
}

#[test]
fn decoder_is_reset_and_bound_to_another_table() {
    let mut first = HuffmanTable::new();
    assert_eq!(first.build_decoder(&[129, 0x21]), Ok(2));
    let mut second = HuffmanTable::new();
    assert_eq!(second.build_decoder(&[128, 0x10]), Ok(2));
    let source = [0xFFu8];
    let mut br = BitReaderReversed::new(&source);
    let mut decoder = HuffmanDecoder::new(&first);
    assert_eq!(decoder.init_state(&mut br), Ok(2));
    assert_eq!(decoder.state, 3);
    assert_eq!(decoder.decode_symbol(), 0);
    decoder.reset(None);
    assert_eq!(decoder.state, 0);
    assert_eq!(decoder.decode_symbol(), 1);
    decoder.reset(Some(&second));
    assert_eq!(decoder.state, 0);
    assert_eq!(decoder.init_state(&mut br), Ok(1));
    assert_eq!(decoder.state, 1);
    assert_eq!(decoder.decode_symbol(), 1);
}

#[test]
fn decoder_on_a_table_that_is_not_built_reads_no_bits() {
    let table = HuffmanTable::new();
    let source = [0xFFu8];
    let mut br = BitReaderReversed::new(&source);
    let mut decoder = HuffmanDecoder::new(&table);
    assert_eq!(decoder.init_state(&mut br), Ok(0));
    assert_eq!(decoder.state, 0);
    assert_eq!(br.bits_remaining(), 8);
}

#[test]
fn decoder_passes_on_what_the_reader_refuses() {
    let mut table = HuffmanTable::new();
    table.max_num_bits = 60;
    let source = [0xFFu8; 8];
    let mut br = BitReaderReversed::new(&source);
    let mut decoder = HuffmanDecoder::new(&table);
    assert_eq!(
        decoder.init_state(&mut br),
        Err(HuffmanDecoderError::GetBitsError(GetBitsError::TooManyBits {
            num_requested_bits: 60,
            limit: 56
        }))
    );
    assert_eq!(br.bits_remaining(), 64);
}
