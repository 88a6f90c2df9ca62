use huff0::{
    BitReaderReversed, FSEDecoder, FSEDecoderError, FSEEntry, FSETable, FSETableError,
    GetBitsError,
};

const LITERAL_LENGTHS: [u8; 20] = [
    0x51, 0x10, 0x63, 0x8C, 0x31, 0xC6, 0x18, 0x63, 0x0C, 0x21, 0xC4, 0x18, 0x63, 0x66, 0x66,
    0x86, 0x46, 0x92, 0x04, 0x00,
];

fn states_of_symbol(table: &FSETable, symbol: u8) -> Vec<FSEEntry> {
    let mut states = Vec::new();
    for state in 0..table.num_states() {
        let entry = table.entry(state);
        if entry.symbol == symbol {
            states.push(entry);
        }
    }
    states
}

#[test]
fn fse_table_of_one_symbol() {
    let mut table = FSETable::new();
    assert_eq!(table.build_decoder(&[0xF0, 0x03], 100), Ok(2));
    assert_eq!(table.accuracy_log(), 5);
    assert_eq!(table.num_states(), 32);
    for state in 0..32usize {
        assert_eq!(
            table.entry(state),
            FSEEntry { base_line: state as u32, num_bits: 0, symbol: 0 }
        );
    }
}

#[test]
fn fse_table_skips_symbols_of_probability_zero() {
    let mut table = FSETable::new();
    assert_eq!(table.build_decoder(&[0x10, 0xF8, 0x01], 100), Ok(3));
    assert_eq!(table.num_states(), 32);
    for state in 0..32usize {
        assert_eq!(table.entry(state).symbol, 1);
    }
}

#[test]
fn fse_table_puts_rare_symbols_last() {
    let mut table = FSETable::new();
    assert_eq!(table.build_decoder(&[0x00, 0x7E], 100), Ok(2));
    assert_eq!(table.num_states(), 32);
    assert_eq!(table.entry(31), FSEEntry { base_line: 0, num_bits: 5, symbol: 0 });
    assert_eq!(table.entry(0), FSEEntry { base_line: 30, num_bits: 1, symbol: 1 });
    for state in 1..31usize {
        assert_eq!(
            table.entry(state),
            FSEEntry { base_line: state as u32 - 1, num_bits: 0, symbol: 1 }
        );
    }
}

#[test]
fn fse_table_of_three_symbols() {
    let mut table = FSETable::new();
    assert_eq!(table.build_decoder(&[0x10, 0xF3, 0x01], 100), Ok(3));
    let expected: [(u8, u32, u8); 32] = [
        (0, 0, 1), (0, 2, 1), (0, 4, 1), (1, 0, 2), (2, 0, 2), (0, 6, 1), (0, 8, 1), (1, 4, 2),
        (2, 4, 2), (2, 8, 2), (0, 10, 1), (0, 12, 1), (1, 8, 2), (2, 12, 2), (0, 14, 1),
        (0, 16, 1), (1, 12, 2), (1, 16, 2), (2, 16, 2), (0, 18, 1), (0, 20, 1), (1, 20, 2),
        (2, 20, 2), (0, 22, 1), (0, 24, 1), (0, 26, 1), (1, 24, 2), (2, 24, 2), (0, 28, 1),
        (0, 30, 1), (1, 28, 2), (2, 28, 2),
    ];
    assert_eq!(table.num_states(), 32);
    for state in 0..32usize {
        let (symbol, base_line, num_bits) = expected[state];
        assert_eq!(table.entry(state), FSEEntry { base_line, num_bits, symbol });
    }
}

#[test]
fn fse_table_of_the_standard_literal_lengths() {
    let mut table = FSETable::new();
    assert_eq!(table.build_decoder(&LITERAL_LENGTHS, 100), Ok(20));
    assert_eq!(table.accuracy_log(), 6);
    let expected: [(u8, u8, u32); 64] = [
        (0, 4, 0), (0, 4, 16), (1, 5, 32), (3, 5, 0), (4, 5, 0), (6, 5, 0), (7, 5, 0), (9, 5, 0),
        (10, 5, 0), (12, 5, 0), (14, 6, 0), (16, 5, 0), (18, 5, 0), (19, 5, 0), (21, 5, 0),
        (22, 5, 0), (24, 5, 0), (25, 5, 32), (26, 5, 0), (27, 6, 0), (29, 6, 0), (31, 6, 0),
        (0, 4, 32), (1, 4, 0), (2, 5, 0), (4, 5, 32), (5, 5, 0), (7, 5, 32), (8, 5, 0),
        (10, 5, 32), (11, 5, 0), (13, 6, 0), (16, 5, 32), (17, 5, 0), (19, 5, 32), (20, 5, 0),
        (22, 5, 32), (23, 5, 0), (25, 4, 0), (25, 4, 16), (26, 5, 32), (28, 6, 0), (30, 6, 0),
        (0, 4, 48), (1, 4, 16), (2, 5, 32), (3, 5, 32), (5, 5, 32), (6, 5, 32), (8, 5, 32),
        (9, 5, 32), (11, 5, 32), (12, 5, 32), (15, 6, 0), (17, 5, 32), (18, 5, 32), (20, 5, 32),
        (21, 5, 32), (23, 5, 32), (24, 5, 32), (35, 6, 0), (34, 6, 0), (33, 6, 0), (32, 6, 0),
    ];
    assert_eq!(table.num_states(), 64);
    for state in 0..64usize {
        let (symbol, num_bits, base_line) = expected[state];
        assert_eq!(table.entry(state), FSEEntry { base_line, num_bits, symbol });
    }
}

#[test]
fn fse_states_of_a_symbol_share_out_the_table() {
    let mut table = FSETable::new();
    assert_eq!(table.build_decoder(&[0x51, 0x85, 0x69, 0xE0, 0x07], 100), Ok(5));
    assert_eq!(table.accuracy_log(), 6);
    let probabilities: [(u8, usize); 4] = [(0, 20), (5, 12), (6, 1), (7, 31)];
    let mut total = 0;
    for (symbol, states) in probabilities {
        let entries = states_of_symbol(&table, symbol);
        assert_eq!(entries.len(), states);
        total += entries.len();
        let mut covered = [false; 64];
        for entry in entries {
            assert!(entry.num_bits <= 6);
            let first = entry.base_line as usize;
            let behind = first + (1usize << entry.num_bits);
            assert!(behind <= 64);
            for next in first..behind {
                assert!(!covered[next]);
                covered[next] = true;
            }
        }
        assert!(covered.iter().all(|c| *c));
    }
    assert_eq!(total, 64);
    assert_eq!(table.entry(63), FSEEntry { base_line: 0, num_bits: 6, symbol: 6 });
    assert_eq!(table.entry(0), FSEEntry { base_line: 16, num_bits: 2, symbol: 0 });
    assert_eq!(table.entry(7), FSEEntry { base_line: 32, num_bits: 3, symbol: 5 });
    assert_eq!(table.entry(11), FSEEntry { base_line: 60, num_bits: 2, symbol: 7 });
}

#[test]
fn fse_table_refuses_an_accuracy_log_above_the_limit() {
    let mut table = FSETable::new();
    assert_eq!(
        table.build_decoder(&[0x0F], 10),
        Err(FSETableError::AccLogTooBig { got: 20, max: 10 })
    );
    assert_eq!(table.accuracy_log(), 0);
    assert_eq!(
        table.build_decoder(&[0xF0, 0x03], 4),
        Err(FSETableError::AccLogTooBig { got: 5, max: 4 })
    );
    assert_eq!(table.build_decoder(&[0xF0, 0x03], 5), Ok(2));
}

#[test]
fn fse_table_refuses_a_description_that_ends_early() {
    let mut table = FSETable::new();
    assert_eq!(
        table.build_decoder(&[], 100),
        Err(FSETableError::GetBitsError(GetBitsError::NotEnoughRemainingBits {
            requested: 4,
            remaining: 0
        }))
    );
    assert_eq!(
        table.build_decoder(&[0x00], 100),
        Err(FSETableError::GetBitsError(GetBitsError::NotEnoughRemainingBits {
            requested: 6,
            remaining: 4
        }))
    );
    assert_eq!(
        table.build_decoder(&[0xFF, 0xFF], 100),
        Err(FSETableError::GetBitsError(GetBitsError::NotEnoughRemainingBits {
            requested: 21,
            remaining: 12
        }))
    );
    assert_eq!(table.accuracy_log(), 0);
}

#[test]
fn fse_table_refuses_more_than_256_symbols() {
    let mut source = vec![0x10u8, 0xFE];
    for _ in 0..23 {
        source.push(0xFF);
    }
    source.push(0x7F);
    source.push(0x7F);
    let mut table = FSETable::new();
    assert_eq!(
        table.build_decoder(&source, 100),
        Err(FSETableError::TooManySymbols { got: 301 })
    );
}

#[test]
fn fse_table_is_rebuilt_reset_and_copied() {
    let mut table = FSETable::new();
    assert_eq!(table.build_decoder(&LITERAL_LENGTHS, 100), Ok(20));
    assert_eq!(table.build_decoder(&[0x10, 0xF3, 0x01], 100), Ok(3));
    assert_eq!(table.num_states(), 32);
    assert_eq!(table.entry(3), FSEEntry { base_line: 0, num_bits: 2, symbol: 1 });

    let mut copy = FSETable::new();
    copy.reinit_from(&table);
    assert_eq!(copy.accuracy_log(), 5);
    assert_eq!(copy.num_states(), 32);
    for state in 0..32usize {
        assert_eq!(copy.entry(state), table.entry(state));
    }

    table.reset();
    assert_eq!(table.accuracy_log(), 0);
    assert_eq!(table.num_states(), 0);
    assert_eq!(copy.num_states(), 32);
}

#[test]
fn fse_decoder_walks_the_table() {
    let mut table = FSETable::new();
    assert_eq!(table.build_decoder(&[0x10, 0xF3, 0x01], 100), Ok(3));
    // Bits in reading order: 00011 (state 3), 1 0 (2 bits), 0 1 0 0 1 ...
    let source = [0b0100_1000u8, 0b0001_1100u8];
    let mut br = BitReaderReversed::new(&source);
    let mut decoder = FSEDecoder::new(&table);
    assert_eq!(decoder.decode_symbol(), 0);
    assert_eq!(decoder.init_state(&mut br), Ok(()));
    assert_eq!(br.bits_remaining(), 11);
    // State 3 stands for symbol 1 and reads two bits from base line 0.
    assert_eq!(decoder.decode_symbol(), 1);
    assert_eq!(decoder.update_state(&mut br), Ok(()));
    assert_eq!(br.bits_remaining(), 9);
    // 0 + 0b10 is state 2: symbol 0, one bit from base line 4.
    assert_eq!(decoder.decode_symbol(), 0);
    assert_eq!(decoder.update_state(&mut br), Ok(()));
    assert_eq!(br.bits_remaining(), 8);
    // 4 + 0 is state 4: symbol 2, two bits from base line 0.
    assert_eq!(decoder.decode_symbol(), 2);
    assert_eq!(decoder.update_state(&mut br), Ok(()));
    assert_eq!(br.bits_remaining(), 6);
    // 0 + 0b01 is state 1: symbol 0.
    assert_eq!(decoder.decode_symbol(), 0);
}

#[test]
fn fse_decoder_refuses_a_table_that_is_not_built() {
    let table = FSETable::new();
    let source = [0xFFu8];
    let mut br = BitReaderReversed::new(&source);
    let mut decoder = FSEDecoder::new(&table);
    assert_eq!(decoder.init_state(&mut br), Err(FSEDecoderError::TableIsUninitialized));
    assert_eq!(br.bits_remaining(), 8);
    assert_eq!(decoder.decode_symbol(), 0);
}

#[test]
fn fse_table_is_left_empty_by_a_refused_description() {
    let mut table = FSETable::new();
    assert_eq!(table.build_decoder(&[0x10, 0xF3, 0x01], 100), Ok(3));
    assert_eq!(table.num_states(), 32);
    assert!(table.build_decoder(&[0xFF, 0xFF], 100).is_err());
    assert_eq!(table.accuracy_log(), 0);
    assert_eq!(table.num_states(), 0);
    assert_eq!(table.build_decoder(&[0x10, 0xF3, 0x01], 100), Ok(3));
    assert_eq!(table.num_states(), 32);
}
