use huff0::{Entry, HuffmanTable, HuffmanTableError};

fn direct(weights: &[u8]) -> Vec<u8> {
    let mut source = vec![127 + weights.len() as u8];
    for pair in weights.chunks(2) {
        let low = if pair.len() > 1 { pair[1] } else { 0 };
        source.push((pair[0] << 4) | low);
    }
    source
}

fn entries(table: &HuffmanTable) -> Vec<(u8, u8)> {
    let mut all = Vec::new();
    for slot in 0..table.table_size() {
        let entry = table.entry(slot);
        all.push((entry.symbol, entry.num_bits));
    }
    all
}

#[test]
fn table_of_two_written_weights() {
    let mut table = HuffmanTable::new();
    assert_eq!(table.build_decoder(&[129, 0x21]), Ok(2));
    assert_eq!(table.weights(), &[2u8, 1][..]);
    assert_eq!(table.max_num_bits, 2);
    assert_eq!(table.max_bits(), 2);
    assert_eq!(table.code_lengths(), &[1u8, 2, 2][..]);
    assert_eq!(table.table_size(), 4);
    assert_eq!(entries(&table), vec![(1, 2), (2, 2), (0, 1), (0, 1)]);
    assert_eq!(table.entry(0), Entry { symbol: 1, num_bits: 2 });
}

#[test]
fn table_of_one_written_weight() {
    let mut table = HuffmanTable::new();
    assert_eq!(table.build_decoder(&[128, 0x10]), Ok(2));
    assert_eq!(table.weights(), &[1u8][..]);
    assert_eq!(table.max_num_bits, 1);
    assert_eq!(table.code_lengths(), &[1u8, 1][..]);
    assert_eq!(entries(&table), vec![(0, 1), (1, 1)]);
}

#[test]
fn table_of_three_written_weights() {
    let mut table = HuffmanTable::new();
    assert_eq!(table.build_decoder(&direct(&[2, 1, 1])), Ok(3));
    assert_eq!(table.max_num_bits, 3);
    assert_eq!(table.code_lengths(), &[2u8, 3, 3, 1][..]);
    assert_eq!(
        entries(&table),
        vec![(1, 3), (2, 3), (0, 2), (0, 2), (3, 1), (3, 1), (3, 1), (3, 1)]
    );
}

#[test]
fn table_from_compressed_weights() {
    let source = [0x07u8, 0x10, 0xF3, 0x01, 0xE3, 0x23, 0x41, 0x01];
    let mut table = HuffmanTable::new();
    assert_eq!(table.build_decoder(&source), Ok(8));
    assert_eq!(table.max_num_bits, 4);
    assert_eq!(table.code_lengths(), &[3u8, 3, 0, 0, 3, 0, 0, 4, 4, 0, 0, 1][..]);
    assert_eq!(
        entries(&table),
        vec![
            (7, 4), (8, 4), (0, 3), (0, 3), (1, 3), (1, 3), (4, 3), (4, 3), (11, 1), (11, 1),
            (11, 1), (11, 1), (11, 1), (11, 1), (11, 1), (11, 1)
        ]
    );
}

#[test]
fn table_of_the_longest_codes() {
    // 1024 symbols' worth of code space in two weights of 11 would need 12
    // bits; one weight of 11 needs 11.
    let mut table = HuffmanTable::new();
    assert_eq!(table.build_decoder(&direct(&[11])), Ok(2));
    assert_eq!(table.max_num_bits, 11);
    assert_eq!(table.table_size(), 2048);
    assert_eq!(table.code_lengths(), &[1u8, 1][..]);
    for slot in 0..1024usize {
        assert_eq!(table.entry(slot), Entry { symbol: 0, num_bits: 1 });
        assert_eq!(table.entry(1024 + slot), Entry { symbol: 1, num_bits: 1 });
    }
}

#[test]
fn every_symbol_owns_the_slots_that_begin_with_its_code() {
    let weights = [4u8, 0, 3, 3, 1, 1, 2, 0, 2, 2, 1, 1, 3];
    let mut table = HuffmanTable::new();
    assert_eq!(table.build_decoder(&direct(&weights)), Ok(8));
    let max_bits = table.max_num_bits as usize;
    let size = table.table_size();
    assert_eq!(size, 1 << max_bits);
    let lengths = table.code_lengths().to_vec();
    assert_eq!(lengths.len(), weights.len() + 1);
    let mut owned = 0;
    for (symbol, length) in lengths.iter().enumerate() {
        let slots: Vec<usize> =
            (0..size).filter(|slot| table.entry(*slot).symbol as usize == symbol).collect();
        if *length == 0 {
            assert!(slots.is_empty());
            continue;
        }
        let run = 1usize << (max_bits - *length as usize);
        assert_eq!(slots.len(), run);
        owned += run;
        let code = slots[0] >> (max_bits - *length as usize);
        assert_eq!(slots[0] % run, 0);
        for slot in 0..size {
            let entry = table.entry(slot);
            let begins_with_code = slot >> (max_bits - *length as usize) == code;
            assert_eq!(begins_with_code, entry.symbol as usize == symbol);
            if begins_with_code {
                assert_eq!(entry.num_bits, *length);
            }
        }
    }
    assert_eq!(owned, size);
}

#[test]
fn weight_above_the_limit_is_refused() {
    let mut table = HuffmanTable::new();
    assert_eq!(
        table.build_decoder(&[129, 0xC1]),
        Err(HuffmanTableError::WeightBiggerThanMaxNumBits { got: 12 })
    );
    assert_eq!(
        table.build_decoder(&direct(&[1, 15, 13])),
        Err(HuffmanTableError::WeightBiggerThanMaxNumBits { got: 15 })
    );
    assert_eq!(table.table_size(), 0);
}

#[test]
fn code_longer_than_the_limit_is_refused() {
    let mut table = HuffmanTable::new();
    assert_eq!(
        table.build_decoder(&[129, 0xBB]),
        Err(HuffmanTableError::MaxBitsTooHigh { got: 12 })
    );
    assert_eq!(table.table_size(), 0);
}

#[test]
fn leftover_that_is_no_power_of_two_is_refused() {
    let mut table = HuffmanTable::new();
    assert_eq!(
        table.build_decoder(&direct(&[2, 2, 1])),
        Err(HuffmanTableError::LeftoverIsNotAPowerOf2 { got: 3 })
    );
    assert_eq!(
        table.build_decoder(&direct(&[3, 1])),
        Err(HuffmanTableError::LeftoverIsNotAPowerOf2 { got: 3 })
    );
    assert_eq!(table.table_size(), 0);
}

#[test]
fn weights_that_are_all_zero_are_refused() {
    let mut table = HuffmanTable::new();
    assert_eq!(table.build_decoder(&[129, 0x00]), Err(HuffmanTableError::MissingWeights));
    let mut fresh = HuffmanTable::new();
    assert_eq!(fresh.build_table_from_weights(), Err(HuffmanTableError::MissingWeights));
}

#[test]
fn table_built_in_two_steps() {
    let mut table = HuffmanTable::new();
    assert_eq!(table.read_weights(&[129, 0x21]), Ok(2));
    assert_eq!(table.table_size(), 0);
    assert_eq!(table.build_table_from_weights(), Ok(()));
    assert_eq!(entries(&table), vec![(1, 2), (2, 2), (0, 1), (0, 1)]);
}

#[test]
fn table_is_rebuilt_for_each_description() {
    let mut table = HuffmanTable::new();
    assert_eq!(table.build_decoder(&direct(&[2, 1, 1])), Ok(3));
    assert_eq!(table.table_size(), 8);
    assert_eq!(table.build_decoder(&[129, 0x21]), Ok(2));
    assert_eq!(entries(&table), vec![(1, 2), (2, 2), (0, 1), (0, 1)]);
    assert_eq!(table.build_decoder(&[129, 0xC1]).is_err(), true);
    assert_eq!(table.table_size(), 0);
    assert_eq!(table.build_decoder(&[129, 0x21]), Ok(2));
    assert_eq!(entries(&table), vec![(1, 2), (2, 2), (0, 1), (0, 1)]);
}

#[test]
fn table_is_reset_and_copied() {
    let mut table = HuffmanTable::new();
    assert_eq!(table.build_decoder(&direct(&[2, 1, 1])), Ok(3));
    let mut copy = HuffmanTable::default();
    assert_eq!(copy.table_size(), 0);
    copy.reinit_from(&table);
    assert_eq!(copy.max_num_bits, 3);
    assert_eq!(copy.weights(), table.weights());
    assert_eq!(copy.code_lengths(), table.code_lengths());
    assert_eq!(entries(&copy), entries(&table));

    table.reset();
    assert_eq!(table.max_num_bits, 0);
    assert_eq!(table.table_size(), 0);
    assert_eq!(table.weights().len(), 0);
    assert_eq!(table.code_lengths().len(), 0);
    assert_eq!(copy.table_size(), 8);
}

#[test]
fn more_than_255_weights_build_no_table() {
    let mut table = HuffmanTable::new();
    assert_eq!(
        table.read_weights(&[5, 0xF0, 0x03, 0x00, 0x00, 0x80]),
        Err(HuffmanTableError::TooManyWeights { got: 256 })
    );
    assert_eq!(
        table.build_table_from_weights(),
        Err(HuffmanTableError::TooManyWeights { got: 256 })
    );
    assert_eq!(table.table_size(), 0);
}
