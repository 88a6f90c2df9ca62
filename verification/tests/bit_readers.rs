use huff0::arith::{highest_bit_set, is_power_of_two_u32, pow2_u32, pow2_usize};
use huff0::{BitReader, BitReaderReversed, GetBitsError};

#[test]
fn reversed_reader_takes_bits_from_the_end() {
    let source = [0b1010_0101u8, 0b1100_0011u8];
    let mut br = BitReaderReversed::new(&source);
    assert_eq!(br.bits_remaining(), 16);
    assert_eq!(br.get_bits(4), Ok(0b1100));
    assert_eq!(br.bits_remaining(), 12);
    assert_eq!(br.get_bits(8), Ok(0b0011_1010));
    assert_eq!(br.bits_remaining(), 4);
    assert_eq!(br.get_bits(4), Ok(0b0101));
    assert_eq!(br.bits_remaining(), 0);
}

#[test]
fn reversed_reader_reads_nothing_for_zero_bits() {
    let source = [0xFFu8];
    let mut br = BitReaderReversed::new(&source);
    assert_eq!(br.get_bits(0), Ok(0));
    assert_eq!(br.bits_remaining(), 8);
}

#[test]
fn reversed_reader_pads_an_overrun_with_zero_bits() {
    let source = [0xFFu8];
    let mut br = BitReaderReversed::new(&source);
    assert_eq!(br.get_bits(12), Ok(0xFF0));
    assert_eq!(br.bits_remaining(), -4);
    assert_eq!(br.get_bits(3), Ok(0));
    assert_eq!(br.bits_remaining(), -7);
}

#[test]
fn reversed_reader_on_an_empty_slice_is_overrun_at_once() {
    let source: [u8; 0] = [];
    let mut br = BitReaderReversed::new(&source);
    assert_eq!(br.bits_remaining(), 0);
    assert_eq!(br.get_bits(1), Ok(0));
    assert_eq!(br.bits_remaining(), -1);
}

#[test]
fn reversed_reader_hands_out_at_most_56_bits() {
    let source = [0x11u8, 0x22, 0x33, 0x44, 0x55, 0x66, 0x77, 0x88];
    let mut br = BitReaderReversed::new(&source);
    assert_eq!(
        br.get_bits(57),
        Err(GetBitsError::TooManyBits { num_requested_bits: 57, limit: 56 })
    );
    assert_eq!(br.bits_remaining(), 64);
    assert_eq!(br.get_bits(56), Ok(0x88_77_66_55_44_33_22));
    assert_eq!(br.bits_remaining(), 8);
}

#[test]
fn forward_reader_takes_bits_from_the_front() {
    let source = [0b1010_0101u8, 0b1100_0011u8];
    let mut br = BitReader::new(&source);
    assert_eq!(br.bits_left(), 16);
    assert_eq!(br.get_bits(4), Ok(0b0101));
    assert_eq!(br.get_bits(8), Ok(0b0011_1010));
    assert_eq!(br.bits_read(), 12);
    assert_eq!(br.bits_left(), 4);
    br.return_bits(2);
    assert_eq!(br.bits_read(), 10);
    assert_eq!(br.get_bits(6), Ok(0b110000));
    assert_eq!(br.bits_left(), 0);
}

#[test]
fn forward_reader_reads_a_whole_word() {
    let source = [0x01u8, 0x02, 0x03, 0x04, 0x05, 0x06, 0x07, 0x88];
    let mut br = BitReader::new(&source);
    assert_eq!(br.get_bits(64), Ok(0x88_07_06_05_04_03_02_01));
    assert_eq!(br.bits_left(), 0);
}

#[test]
fn forward_reader_refuses_what_the_stream_does_not_hold() {
    let source = [0xFFu8];
    let mut br = BitReader::new(&source);
    assert_eq!(br.get_bits(3), Ok(7));
    assert_eq!(
        br.get_bits(6),
        Err(GetBitsError::NotEnoughRemainingBits { requested: 6, remaining: 5 })
    );
    assert_eq!(br.bits_read(), 3);
    assert_eq!(
        br.get_bits(65),
        Err(GetBitsError::TooManyBits { num_requested_bits: 65, limit: 64 })
    );
}

#[test]
fn highest_bit_set_is_the_bit_length() {
    assert_eq!(highest_bit_set(1), 1);
    assert_eq!(highest_bit_set(2), 2);
    assert_eq!(highest_bit_set(3), 2);
    assert_eq!(highest_bit_set(4), 3);
    assert_eq!(highest_bit_set(255), 8);
    assert_eq!(highest_bit_set(256), 9);
    assert_eq!(highest_bit_set(u32::MAX), 32);
}

#[test]
fn powers_of_two_are_told_from_other_numbers() {
    assert!(!is_power_of_two_u32(0));
    assert!(is_power_of_two_u32(1));
    assert!(is_power_of_two_u32(2));
    assert!(!is_power_of_two_u32(3));
    assert!(is_power_of_two_u32(1024));
    assert!(!is_power_of_two_u32(1023));
    assert!(is_power_of_two_u32(1 << 31));
    assert_eq!(pow2_u32(0), 1);
    assert_eq!(pow2_u32(11), 2048);
    assert_eq!(pow2_usize(20), 1 << 20);
}
