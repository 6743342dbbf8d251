use lc_trie::bits::{extract, extract_bits_u128, extract_bits_u8};
use lc_trie::error::LcTrieError;

#[test]
fn test_extract_bits() {
    assert_eq!(extract_bits_u8(0b01110111, 1, 5), 0b00011101);
    assert_eq!(extract_bits_u8(0b01110111, 3, 3), 0b00000101);
    assert_eq!(extract_bits_u8(0b00010000, 3, 1), 0b00000001);
    assert_eq!(extract_bits_u8(0b00000000, 3, 1), 0b00000000);
}

#[test]
fn extract_bits_u8_edges() {
    assert_eq!(extract_bits_u8(0b1010_0101, 0, 8), 0b1010_0101);
    assert_eq!(extract_bits_u8(0b1010_0101, 0, 0), 0);
    assert_eq!(extract_bits_u8(0b1010_0101, 8, 0), 0);
    assert_eq!(extract_bits_u8(0b1010_0101, 7, 1), 1);
    assert_eq!(extract_bits_u8(0b1010_0101, 0, 1), 1);
    assert_eq!(extract_bits_u8(0b1010_0101, 1, 1), 0);
}

#[test]
fn extract_bits_u128_reads_msb_first() {
    let key: u128 = 0x2001_49f0_d0b8_8a00_0000_0000_0000_0001;
    assert_eq!(extract_bits_u128(key, 0, 16), 0x2001);
    assert_eq!(extract_bits_u128(key, 16, 16), 0x49f0);
    assert_eq!(extract_bits_u128(key, 4, 8), 0x00);
    assert_eq!(extract_bits_u128(key, 2, 1), 1);
    assert_eq!(extract_bits_u128(key, 127, 1), 1);
    assert_eq!(extract_bits_u128(key, 126, 1), 0);
    assert_eq!(extract_bits_u128(key, 0, 128), key);
    assert_eq!(extract_bits_u128(key, 0, 0), 0);
    assert_eq!(extract_bits_u128(key, 128, 0), 0);
    assert_eq!(extract_bits_u128(key, 1, 127), key);
    assert_eq!(extract_bits_u128(u128::MAX, 1, 127), u128::MAX >> 1);
}

#[test]
fn extract_generalizes_the_8_bit_example() {
    let key: u128 = (0b01110111u128) << 120;
    assert_eq!(extract(key, 1, 5), Ok(0b11101));
    assert_eq!(extract(key, 3, 3), Ok(0b101));
}

#[test]
fn extract_refuses_fields_outside_the_key() {
    assert_eq!(extract(1, 128, 1), Err(LcTrieError::OutOfRange));
    assert_eq!(extract(1, 0, 129), Err(LcTrieError::OutOfRange));
    assert_eq!(extract(1, 100, 29), Err(LcTrieError::OutOfRange));
    assert_eq!(extract(1, usize::MAX, 1), Err(LcTrieError::OutOfRange));
    assert_eq!(extract(1, 1, usize::MAX), Err(LcTrieError::OutOfRange));
    assert_eq!(extract(1, 100, 28), Ok(1));
    assert_eq!(extract(1, 128, 0), Ok(0));
}

#[test]
fn each_bit_of_a_field_is_a_bit_of_the_key() {
    let key: u128 = 0x2001_49f0_d0b8_8a00_fedc_ba98_7654_3211;
    for (pos, count) in [(0usize, 128usize), (0, 1), (5, 17), (64, 64), (100, 28), (127, 1), (3, 0)] {
        let field = extract_bits_u128(key, pos, count);
        for j in 0..count {
            let bit_of_field = (field >> (count - 1 - j)) & 1;
            assert_eq!(bit_of_field, extract_bits_u128(key, pos + j, 1));
            assert_eq!(bit_of_field, (key >> (127 - pos - j)) & 1);
        }
        if count < 128 {
            assert!(field < 1 << count);
        }
    }
    let byte: u8 = 0b0111_0111;
    for j in 0..5 {
        assert_eq!((extract_bits_u8(byte, 1, 5) >> (4 - j)) & 1, extract_bits_u8(byte, 1 + j, 1));
    }
}
