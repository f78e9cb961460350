use ibig::convert::{word_from_be_bytes_partial, word_from_le_bytes_partial};
use ibig::primitive::PrimitiveUnsigned;

#[test]
fn test_bits_bytes() {
    assert_eq!(u8::BIT_SIZE, 8);
    assert_eq!(u64::BIT_SIZE, 64);
    assert_eq!(u8::BYTE_SIZE, 1);
    assert_eq!(u64::BYTE_SIZE, 8);
}

#[test]
fn test_word_from_le_bytes_partial() {
    assert_eq!(word_from_le_bytes_partial(&[1, 2]), 0x0201);
}

#[test]
fn test_word_from_be_bytes_partial() {
    assert_eq!(word_from_be_bytes_partial(&[1, 2]), 0x0102);
}
