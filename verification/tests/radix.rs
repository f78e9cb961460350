use ascii::AsciiChar;
use ibig::radix::{
    digit_from_utf8_byte, digit_to_ascii, fill_radix_in_word_table, DigitCase, MAX_RADIX,
};

#[test]
fn test_radix_in_word_table() {
    let table = fill_radix_in_word_table();
    for radix in 2..=MAX_RADIX {
        let entry = &table[radix as usize];
        // Check vs an approximation that happens to work for all bases.
        assert_eq!(
            entry.max_digits,
            ((64f64 + 0.01) / (radix as f64).log2()) as usize
        );
        if !radix.is_power_of_two() {
            assert_eq!(
                entry.max_digits_range as usize,
                (radix as usize).pow(entry.max_digits as u32)
            );
        }
    }
}

#[test]
fn test_digit_to_ascii() {
    assert_eq!(digit_to_ascii(7, DigitCase::Lower), AsciiChar::_7);
    assert_eq!(digit_to_ascii(10, DigitCase::Lower), AsciiChar::a);
    assert_eq!(digit_to_ascii(35, DigitCase::Lower), AsciiChar::z);
    assert_eq!(digit_to_ascii(7, DigitCase::Upper), AsciiChar::_7);
    assert_eq!(digit_to_ascii(35, DigitCase::Upper), AsciiChar::Z);
}

#[test]
fn test_digit_from_utf8_byte() {
    assert_eq!(digit_from_utf8_byte(b'7', 10), Some(7));
    assert_eq!(digit_from_utf8_byte(b'a', 16), Some(10));
    assert_eq!(digit_from_utf8_byte(b'z', 36), Some(35));
    assert_eq!(digit_from_utf8_byte(b'Z', 36), Some(35));
    assert_eq!(digit_from_utf8_byte(b'?', 10), None);
    assert_eq!(digit_from_utf8_byte(b'a', 10), None);
    assert_eq!(digit_from_utf8_byte(b'z', 35), None);
    assert_eq!(digit_from_utf8_byte(255, 35), None);
}
