use ibig::convert::{ibig_from_signed, ubig_from_unsigned};
use ibig::error::ParseError;
use ibig::fmt::{Alignment, FormatRequest, InRadix, SignMark};
use ibig::ibig::IBig;
use ibig::radix::DigitCase;
use ibig::sign::Sign;
use ibig::ubig::UBig;

fn ubig(x: u128) -> UBig {
    ubig_from_unsigned(x)
}

#[test]
fn test_from_str_radix_examples() {
    assert_eq!(UBig::from_str_radix("+7ab", 32), Ok(ubig(7499)));
    assert_eq!(IBig::from_str_radix("-7ab", 32), Ok(ibig_from_signed(-7499)));
    assert_eq!(UBig::from_str_with_radix_prefix("+0o17"), Ok(ubig(0o17)));
    assert_eq!(UBig::from_str_with_radix_prefix("0x1f"), Ok(ubig(0x1f)));
    assert_eq!(IBig::from_str_with_radix_prefix("+0o17"), Ok(ibig_from_signed(0o17)));
    assert_eq!(IBig::from_str_with_radix_prefix("-0x1f"), Ok(ibig_from_signed(-0x1f)));
    assert_eq!(UBig::from_str_with_radix_prefix("0b101"), Ok(ubig(5)));
    assert_eq!(UBig::from_str_with_radix_prefix("123"), Ok(ubig(123)));
}

#[test]
fn test_parse_errors() {
    assert_eq!(UBig::from_str_radix("", 10), Err(ParseError::NoDigits));
    assert_eq!(UBig::from_str_radix("+", 10), Err(ParseError::NoDigits));
    assert_eq!(UBig::from_str_radix("12a", 10), Err(ParseError::InvalidDigit));
    assert_eq!(UBig::from_str_radix("-12", 10), Err(ParseError::InvalidDigit));
    assert_eq!(IBig::from_str_radix("-", 10), Err(ParseError::NoDigits));
    assert_eq!(IBig::from_str_radix("-+1", 10), Err(ParseError::InvalidDigit));
    assert_eq!(UBig::from_str_with_radix_prefix("0x"), Err(ParseError::NoDigits));
    assert_eq!(UBig::from_str_with_radix_prefix("0b2"), Err(ParseError::InvalidDigit));
    assert_eq!(ParseError::NoDigits.to_string(), "no digits");
    assert_eq!(ParseError::InvalidDigit.to_string(), "invalid digit");
}

#[test]
fn test_parse_leading_zeros_and_case() {
    assert_eq!(UBig::from_str_radix("000000", 10), Ok(ubig(0)));
    assert_eq!(UBig::from_str_radix("0000123", 10), Ok(ubig(123)));
    assert_eq!(UBig::from_str_radix("FF", 16), Ok(ubig(255)));
    assert_eq!(UBig::from_str_radix("ff", 16), Ok(ubig(255)));
    assert_eq!(IBig::from_str_radix("-0", 10), Ok(ibig_from_signed(0)));
}

#[test]
fn test_parse_long_numbers() {
    // power-of-two radix across many words
    let hex = "123456789abcdef0fedcba9876543210";
    assert_eq!(UBig::from_str_radix(hex, 16), Ok(ubig(0x123456789abcdef0fedcba9876543210)));
    let dec = "340282366920938463463374607431768211455";
    assert_eq!(UBig::from_str_radix(dec, 10), Ok(ubig(u128::MAX)));
    // a decimal number of 10000 digits, in one chunk and in the divide-and-conquer path
    let mut s = String::from("1");
    for _ in 0..10000 {
        s.push('0');
    }
    let big = UBig::from_str_radix(&s, 10).unwrap();
    assert_eq!(big, ubig(10).pow(10000));
    let mut s = String::from("7");
    for _ in 0..30000 {
        s.push('0');
    }
    let big = UBig::from_str_radix(&s, 10).unwrap();
    assert_eq!(big, ubig(10).pow(30000).mul(&ubig(7)));
    let mut s = String::from("1");
    for _ in 0..3000 {
        s.push('0');
    }
    assert_eq!(UBig::from_str_radix(&s, 2).unwrap(), ubig(1).shl(3000));
}

#[test]
fn test_to_radix_str() {
    assert_eq!(ubig(0x123f).to_radix_str(16), "123f");
    assert_eq!(ubig(0x123f).to_radix_str_uppercase(16), "123F");
    assert_eq!(ubig(100).to_radix_str(2), "1100100");
    assert_eq!(ubig(3000).to_radix_str(16), "bb8");
    assert_eq!(ubig(0).to_radix_str(8), "0");
    assert_eq!(ubig(u128::MAX).to_radix_str(16), "ffffffffffffffffffffffffffffffff");
    assert_eq!(ubig(1 << 64).to_radix_str(32), "g000000000000");
    assert_eq!(ubig(1 << 100).to_radix_str(8), format!("{:o}", 1u128 << 100));
}

#[test]
fn test_radix_round_trip() {
    let values = [0u128, 1, 31, 32, 12345, 1 << 63, (1 << 64) + 5, u128::MAX, 0xdeadbeef << 70];
    for &x in &values {
        for radix in [2u32, 4, 8, 16, 32] {
            let s = ubig(x).to_radix_str(radix);
            assert_eq!(UBig::from_str_radix(&s, radix), Ok(ubig(x)));
            let s = ubig(x).to_radix_str_uppercase(radix);
            assert_eq!(UBig::from_str_radix(&s, radix), Ok(ubig(x)));
        }
    }
    let big = ubig(3).pow(1000);
    let s = big.to_radix_str(16);
    assert_eq!(UBig::from_str_radix(&s, 16), Ok(big));
}

#[test]
fn test_format_layout() {
    let x = ubig(100);
    let in_radix = x.in_radix(2);
    assert_eq!(in_radix.digits_width(), 7);
    let mut digits = Vec::new();
    in_radix.write_digits(&mut digits, DigitCase::Lower);
    assert_eq!(digits, b"1100100".to_vec());
    let plain = FormatRequest {
        sign_plus: false,
        alternate: false,
        width: None,
        sign_aware_zero_pad: false,
        align: None,
    };
    let l = in_radix.format_layout(plain);
    assert_eq!((l.fill_before, l.sign, l.zeros, l.fill_after), (0, SignMark::Empty, 0, 0));
    // "{:+010}" gives "+001100100"
    let l = in_radix.format_layout(FormatRequest {
        sign_plus: true,
        width: Some(10),
        sign_aware_zero_pad: true,
        ..plain
    });
    assert_eq!((l.fill_before, l.sign, l.zeros, l.fill_after), (0, SignMark::Plus, 2, 0));
    // "{:=^10}" gives "=1100100=="
    let l = in_radix.format_layout(FormatRequest {
        width: Some(10),
        align: Some(Alignment::Center),
        ..plain
    });
    assert_eq!((l.fill_before, l.zeros, l.fill_after), (1, 0, 2));
    // "{:#}" in radix 16 uses upper case
    let y = ubig(3000);
    let l = y.in_radix(16).format_layout(FormatRequest { alternate: true, ..plain });
    assert_eq!(l.digit_case, DigitCase::Upper);
    // a prefix and a sign count toward the width
    let n = InRadix::new(Sign::Negative, &y, 16, "0x", Some(DigitCase::Lower));
    let l = n.format_layout(FormatRequest { width: Some(8), ..plain });
    assert_eq!((l.fill_before, l.sign, l.fill_after), (2, SignMark::Minus, 0));
    let l = n.format_layout(FormatRequest { width: Some(8), align: Some(Alignment::Left), ..plain });
    assert_eq!((l.fill_before, l.fill_after), (0, 2));
    let l = n.format_layout(FormatRequest { width: Some(3), ..plain });
    assert_eq!((l.fill_before, l.fill_after, l.zeros), (0, 0, 0));
}

#[test]
fn test_to_radix_str_any_radix() {
    assert_eq!(ubig(100).to_radix_str(10), "100");
    assert_eq!(ubig(100).to_radix_str(36), "2s");
    assert_eq!(ubig(100).to_radix_str_uppercase(36), "2S");
    assert_eq!(ubig(100).to_radix_str(3), "10201");
    assert_eq!(ubig(0).to_radix_str(10), "0");
    assert_eq!(ubig(u128::MAX).to_radix_str(10), format!("{}", u128::MAX));
    let values = [0u128, 1, 2, 35, 36, 12345, 1 << 63, (1 << 64) + 5, u128::MAX, 0xdeadbeef << 70];
    for &x in &values {
        for radix in 2u32..=36 {
            let s = ubig(x).to_radix_str(radix);
            assert_eq!(UBig::from_str_radix(&s, radix), Ok(ubig(x)));
            assert!(s == "0" || !s.starts_with('0'));
            let s = ubig(x).to_radix_str_uppercase(radix);
            assert_eq!(UBig::from_str_radix(&s, radix), Ok(ubig(x)));
        }
        assert_eq!(ubig(x).to_radix_str(10), format!("{}", x));
    }
    let big = ubig(3).pow(1000);
    let s = big.to_radix_str(3);
    assert_eq!(s.len(), 1001);
    assert!(s.starts_with('1') && s[1..].bytes().all(|b| b == b'0'));
    assert_eq!(UBig::from_str_radix(&big.to_radix_str(10), 10), Ok(big));
}

#[test]
fn test_in_radix_decimal_digits() {
    let x = ubig(100);
    let in_radix = x.in_radix(10);
    assert_eq!(in_radix.digits_width(), 3);
    let mut digits = Vec::new();
    in_radix.write_digits(&mut digits, DigitCase::Lower);
    assert_eq!(digits, b"100".to_vec());
    assert_eq!(x.in_radix(36).digits_width(), 2);
    assert_eq!(x.in_radix(3).digits_width(), 5);
}
