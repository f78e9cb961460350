//! Information about radixes.

use crate::primitive::Word;
use ascii::AsciiChar;
use ascii::ToAsciiCharError;
use vstd::prelude::*;

verus! {

/// Digit or radix.
pub type Digit = u32;

/// Maximum supported radix.
pub const MAX_RADIX: Digit = 36;

/// The ASCII character, as an `AsciiChar` of the `ascii` crate.
#[verifier::external_type_specification]
#[verifier::external_body]
pub struct ExAsciiChar(AsciiChar);

/// The error of the `ascii` crate for a byte that is not ASCII.
#[verifier::external_type_specification]
#[verifier::external_body]
pub struct ExToAsciiCharError(ToAsciiCharError);

/// The `AsciiChar` whose byte is `byte`.
pub uninterp spec fn ascii_char_of(byte: u8) -> AsciiChar;

/// `AsciiChar::from_ascii` of the `ascii` crate on a byte: `Ok` exactly for bytes up to
/// `0x7f`, holding the character with that byte.
#[verifier::external_body]
fn ascii_char_from_byte(byte: u8) -> (res: Result<AsciiChar, ToAsciiCharError>)
    ensures
        res is Ok <==> byte <= 0x7f,
        res matches Ok(ch) ==> ch == ascii_char_of(byte),
{
    AsciiChar::from_ascii(byte)
}

/// Is the radix supported?
pub open spec fn spec_radix_valid(radix: Digit) -> bool {
    2 <= radix <= MAX_RADIX
}

/// Is the radix valid?
pub fn is_radix_valid(radix: Digit) -> (r: bool)
    ensures
        r == spec_radix_valid(radix),
{
    2 <= radix && radix <= MAX_RADIX
}

/// The supported radixes that are powers of two.
pub open spec fn is_pow2_radix(radix: Digit) -> bool {
    radix == 2 || radix == 4 || radix == 8 || radix == 16 || radix == 32
}

/// The base 2 logarithm of a power-of-two radix.
pub open spec fn spec_log2_radix(radix: Digit) -> u32 {
    if radix == 2 {
        1
    } else if radix == 4 {
        2
    } else if radix == 8 {
        3
    } else if radix == 16 {
        4
    } else {
        5
    }
}

/// Is a valid radix a power of two?
pub fn is_power_of_two_radix(radix: Digit) -> (r: bool)
    requires
        spec_radix_valid(radix),
    ensures
        r == is_pow2_radix(radix),
{
    assert(2 <= radix <= 36 ==> ((radix & ((radix - 1) as u32)) == 0 <==> (radix == 2 || radix
        == 4 || radix == 8 || radix == 16 || radix == 32))) by (bit_vector);
    radix & (radix - 1) == 0
}

/// The base 2 logarithm of a power-of-two radix.
pub fn log2_radix(radix: Digit) -> (r: u32)
    requires
        is_pow2_radix(radix),
    ensures
        r == spec_log2_radix(radix),
        vstd::arithmetic::power2::pow2(r as nat) == radix,
        1 <= r <= 5,
{
    proof {
        vstd::arithmetic::power2::lemma2_to64();
    }
    match radix {
        2 => 1,
        4 => 2,
        8 => 3,
        16 => 4,
        _ => 5,
    }
}

/// The case of letter digits.
#[derive(Clone, Copy, Debug, PartialEq, Eq, Structural)]
pub enum DigitCase {
    Lower,
    Upper,
}

impl DigitCase {
    /// The ASCII letter for the digit 10.
    pub open spec fn spec_base(self) -> u8 {
        match self {
            DigitCase::Lower => 0x61,
            DigitCase::Upper => 0x41,
        }
    }

    /// The ASCII letter for the digit 10.
    pub fn base(self) -> (r: u8)
        ensures
            r == self.spec_base(),
    {
        match self {
            DigitCase::Lower => 0x61u8,
            DigitCase::Upper => 0x41u8,
        }
    }
}

/// The ASCII byte of a digit.
pub open spec fn spec_digit_byte(digit: Digit, digit_case: DigitCase) -> u8 {
    if digit < 10 {
        (0x30 + digit) as u8
    } else {
        (digit_case.spec_base() + (digit - 10)) as u8
    }
}

/// The ASCII byte of a digit.
pub fn digit_to_ascii_byte(digit: Digit, digit_case: DigitCase) -> (r: u8)
    requires
        digit < MAX_RADIX,
    ensures
        r == spec_digit_byte(digit, digit_case),
        r <= 0x7f,
        digit < 10 ==> r == 0x30 + digit,
        digit >= 10 && digit_case == DigitCase::Upper ==> r == 0x41 + (digit - 10),
        digit >= 10 && digit_case == DigitCase::Lower ==> r == 0x61 + (digit - 10),
{
    if digit < 10 {
        0x30u8 + (digit as u8)
    } else {
        digit_case.base() + ((digit - 10) as u8)
    }
}

/// Converts a digit to its ASCII representation.
pub fn digit_to_ascii(digit: Digit, digit_case: DigitCase) -> (ch: AsciiChar)
    requires
        digit < MAX_RADIX,
    ensures
        ch == ascii_char_of(spec_digit_byte(digit, digit_case)),
{
    let ascii = digit_to_ascii_byte(digit, digit_case);
    ascii_char_from_byte(ascii).unwrap()
}

/// The value of an ASCII digit byte in any radix up to 36, if it is a digit.
pub open spec fn spec_digit_value(byte: u8) -> Option<Digit> {
    if 0x30 <= byte <= 0x39 {
        Some((byte - 0x30) as Digit)
    } else if 0x61 <= byte <= 0x7a {
        Some((byte - 0x61 + 10) as Digit)
    } else if 0x41 <= byte <= 0x5a {
        Some((byte - 0x41 + 10) as Digit)
    } else {
        None
    }
}

/// The digit bytes, in either case: `0` to `9` are the bytes `'0'` to `'9'`, and `10` to `35`
/// the letters `'a'` to `'z'` or `'A'` to `'Z'`, in order. A larger digit has a larger byte, the two
/// cases differ only in the ASCII case bit, and the first and last digit of each group are
/// fixed, which together pin every byte.
pub proof fn lemma_digit_bytes(d1: Digit, d2: Digit, digit_case: DigitCase)
    requires
        d1 < d2 < MAX_RADIX,
    ensures
        spec_digit_byte(d1, digit_case) < spec_digit_byte(d2, digit_case),
        spec_digit_byte(0, digit_case) == 0x30,
        spec_digit_byte(9, digit_case) == 0x39,
        spec_digit_byte(10, DigitCase::Lower) == 0x61,
        spec_digit_byte(35, DigitCase::Lower) == 0x7a,
        spec_digit_byte(10, DigitCase::Upper) == 0x41,
        spec_digit_byte(35, DigitCase::Upper) == 0x5a,
        d1 >= 10 ==> spec_digit_byte(d1, DigitCase::Lower) == spec_digit_byte(d1, DigitCase::Upper)
            + 0x20,
        d1 < 10 ==> spec_digit_byte(d1, DigitCase::Lower) == spec_digit_byte(d1, DigitCase::Upper),
{
}

/// Reading digit bytes: each digit byte, in either case, reads back as its digit; letters are
/// read without regard to case; a larger byte within the digits, or within the letters of one
/// case, reads as a larger digit; and no other byte is a digit.
pub proof fn lemma_digit_values(d: Digit, digit_case: DigitCase, b1: u8, b2: u8)
    requires
        d < MAX_RADIX,
    ensures
        spec_digit_value(spec_digit_byte(d, digit_case)) == Some(d),
        0x41 <= b1 <= 0x5a ==> spec_digit_value(b1) == spec_digit_value((b1 + 0x20) as u8),
        (0x30 <= b1 < b2 <= 0x39 || 0x41 <= b1 < b2 <= 0x5a || 0x61 <= b1 < b2 <= 0x7a) ==> (
        spec_digit_value(b1) matches Some(v1) && spec_digit_value(b2) matches Some(v2) && v1
            < v2),
        spec_digit_value(0x30) == Some(0u32),
        spec_digit_value(0x41) == Some(10u32),
        spec_digit_value(0x61) == Some(10u32),
        !(0x30 <= b1 <= 0x39 || 0x41 <= b1 <= 0x5a || 0x61 <= b1 <= 0x7a) ==> spec_digit_value(b1)
            is None,
{
}

/// Is the byte a digit in the radix?
pub open spec fn is_digit(byte: u8, radix: Digit) -> bool {
    spec_digit_value(byte) matches Some(d) && d < radix
}

/// The value of a digit byte that `is_digit`.
pub open spec fn digit_of(byte: u8) -> nat {
    match spec_digit_value(byte) {
        Some(d) => d as nat,
        None => 0,
    }
}

/// Converts a byte (ASCII) representation of a digit to its value.
pub fn digit_from_utf8_byte(byte: u8, radix: Digit) -> (r: Option<Digit>)
    ensures
        r is Some <==> is_digit(byte, radix),
        r matches Some(d) ==> d == digit_of(byte) && d < radix,
        0x30 <= byte <= 0x39 ==> (r is Some <==> byte - 0x30 < radix),
        r is Some && 0x30 <= byte <= 0x39 ==> r == Some((byte - 0x30) as Digit),
        r is Some && 0x41 <= byte <= 0x5a ==> r == Some((byte - 0x41 + 10) as Digit),
        r is Some && 0x61 <= byte <= 0x7a ==> r == Some((byte - 0x61 + 10) as Digit),
{
    let res = if 0x30u8 <= byte && byte <= 0x39u8 {
        (byte - 0x30u8) as Digit
    } else if 0x61u8 <= byte && byte <= 0x7au8 {
        (byte - 0x61u8) as Digit + 10
    } else if 0x41u8 <= byte && byte <= 0x5au8 {
        (byte - 0x41u8) as Digit + 10
    } else {
        return None;
    };
    if res < radix {
        Some(res)
    } else {
        None
    }
}

/// Properties of a radix: how many digits fit in a word.
#[derive(Clone, Copy, Debug, PartialEq, Eq, Structural)]
pub struct RadixInWord {
    /// Maximum number of digits that fit in a `Word`.
    pub max_digits: usize,
    /// Radix to the power of `max_digits`.
    /// Only for non-power-of-2 radixes.
    pub max_digits_range: Word,
}

/// The entry of a radix: for a power of two, the number of its digits in 64 bits and no
/// range; otherwise the largest power of the radix that fits in a word, with its exponent.
pub open spec fn radix_in_word_spec(radix: Digit, entry: RadixInWord) -> bool {
    if is_pow2_radix(radix) {
        entry.max_digits == 64int / (spec_log2_radix(radix) as int) && entry.max_digits_range == 0
    } else {
        &&& entry.max_digits_range == vstd::arithmetic::power::pow(
            radix as int,
            entry.max_digits as nat,
        )
        &&& entry.max_digits_range * radix > Word::MAX
    }
}

impl RadixInWord {
    /// The entry for a radix.
    pub fn for_radix(radix: Digit) -> (r: RadixInWord)
        requires
            spec_radix_valid(radix),
        ensures
            radix_in_word_spec(radix, r),
            r.max_digits >= 1,
            r.max_digits <= 64,
    {
        if is_power_of_two_radix(radix) {
            RadixInWord { max_digits: (64 / log2_radix(radix)) as usize, max_digits_range: 0 }
        } else {
            proof {
                vstd::arithmetic::power::lemma_pow0(radix as int);
                vstd::arithmetic::power2::lemma2_to64();
            }
            RadixInWord::for_radix_recursive(radix, RadixInWord { max_digits: 0, max_digits_range: 1 })
        }
    }

    /// Extends `entry` by one digit while the range still fits in a word.
    pub fn for_radix_recursive(radix: Digit, entry: RadixInWord) -> (r: RadixInWord)
        requires
            spec_radix_valid(radix),
            !is_pow2_radix(radix),
            entry.max_digits_range == vstd::arithmetic::power::pow(
                radix as int,
                entry.max_digits as nat,
            ),
            entry.max_digits_range >= 1,
            entry.max_digits <= 64,
            entry.max_digits_range >= vstd::arithmetic::power2::pow2(entry.max_digits as nat),
        ensures
            radix_in_word_spec(radix, r),
            r.max_digits >= entry.max_digits,
            r.max_digits >= 1 || entry.max_digits >= 1,
            r.max_digits <= 64,
        decreases 64 - entry.max_digits,
    {
        match entry.max_digits_range.checked_mul(radix as Word) {
            None => {
                proof {
                    assert(entry.max_digits_range * radix > Word::MAX);
                    assert(entry.max_digits >= 1) by {
                        if entry.max_digits == 0 {
                            vstd::arithmetic::power::lemma_pow0(radix as int);
                        }
                    }
                }
                entry
            },
            Some(max_digits_range) => {
                proof {
                    vstd::arithmetic::power::lemma_pow_adds(radix as int, entry.max_digits as nat, 1);
                    vstd::arithmetic::power::lemma_pow1(radix as int);
                    vstd::arithmetic::power2::lemma_pow2_unfold(entry.max_digits as nat + 1);
                    assert(max_digits_range >= vstd::arithmetic::power2::pow2(
                        entry.max_digits as nat + 1,
                    )) by (nonlinear_arith)
                        requires
                            max_digits_range == entry.max_digits_range * radix,
                            entry.max_digits_range >= vstd::arithmetic::power2::pow2(
                                entry.max_digits as nat,
                            ),
                            radix >= 2,
                            vstd::arithmetic::power2::pow2(entry.max_digits as nat + 1) == 2
                                * vstd::arithmetic::power2::pow2(entry.max_digits as nat),
                    ;
                    assert(max_digits_range >= 1) by (nonlinear_arith)
                        requires
                            max_digits_range == entry.max_digits_range * radix,
                            entry.max_digits_range >= 1,
                            radix >= 2,
                    ;
                    if entry.max_digits + 1 > 63 {
                        vstd::arithmetic::power2::lemma2_to64_rest();
                        if entry.max_digits + 1 > 64 {
                            vstd::arithmetic::power2::lemma_pow2_strictly_increases(
                                64,
                                entry.max_digits as nat + 1,
                            );
                        }
                    }
                }
                RadixInWord::for_radix_recursive(
                    radix,
                    RadixInWord { max_digits: entry.max_digits + 1, max_digits_range },
                )
            },
        }
    }
}

/// The entries for every radix up to `MAX_RADIX`; entries for radixes 0 and 1 are zero.
pub fn fill_radix_in_word_table() -> (r: Vec<RadixInWord>)
    ensures
        r@.len() == MAX_RADIX + 1,
        forall|i: int| 2 <= i <= MAX_RADIX ==> radix_in_word_spec(i as Digit, #[trigger] r@[i]),
{
    let mut table: Vec<RadixInWord> = Vec::new();
    table.push(RadixInWord { max_digits: 0, max_digits_range: 0 });
    table.push(RadixInWord { max_digits: 0, max_digits_range: 0 });
    let mut next_radix: Digit = 2;
    while next_radix <= MAX_RADIX
        invariant
            2 <= next_radix <= MAX_RADIX + 1,
            table@.len() == next_radix,
            forall|i: int| 2 <= i < next_radix ==> radix_in_word_spec(i as Digit, #[trigger] table@[i]),
        decreases MAX_RADIX + 1 - next_radix,
    {
        table.push(RadixInWord::for_radix(next_radix));
        next_radix += 1;
    }
    table
}

} // verus!
