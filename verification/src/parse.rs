//! Parsing numbers.

use crate::buffer::{Buffer, MAX_LEN};
use crate::error::ParseError;
use crate::ibig::IBig;
use crate::mul::mul_word_in_place_with_carry;
use crate::primitive::Word;
use crate::radix::{
    digit_from_utf8_byte, digit_of, is_digit, is_pow2_radix, is_power_of_two_radix, log2_radix,
    radix_in_word_spec, spec_log2_radix, spec_radix_valid, Digit, RadixInWord,
};
use crate::sign::Sign;
use crate::ubig::{fits, UBig};
use crate::value::{lemma_pow_base_pos, lemma_to_nat_push, pow_base, to_nat};
use vstd::arithmetic::power::{lemma_pow0, lemma_pow1, lemma_pow_adds, pow};
use vstd::arithmetic::power2::{lemma2_to64, lemma2_to64_rest, lemma_pow2_adds, lemma_pow2_pos, pow2};
use vstd::prelude::*;
use vstd::string::StringSliceAdditionalSpecFns;

verus! {

/// Words of digits are parsed in chunks of this many words.
pub const CHUNK_LEN: usize = 256;

/// Value of the digits of `s` in `radix`, most significant first.
pub open spec fn digits_value(s: Seq<u8>, radix: nat) -> nat
    decreases s.len(),
{
    if s.len() == 0 {
        0
    } else {
        digits_value(s.drop_last(), radix) * radix + digit_of(s.last())
    }
}

/// Every byte of `s` is a digit in `radix`.
pub open spec fn all_digits(s: Seq<u8>, radix: Digit) -> bool {
    forall|i: int| 0 <= i < s.len() ==> is_digit(#[trigger] s[i], radix)
}

/// The result of parsing the digits `s` (without sign or prefix) in `radix`.
pub open spec fn parse_digits(s: Seq<u8>, radix: Digit) -> Result<nat, ParseError> {
    if s.len() == 0 {
        Err(ParseError::NoDigits)
    } else if !all_digits(s, radix) {
        Err(ParseError::InvalidDigit)
    } else {
        Ok(digits_value(s, radix as nat))
    }
}

/// `s` without one leading `+`.
pub open spec fn strip_plus(s: Seq<u8>) -> Seq<u8> {
    if s.len() > 0 && s[0] == 0x2b {
        s.skip(1)
    } else {
        s
    }
}

/// The radix given by the prefix of `s` (`0b`, `0o`, `0x`, or none for 10).
pub open spec fn prefix_radix(s: Seq<u8>) -> Digit {
    if s.len() >= 2 && s[0] == 0x30 && s[1] == 0x62 {
        2
    } else if s.len() >= 2 && s[0] == 0x30 && s[1] == 0x6f {
        8
    } else if s.len() >= 2 && s[0] == 0x30 && s[1] == 0x78 {
        16
    } else {
        10
    }
}

/// `s` without its radix prefix.
pub open spec fn strip_prefix_radix(s: Seq<u8>) -> Seq<u8> {
    if prefix_radix(s) == 10 {
        s
    } else {
        s.skip(2)
    }
}

/// The parse result as a value: `Ok` holds the number.
pub open spec fn parsed_ubig(r: Result<UBig, ParseError>) -> Result<nat, ParseError> {
    match r {
        Ok(v) => Ok(v@),
        Err(e) => Err(e),
    }
}

/// The parse result as a value: `Ok` holds the number.
pub open spec fn parsed_ibig(r: Result<IBig, ParseError>) -> Result<int, ParseError> {
    match r {
        Ok(v) => Ok(v@),
        Err(e) => Err(e),
    }
}

/// A signed parse result from a sign and an unsigned one.
pub open spec fn signed_parse(negative: bool, r: Result<nat, ParseError>) -> Result<int, ParseError> {
    match r {
        Ok(v) => Ok(if negative {
            -v
        } else {
            v as int
        }),
        Err(e) => Err(e),
    }
}

/// Concatenation of digit strings.
pub proof fn lemma_digits_value_append(a: Seq<u8>, b: Seq<u8>, radix: nat)
    ensures
        digits_value(a + b, radix) == digits_value(a, radix) * pow(radix as int, b.len()) + digits_value(
            b,
            radix,
        ),
    decreases b.len(),
{
    if b.len() == 0 {
        assert(a + b =~= a);
        lemma_pow0(radix as int);
    } else {
        let bd = b.drop_last();
        assert((a + b).drop_last() =~= a + bd);
        assert((a + b).last() == b.last());
        lemma_digits_value_append(a, bd, radix);
        lemma_pow_adds(radix as int, bd.len(), 1);
        lemma_pow1(radix as int);
        let p = pow(radix as int, bd.len());
        assert((digits_value(a, radix) * p + digits_value(bd, radix)) * radix == digits_value(
            a,
            radix,
        ) * (p * radix) + digits_value(bd, radix) * radix) by (nonlinear_arith);
    }
}

/// The value of one digit.
proof fn lemma_digits_value_single(b: u8, radix: nat)
    ensures
        digits_value(seq![b], radix) == digit_of(b),
{
    assert(seq![b].drop_last() =~= Seq::<u8>::empty());
    assert(digits_value(Seq::<u8>::empty(), radix) == 0);
    assert(0 * radix == 0) by (nonlinear_arith);
}

/// Digits are below `radix^len`.
pub proof fn lemma_digits_value_bound(s: Seq<u8>, radix: Digit)
    requires
        all_digits(s, radix),
        radix >= 1,
    ensures
        digits_value(s, radix as nat) < pow(radix as int, s.len()),
    decreases s.len(),
{
    if s.len() == 0 {
        lemma_pow0(radix as int);
    } else {
        let sd = s.drop_last();
        assert forall|i: int| 0 <= i < sd.len() implies is_digit(#[trigger] sd[i], radix) by {
            assert(sd[i] == s[i]);
        }
        lemma_digits_value_bound(sd, radix);
        assert(is_digit(s[s.len() - 1], radix));
        lemma_pow_adds(radix as int, sd.len(), 1);
        lemma_pow1(radix as int);
        let p = pow(radix as int, sd.len());
        let v = digits_value(sd, radix as nat) as int;
        assert(v * radix + digit_of(s.last()) < p * radix) by (nonlinear_arith)
            requires
                v < p,
                digit_of(s.last()) < radix,
                v >= 0,
        ;
    }
}

/// Leading zeros do not change the value, and are digits in every radix.
proof fn lemma_leading_zero(s: Seq<u8>, radix: Digit)
    requires
        s.len() > 0,
        s[0] == 0x30,
        radix >= 2,
    ensures
        digits_value(s, radix as nat) == digits_value(s.skip(1), radix as nat),
        all_digits(s, radix) == all_digits(s.skip(1), radix),
{
    assert(s =~= seq![0x30u8] + s.skip(1));
    lemma_digits_value_append(seq![0x30u8], s.skip(1), radix as nat);
    lemma_digits_value_single(0x30u8, radix as nat);
    assert(digits_value(seq![0x30u8], radix as nat) == 0);
    assert(0 * pow(radix as int, s.skip(1).len()) == 0) by (nonlinear_arith);
    if all_digits(s.skip(1), radix) {
        assert forall|i: int| 0 <= i < s.len() implies is_digit(#[trigger] s[i], radix) by {
            if i > 0 {
                assert(s[i] == s.skip(1)[i - 1]);
            }
        }
    }
    if all_digits(s, radix) {
        assert forall|i: int| 0 <= i < s.skip(1).len() implies is_digit(
            #[trigger] s.skip(1)[i],
            radix,
        ) by {
            assert(s.skip(1)[i] == s[i + 1]);
        }
    }
}

/// Subsequences of digit strings are digit strings.
proof fn lemma_all_digits_subrange(s: Seq<u8>, radix: Digit, a: int, b: int)
    requires
        all_digits(s, radix),
        0 <= a <= b <= s.len(),
    ensures
        all_digits(s.subrange(a, b), radix),
{
    assert forall|i: int| 0 <= i < s.subrange(a, b).len() implies is_digit(
        #[trigger] s.subrange(a, b)[i],
        radix,
    ) by {
        assert(s.subrange(a, b)[i] == s[a + i]);
    }
}

/// A string is a digit string when both its parts are.
proof fn lemma_all_digits_append(a: Seq<u8>, b: Seq<u8>, radix: Digit)
    ensures
        all_digits(a + b, radix) == (all_digits(a, radix) && all_digits(b, radix)),
{
    if all_digits(a + b, radix) {
        assert forall|i: int| 0 <= i < a.len() implies is_digit(#[trigger] a[i], radix) by {
            assert((a + b)[i] == a[i]);
        }
        assert forall|i: int| 0 <= i < b.len() implies is_digit(#[trigger] b[i], radix) by {
            assert((a + b)[a.len() + i] == b[i]);
        }
    }
    if all_digits(a, radix) && all_digits(b, radix) {
        assert forall|i: int| 0 <= i < (a + b).len() implies is_digit(#[trigger] (a + b)[i], radix) by {
            if i < a.len() {
                assert((a + b)[i] == a[i]);
            } else {
                assert((a + b)[i] == b[i - a.len()]);
            }
        }
    }
}

/// Convert a string of at most `max_digits` digits to a `Word` for a non-power-of-2 radix.
pub fn from_str_radix_non_pow2_word(src: &[u8], radix: Digit) -> (r: Result<Word, ParseError>)
    requires
        spec_radix_valid(radix),
        pow(radix as int, src@.len()) <= Word::MAX + 1,
    ensures
        r is Ok <==> all_digits(src@, radix),
        r is Err ==> r == Err::<Word, ParseError>(ParseError::InvalidDigit),
        r matches Ok(w) ==> w == digits_value(src@, radix as nat),
{
    let n = src.len();
    let mut word: Word = 0;
    let mut i: usize = 0;
    proof {
        assert(src@.take(0) =~= Seq::<u8>::empty());
    }
    while i < n
        invariant
            i <= n,
            n == src@.len(),
            spec_radix_valid(radix),
            pow(radix as int, n as nat) <= Word::MAX + 1,
            all_digits(src@.take(i as int), radix),
            word == digits_value(src@.take(i as int), radix as nat),
        decreases n - i,
    {
        let digit = match digit_from_utf8_byte(src[i], radix) {
            Some(d) => d,
            None => {
                proof {
                    assert(!all_digits(src@, radix));
                }
                return Err(ParseError::InvalidDigit);
            },
        };
        proof {
            let t = src@.take(i + 1);
            assert(t.drop_last() =~= src@.take(i as int));
            assert(t.last() == src@[i as int]);
            lemma_digits_value_bound(src@.take(i as int), radix);
            lemma_pow_adds(radix as int, i as nat, 1);
            lemma_pow1(radix as int);
            vstd::arithmetic::power::lemma_pow_increases(radix as nat, (i + 1) as nat, n as nat);
            let p = pow(radix as int, i as nat);
            assert(word * radix + digit < p * radix) by (nonlinear_arith)
                requires
                    word < p,
                    digit < radix,
            ;
            assert forall|j: int| 0 <= j < t.len() implies is_digit(#[trigger] t[j], radix) by {
                if j < i {
                    assert(t[j] == src@.take(i as int)[j]);
                }
            }
        }
        word = word * (radix as Word) + (digit as Word);
        i += 1;
    }
    proof {
        assert(src@.take(n as int) =~= src@);
    }
    Ok(word)
}

/// Truncating left shift of a word by `b` bits, `0 < b < 64`.
pub proof fn lemma_shl_truncates(d: Word, b: u64)
    requires
        0 < b < 64,
    ensures
        (d << b) as nat == (d as nat % pow2((64 - b) as nat)) * pow2(b as nat),
{
    let k = (64 - b) as u64;
    vstd::bits::lemma_u64_pow2_no_overflow(k as nat);
    vstd::bits::lemma_u64_shl_is_mul(1, k);
    vstd::bits::lemma_u64_low_bits_mask_is_mod(d, k as nat);
    let m: u64 = ((1u64 << k) - 1) as u64;
    assert(m == vstd::bits::low_bits_mask(k as nat) as u64);
    assert(0 < b < 64 ==> (d << b) == ((d & (((1u64 << ((64 - b) as u64)) - 1) as u64)) << b))
        by (bit_vector);
    let md = d & m;
    assert(md == d % (pow2(k as nat) as u64));
    vstd::arithmetic::div_mod::lemma_mod_bound(d as int, pow2(k as nat) as int);
    crate::shift::lemma_pow2_split_base(b as nat);
    assert(md * pow2(b as nat) < pow2(k as nat) * pow2(b as nat)) by (nonlinear_arith)
        requires
            md < pow2(k as nat),
            pow2(b as nat) > 0,
    ;
    vstd::arithmetic::mul::lemma_mul_is_commutative(pow2(k as nat) as int, pow2(b as nat) as int);
    vstd::bits::lemma_u64_shl_is_mul(md, b);
}

/// Convert a string of at most `64 / log2(radix)` digits to a `Word` for a power-of-2 radix.
pub fn from_str_radix_pow2_word(src: &[u8], radix: Digit) -> (r: Result<Word, ParseError>)
    requires
        is_pow2_radix(radix),
        src@.len() * spec_log2_radix(radix) <= 64,
    ensures
        r is Ok <==> all_digits(src@, radix),
        r is Err ==> r == Err::<Word, ParseError>(ParseError::InvalidDigit),
        r matches Ok(w) ==> w == digits_value(src@, radix as nat),
{
    let log_radix = log2_radix(radix);
    let n = src.len();
    let mut word: Word = 0;
    let mut bits: u32 = 0;
    let mut i = n;
    proof {
        assert(src@.skip(n as int) =~= Seq::<u8>::empty());
        lemma2_to64();
    }
    while i > 0
        invariant
            i <= n,
            n == src@.len(),
            is_pow2_radix(radix),
            log_radix == spec_log2_radix(radix),
            pow2(log_radix as nat) == radix,
            n * log_radix <= 64,
            bits == (n - i) * log_radix,
            all_digits(src@.skip(i as int), radix),
            word == digits_value(src@.skip(i as int), radix as nat),
            word < pow2(bits as nat),
        decreases i,
    {
        i -= 1;
        let digit = match digit_from_utf8_byte(src[i], radix) {
            Some(d) => d,
            None => {
                proof {
                    assert(!all_digits(src@, radix));
                }
                return Err(ParseError::InvalidDigit);
            },
        };
        proof {
            assert(bits + log_radix <= 64) by (nonlinear_arith)
                requires
                    bits == (n - i - 1) * log_radix,
                    n * log_radix <= 64,
                    i < n,
            ;
            lemma_pow2_step(src@, i as nat, radix, log_radix as nat, bits as nat);
            lemma_pow2_pos(bits as nat);
            lemma_pow2_adds(bits as nat, log_radix as nat);
            assert(digit * pow2(bits as nat) < pow2(bits as nat + log_radix as nat)) by (nonlinear_arith)
                requires
                    digit < radix,
                    radix == pow2(log_radix as nat),
                    pow2(bits as nat + log_radix as nat) == pow2(bits as nat) * pow2(log_radix as nat),
                    pow2(bits as nat) > 0,
            ;
            if bits + log_radix < 64 {
                vstd::arithmetic::power2::lemma_pow2_strictly_increases(bits as nat + log_radix as nat, 64);
            }
            lemma2_to64_rest();
            vstd::bits::lemma_u64_shl_is_mul(digit as Word, bits as u64);
            vstd::arithmetic::div_mod::lemma_mod_multiples_basic(digit as int, pow2(bits as nat) as int);
            vstd::arithmetic::mul::lemma_mul_is_commutative(digit as int, pow2(bits as nat) as int);
            crate::shift::lemma_or_is_add((digit as Word) << (bits as u64), word, bits as nat);
            let x = (digit as Word) << (bits as u64);
            assert(word | x == x | word) by (bit_vector);
            assert(digit * pow2(bits as nat) + word < pow2(bits as nat + log_radix as nat)) by (
            nonlinear_arith)
                requires
                    digit < radix,
                    radix == pow2(log_radix as nat),
                    pow2(bits as nat + log_radix as nat) == pow2(bits as nat) * pow2(log_radix as nat),
                    word < pow2(bits as nat),
            ;
        }
        word |= (digit as Word) << (bits as u64);
        bits += log_radix;
    }
    proof {
        assert(src@.skip(0) =~= src@);
    }
    Ok(word)
}

/// One digit more, from the bottom: the value grows by `digit * radix^k` where `k` digits are
/// below it.
proof fn lemma_pow2_step(s: Seq<u8>, i: nat, radix: Digit, log: nat, bits: nat)
    requires
        i < s.len(),
        pow2(log) == radix,
        bits == (s.len() - i - 1) * log,
    ensures
        s.skip(i as int) == seq![s[i as int]] + s.skip(i as int + 1),
        digits_value(s.skip(i as int), radix as nat) == digit_of(s[i as int]) * pow2(bits)
            + digits_value(s.skip(i as int + 1), radix as nat),
        all_digits(s.skip(i as int), radix) == (is_digit(s[i as int], radix) && all_digits(
            s.skip(i as int + 1),
            radix,
        )),
{
    assert(s.skip(i as int) =~= seq![s[i as int]] + s.skip(i as int + 1));
    lemma_digits_value_append(seq![s[i as int]], s.skip(i as int + 1), radix as nat);
    lemma_digits_value_single(s[i as int], radix as nat);
    lemma_pow_of_pow2(log, (s.len() - i - 1) as nat);
    let k = (s.len() - i - 1) as nat;
    assert(bits == log * k) by (nonlinear_arith)
        requires
            bits == (s.len() - i - 1) * log,
            k == s.len() - i - 1,
    ;
    assert(s.skip(i as int + 1).len() == k);
    lemma_all_digits_append(seq![s[i as int]], s.skip(i as int + 1), radix);
    assert(all_digits(seq![s[i as int]], radix) == is_digit(s[i as int], radix)) by {
        if is_digit(s[i as int], radix) {
            assert forall|j: int| 0 <= j < 1 implies is_digit(#[trigger] seq![s[i as int]][j], radix) by {}
        }
        assert(seq![s[i as int]][0] == s[i as int]);
    }
}

/// `(2^log)^k == 2^(log k)`.
pub proof fn lemma_pow_of_pow2(log: nat, k: nat)
    ensures
        pow(pow2(log) as int, k) == pow2(log * k),
    decreases k,
{
    if k == 0 {
        lemma_pow0(pow2(log) as int);
        lemma2_to64();
        assert(log * k == 0) by (nonlinear_arith)
            requires
                k == 0,
        ;
    } else {
        lemma_pow_of_pow2(log, (k - 1) as nat);
        lemma_pow_adds(pow2(log) as int, (k - 1) as nat, 1);
        assert((k - 1) as nat + 1 == k);
        lemma_pow1(pow2(log) as int);
        lemma_pow2_adds(log * (k - 1) as nat, log);
        assert(log * (k - 1) as nat + log == log * k) by (nonlinear_arith)
            requires
                k >= 1,
        ;
        vstd::arithmetic::mul::lemma_mul_is_commutative(pow2(log * (k - 1) as nat) as int, pow2(log) as int);
    }
}

/// One digit of the bit-packing loop of `from_str_radix_pow2_large`, when the word fills up.
proof fn lemma_pow2_large_fill(
    d: Word,
    word: Word,
    bits: nat,
    log: nat,
    lo: Word,
    hi: Word,
    bufv: nat,
    len: nat,
)
    requires
        0 < bits < 64,
        1 <= log <= 5,
        bits + log >= 64,
        d < pow2(log),
        word < pow2(bits),
        lo == word + (d as nat % pow2((64 - bits) as nat)) * pow2(bits),
        hi == d as nat / pow2((64 - bits) as nat),
    ensures
        hi < pow2((bits + log - 64) as nat),
        bufv + lo * pow_base(len) + hi * pow_base(len + 1) == bufv + word * pow_base(len) + d
            * pow2(64 * len + bits),
{
    let q = pow2((64 - bits) as nat) as int;
    let pb = pow2(bits) as int;
    crate::shift::lemma_pow2_split_base(bits);
    vstd::arithmetic::div_mod::lemma_fundamental_div_mod(d as int, q);
    let dq = d as int / q;
    let dr = d as int % q;
    crate::shift_ops::lemma_pow_base_pow2(len);
    crate::shift_ops::lemma_pow_base_pow2(len + 1);
    lemma_pow2_adds(64 * len, bits);
    lemma_pow2_adds(64 * len, 64);
    lemma2_to64_rest();
    assert(64 * (len + 1) == 64 * len + 64);
    let pl = pow_base(len) as int;
    assert(pow_base(len + 1) == pl * crate::primitive::word_base());
    assert(lo + hi * crate::primitive::word_base() == word + d * pb) by (nonlinear_arith)
        requires
            lo == word + dr * pb,
            hi == dq,
            d == q * dq + dr,
            pb * q == crate::primitive::word_base(),
    ;
    assert(lo * pl + hi * (pl * crate::primitive::word_base()) == word * pl + d * (pl * pb)) by (
    nonlinear_arith)
        requires
            lo + hi * crate::primitive::word_base() == word + d * pb,
    ;
    // hi < 2^(bits + log - 64)
    let e = (bits + log - 64) as nat;
    lemma_pow2_adds(e, (64 - bits) as nat);
    assert(e + (64 - bits) as nat == log);
    vstd::arithmetic::div_mod::lemma_div_pos_is_pos(d as int, q);
    assert(dq < pow2(e)) by (nonlinear_arith)
        requires
            d == q * dq + dr,
            dr >= 0,
            d < pow2(log),
            pow2(log) == pow2(e) * q,
            q > 0,
            dq >= 0,
    ;
}

impl UBig {
    /// Convert a string of digits in a power-of-2 radix, longer than a word.
    pub fn from_str_radix_pow2_large(src: &[u8], radix: Digit) -> (r: Result<UBig, ParseError>)
        requires
            is_pow2_radix(radix),
            src@.len() * spec_log2_radix(radix) > 64,
            fits(pow(radix as int, src@.len()) as nat),
        ensures
            r is Ok <==> all_digits(src@, radix),
            r is Err ==> r == Err::<UBig, ParseError>(ParseError::InvalidDigit),
            r matches Ok(v) ==> v@ == digits_value(src@, radix as nat),
    {
        let log_radix = log2_radix(radix);
        let n = src.len();
        proof {
            lemma_pow_of_pow2(log_radix as nat, n as nat);
            lemma_len_bits_fit(n as nat, log_radix as nat);
        }
        let num_bits = n * (log_radix as usize);
        let num_words = (num_bits - 1) / 64 + 1;
        let mut buffer = Buffer::allocate(num_words);
        let mut word: Word = 0;
        let mut bits: u32 = 0;
        let mut i = n;
        proof {
            assert(src@.skip(n as int) =~= Seq::<u8>::empty());
            lemma2_to64();
            assert(to_nat(buffer@) == 0);
            assert(word * pow_base(0) == 0);
        }
        while i > 0
            invariant
                i <= n,
                n == src@.len(),
                is_pow2_radix(radix),
                log_radix == spec_log2_radix(radix),
                1 <= log_radix <= 5,
                pow2(log_radix as nat) == radix,
                num_bits == n * log_radix,
                num_words == (num_bits - 1) / 64 + 1,
                num_words <= MAX_LEN,
                buffer.wf(),
                buffer.cap() >= num_words,
                bits < 64,
                64 * buffer@.len() + bits == (n - i) * log_radix,
                all_digits(src@.skip(i as int), radix),
                to_nat(buffer@) + word * pow_base(buffer@.len()) == digits_value(src@.skip(i as int), radix as nat),
                word < pow2(bits as nat),
            decreases i,
        {
            i -= 1;
            let digit = match digit_from_utf8_byte(src[i], radix) {
                Some(d) => d,
                None => {
                    proof {
                        assert(!all_digits(src@, radix)) by {
                            assert(src@[i as int] == src@.skip(i as int)[0]);
                        }
                    }
                    return Err(ParseError::InvalidDigit);
                },
            };
            let ghost total_bits = (64 * buffer@.len() + bits) as nat;
            proof {
                assert((n - i) * log_radix == (n - (i + 1)) * log_radix + log_radix) by (nonlinear_arith);
                lemma_pow2_step(src@, i as nat, radix, log_radix as nat, total_bits);
            }
            let d = digit as Word;
            let shifted = d << (bits as u64);
            proof {
                if bits > 0 {
                    lemma_shl_truncates(d, bits as u64);
                } else {
                    lemma2_to64();
                    assert(d * pow2(0) == d) by (nonlinear_arith)
                        requires
                            pow2(0) == 1,
                    ;
                    vstd::bits::lemma_u64_shl_is_mul(d, 0);
                    assert(pow2(64) == crate::primitive::word_base()) by {
                        lemma2_to64_rest();
                    }
                    vstd::arithmetic::div_mod::lemma_small_mod(d as nat, pow2(64));
                }
                lemma_pow2_pos(bits as nat);
                lemma_pow2_pos((64 - bits) as nat);
                let dm = (d as nat % pow2((64 - bits) as nat)) as int;
                assert(shifted as int == dm * pow2(bits as nat));
                vstd::arithmetic::div_mod::lemma_mod_multiples_basic(dm, pow2(bits as nat) as int);
                crate::shift::lemma_or_is_add(shifted, word, bits as nat);
                assert(word | shifted == shifted | word) by (bit_vector);
            }
            let ghost w_prev = word;
            word |= shifted;
            let new_bits = bits + log_radix;
            if new_bits >= 64 {
                let ghost b0 = buffer@;
                proof {
                    assert(64 * (b0.len() + 1) <= num_bits) by (nonlinear_arith)
                        requires
                            64 * b0.len() + bits + log_radix == (n - i) * log_radix,
                            bits + log_radix >= 64,
                            num_bits == n * log_radix,
                            i >= 0,
                    ;
                }
                buffer.push(word);
                let hi = d >> ((64 - bits) as u64);
                proof {
                    vstd::bits::lemma_u64_shr_is_div(d, (64 - bits) as u64);
                    lemma_pow2_large_fill(
                        d,
                        w_prev,
                        bits as nat,
                        log_radix as nat,
                        word,
                        hi,
                        to_nat(b0),
                        b0.len(),
                    );
                    lemma_to_nat_push(b0, word);
                }
                word = hi;
                bits = new_bits - 64;
            } else {
                proof {
                    crate::shift_ops::lemma_pow_base_pow2(buffer@.len());
                    lemma_pow2_adds(64 * buffer@.len(), bits as nat);
                    lemma_pow2_adds(bits as nat, log_radix as nat);
                    let pl = pow_base(buffer@.len()) as int;
                    assert(pl * (d * pow2(bits as nat)) == d * (pl * pow2(bits as nat))) by (nonlinear_arith);
                    vstd::arithmetic::power2::lemma_pow2_strictly_increases(log_radix as nat, (64 - bits) as nat);
                    vstd::arithmetic::div_mod::lemma_small_mod(d as nat, pow2((64 - bits) as nat));
                    assert((w_prev + d * pow2(bits as nat)) * pl == w_prev * pl + d * (pl * pow2(
                        bits as nat,
                    ))) by (nonlinear_arith);
                    assert(d * pow2(bits as nat) + w_prev < pow2(bits as nat + log_radix as nat)) by (
                    nonlinear_arith)
                        requires
                            d < radix,
                            radix == pow2(log_radix as nat),
                            pow2(bits as nat + log_radix as nat) == pow2(bits as nat) * pow2(log_radix as nat),
                            w_prev < pow2(bits as nat),
                    ;
                }
                bits = new_bits;
            }
        }
        if bits > 0 {
            let ghost b0 = buffer@;
            proof {
                assert(64 * (b0.len() + 1) <= num_bits + 63) by (nonlinear_arith)
                    requires
                        64 * b0.len() + bits == n * log_radix,
                        bits > 0,
                        num_bits == n * log_radix,
                ;
            }
            buffer.push(word);
            proof {
                lemma_to_nat_push(b0, word);
            }
        } else {
            proof {
                assert(word == 0);
                assert(word * pow_base(buffer@.len()) == 0) by (nonlinear_arith)
                    requires
                        word == 0,
                ;
            }
        }
        proof {
            assert(src@.skip(0) =~= src@);
            lemma_digits_value_bound(src@, radix);
        }
        Ok(UBig::from_buffer(buffer))
}

}

/// The number of bits of a string that fits is below the limit of a `UBig`.
proof fn lemma_len_bits_fit(n: nat, log: nat)
    requires
        fits(pow2(log * n)),
        log >= 1,
    ensures
        n * log <= 64 * MAX_LEN,
        (n * log - 1) / 64 + 1 <= MAX_LEN || n * log == 0,
{
    crate::shift_ops::lemma_pow_base_pow2(MAX_LEN as nat);
    if log * n >= 64 * MAX_LEN {
        if log * n > 64 * MAX_LEN {
            vstd::arithmetic::power2::lemma_pow2_strictly_increases(64 * MAX_LEN as nat, log * n);
        }
    }
    assert(n * log == log * n) by (nonlinear_arith);
}

/// Powers of a radix that fits are below the full power.
pub proof fn lemma_pow_le(radix: Digit, a: nat, b: nat)
    requires
        radix >= 2,
        a <= b,
    ensures
        pow(radix as int, a) <= pow(radix as int, b),
        pow(radix as int, a) >= 1,
{
    vstd::arithmetic::power::lemma_pow_increases(radix as nat, a, b);
    vstd::arithmetic::power::lemma_pow_positive(radix as int, a);
}

impl UBig {
    /// Convert a string of digits in a non-power-of-2 radix, word group by word group.
    pub fn from_str_radix_non_pow2_chunk(bytes: &[u8], radix: Digit) -> (r: Result<UBig, ParseError>)
        requires
            spec_radix_valid(radix),
            !is_pow2_radix(radix),
            bytes@.len() > 0,
            bytes@.len() <= CHUNK_LEN * 64,
            fits(pow(radix as int, bytes@.len()) as nat),
        ensures
            r is Ok <==> all_digits(bytes@, radix),
            r is Err ==> r == Err::<UBig, ParseError>(ParseError::InvalidDigit),
            r matches Ok(v) ==> v@ == digits_value(bytes@, radix as nat),
    {
        let entry = RadixInWord::for_radix(radix);
        let dpw = entry.max_digits;
        let range = entry.max_digits_range;
        let n = bytes.len();
        let num_groups = (n - 1) / dpw + 1;
        proof {
            vstd::arithmetic::div_mod::lemma_fundamental_div_mod((n - 1) as int, dpw as int);
            vstd::arithmetic::div_mod::lemma_mod_bound((n - 1) as int, dpw as int);
            assert((num_groups - 1) * dpw <= n - 1) by (nonlinear_arith)
                requires
                    n - 1 == dpw * ((n - 1) as int / (dpw as int)) + (n - 1) as int % (dpw as int),
                    0 <= (n - 1) as int % (dpw as int),
                    num_groups == (n - 1) as int / (dpw as int) + 1,
            ;
        }
        let first = n - (num_groups - 1) * dpw;
        proof {
            assert(1 <= first <= dpw) by (nonlinear_arith)
                requires
                    n - 1 == dpw * ((n - 1) as int / (dpw as int)) + (n - 1) as int % (dpw as int),
                    0 <= (n - 1) as int % (dpw as int) < dpw,
                    num_groups == (n - 1) as int / (dpw as int) + 1,
                    first == n - (num_groups - 1) * dpw,
            ;
            lemma_pow_le(radix, first as nat, dpw as nat);
            lemma_pow_le(radix, 0, n as nat);
            vstd::arithmetic::div_mod::lemma_div_is_ordered_by_denominator((n - 1) as int, 1, dpw as int);
            vstd::arithmetic::div_mod::lemma_div_basics_2((n - 1) as int);
            assert(num_groups <= n);
            vstd::arithmetic::div_mod::lemma_mod_multiples_basic((num_groups - 1) as int, dpw as int);
            vstd::arithmetic::div_mod::lemma_div_multiples_vanish((num_groups - 1) as int, dpw as int);
            assert(n - first == (num_groups - 1) * dpw);
            vstd::arithmetic::mul::lemma_mul_is_commutative((num_groups - 1) as int, dpw as int);
        }
        let mut buffer = Buffer::allocate(num_groups);
        let (g0, _rest) = bytes.split_at(first);
        let w0 = match from_str_radix_non_pow2_word(g0, radix) {
            Ok(w) => w,
            Err(e) => {
                proof {
                    assert(!all_digits(bytes@, radix)) by {
                        if all_digits(bytes@, radix) {
                            lemma_all_digits_subrange(bytes@, radix, 0, first as int);
                            assert(g0@ =~= bytes@.subrange(0, first as int));
                        }
                    }
                }
                return Err(e);
            },
        };
        if w0 != 0 {
            buffer.push(w0);
            proof {
                assert(buffer@ =~= seq![w0]);
                crate::value::lemma_to_nat_single(w0);
            }
        }
        let mut end = first;
        proof {
            assert(g0@ =~= bytes@.take(first as int));
        }
        while end < n
            invariant
                first <= end <= n,
                n == bytes@.len(),
                dpw >= 1,
                (n - end) % (dpw as int) == 0,
                radix_in_word_spec(radix, entry),
                !is_pow2_radix(radix),
                spec_radix_valid(radix),
                entry.max_digits == dpw,
                entry.max_digits_range == range,
                num_groups == (n - first) / (dpw as int) + 1,
                buffer.wf(),
                buffer.cap() >= num_groups,
                buffer@.len() <= (end - first) / (dpw as int) + 1,
                all_digits(bytes@.take(end as int), radix),
                to_nat(buffer@) == digits_value(bytes@.take(end as int), radix as nat),
            decreases n - end,
        {
            proof {
                assert(end + dpw <= n) by (nonlinear_arith)
                    requires
                        (n - end) % (dpw as int) == 0,
                        end < n,
                        dpw >= 1,
                {
                    vstd::arithmetic::div_mod::lemma_fundamental_div_mod((n - end) as int, dpw as int);
                }
            }
            let (_lo, rest) = bytes.split_at(end);
            let (group, _hi) = rest.split_at(dpw);
            proof {
                assert(group@ =~= bytes@.subrange(end as int, end + dpw));
            }
            let next = match from_str_radix_non_pow2_word(group, radix) {
                Ok(w) => w,
                Err(e) => {
                    proof {
                        assert(!all_digits(bytes@, radix)) by {
                            if all_digits(bytes@, radix) {
                                lemma_all_digits_subrange(bytes@, radix, end as int, end + dpw);
                            }
                        }
                    }
                    return Err(e);
                },
            };
            let ghost b0 = buffer@;
            let carry = mul_word_in_place_with_carry(buffer.as_mut_slice(), range, next);
            proof {
                assert(bytes@.take(end + dpw) =~= bytes@.take(end as int) + group@);
                lemma_digits_value_append(bytes@.take(end as int), group@, radix as nat);
                lemma_all_digits_append(bytes@.take(end as int), group@, radix);
                assert((n - (end + dpw)) % (dpw as int) == 0) by {
                    vstd::arithmetic::div_mod::lemma_mod_sub_multiples_vanish((n - end) as int, dpw as int);
                }
                assert((end + dpw - first) / (dpw as int) == (end - first) / (dpw as int) + 1) by {
                    vstd::arithmetic::div_mod::lemma_div_plus_one((end - first) as int, dpw as int);
                }
                assert(buffer@.len() < num_groups) by (nonlinear_arith)
                    requires
                        buffer@.len() <= (end - first) / (dpw as int) + 1,
                        num_groups == (n - first) / (dpw as int) + 1,
                        end + dpw <= n,
                        dpw >= 1,
                {
                    vstd::arithmetic::div_mod::lemma_div_is_ordered((end + dpw - first) as int, (n - first) as int, dpw as int);
                }
            }
            if carry != 0 {
                let ghost b1 = buffer@;
                buffer.push(carry);
                proof {
                    lemma_to_nat_push(b1, carry);
                }
            } else {
                proof {
                    assert(carry * pow_base(buffer@.len()) == 0) by (nonlinear_arith)
                        requires
                            carry == 0,
                    ;
                }
            }
            end += dpw;
        }
        proof {
            assert(bytes@.take(n as int) =~= bytes@);
            lemma_digits_value_bound(bytes@, radix);
        }
        Ok(UBig::from_buffer(buffer))
}

}

/// `2^n <= radix^n` for `radix >= 2`.
proof fn lemma_pow2_le_pow(radix: Digit, n: nat)
    requires
        radix >= 2,
    ensures
        pow2(n) <= pow(radix as int, n),
    decreases n,
{
    if n == 0 {
        lemma_pow0(radix as int);
        lemma2_to64();
    } else {
        lemma_pow2_le_pow(radix, (n - 1) as nat);
        lemma_pow_adds(radix as int, (n - 1) as nat, 1);
        lemma_pow1(radix as int);
        vstd::arithmetic::power2::lemma_pow2_unfold(n);
        assert((n - 1) as nat + 1 == n);
        assert(2 * pow2((n - 1) as nat) <= pow(radix as int, (n - 1) as nat) * radix) by (
        nonlinear_arith)
            requires
                pow2((n - 1) as nat) <= pow(radix as int, (n - 1) as nat),
                radix >= 2,
                pow2((n - 1) as nat) >= 0,
        ;
    }
}


/// `s` without its leading `0` digits.
pub open spec fn strip_zeros(s: Seq<u8>) -> Seq<u8>
    decreases s.len(),
{
    if s.len() > 0 && s[0] == 0x30 {
        strip_zeros(s.skip(1))
    } else {
        s
    }
}

/// The value of the digits `s` in `radix` is small enough for a `UBig`.
pub open spec fn digits_fit(s: Seq<u8>, radix: Digit) -> bool {
    fits(pow(radix as int, strip_zeros(s).len()) as nat)
}

/// A power of a number below the word base is at most that power of the word base.
proof fn lemma_pow_below_pow_base(b: nat, e: nat)
    requires
        b < crate::primitive::word_base(),
    ensures
        pow(b as int, e) <= pow_base(e),
        e >= 1 ==> pow(b as int, e) < pow_base(e),
    decreases e,
{
    lemma_pow0(b as int);
    if e > 0 {
        lemma_pow_below_pow_base(b, (e - 1) as nat);
        lemma_pow_adds(b as int, (e - 1) as nat, 1);
        lemma_pow1(b as int);
        assert((e - 1) as nat + 1 == e);
        crate::pow::lemma_pow_nonneg(b as int, (e - 1) as nat);
        crate::value::lemma_pow_base_step((e - 1) as nat);
        crate::value::lemma_pow_base_pos((e - 1) as nat);
        let p = pow(b as int, (e - 1) as nat);
        let q = pow_base((e - 1) as nat) as int;
        assert(p * b < q * crate::primitive::word_base()) by (nonlinear_arith)
            requires
                0 <= p <= q,
                q >= 1,
                0 <= b < crate::primitive::word_base(),
        ;
    }
}

/// Powers of `radix` grow with the exponent, so a shorter string fits when a longer one does.
proof fn lemma_fits_shorter(radix: Digit, a: nat, b: nat)
    requires
        radix >= 2,
        a <= b,
        fits(pow(radix as int, b) as nat),
    ensures
        fits(pow(radix as int, a) as nat),
{
    lemma_pow_le(radix, a, b);
}

impl UBig {
    /// Convert a string of digits in a non-power-of-2 radix by splitting it in halves, from
    /// `radix_powers[i] == radix^(chunk_bytes * 2^i)` and `spans[i] == chunk_bytes * 2^i` for
    /// `i < k`.
    pub fn from_str_radix_non_pow2_divide_conquer(
        bytes: &[u8],
        radix: Digit,
        chunk_bytes: usize,
        radix_powers: &Vec<UBig>,
        spans: &Vec<usize>,
        k: usize,
    ) -> (r: Result<UBig, ParseError>)
        requires
            spec_radix_valid(radix),
            !is_pow2_radix(radix),
            1 <= chunk_bytes <= CHUNK_LEN * 64,
            k <= radix_powers@.len(),
            k <= spans@.len(),
            forall|i: int|
                0 <= i < k ==> (#[trigger] radix_powers@[i])@ == pow(
                    radix as int,
                    (chunk_bytes * pow2(i as nat)) as nat,
                ),
            forall|i: int| 0 <= i < k ==> #[trigger] spans@[i] == chunk_bytes * pow2(i as nat),
            bytes@.len() > 0,
            bytes@.len() <= chunk_bytes * pow2(k as nat),
            fits(pow(radix as int, bytes@.len()) as nat),
        ensures
            r is Ok <==> all_digits(bytes@, radix),
            r is Err ==> r == Err::<UBig, ParseError>(ParseError::InvalidDigit),
            r matches Ok(v) ==> v@ == digits_value(bytes@, radix as nat),
        decreases k,
    {
        if k == 0 {
            proof {
                lemma2_to64();
            }
            return UBig::from_str_radix_non_pow2_chunk(bytes, radix);
        }
        let lo_len = spans[k - 1];
        proof {
            vstd::arithmetic::power2::lemma_pow2_unfold(k as nat);
            assert(chunk_bytes * pow2(k as nat) == 2 * (chunk_bytes * pow2((k - 1) as nat))) by (
            nonlinear_arith)
                requires
                    pow2(k as nat) == 2 * pow2((k - 1) as nat),
            ;
        }
        if bytes.len() <= lo_len {
            return UBig::from_str_radix_non_pow2_divide_conquer(
                bytes,
                radix,
                chunk_bytes,
                radix_powers,
                spans,
                k - 1,
            );
        }
        let (bytes_hi, bytes_lo) = bytes.split_at(bytes.len() - lo_len);
        proof {
            assert(bytes@ =~= bytes_hi@ + bytes_lo@);
            lemma_fits_shorter(radix, bytes_hi@.len(), bytes@.len());
            lemma_fits_shorter(radix, bytes_lo@.len(), bytes@.len());
            lemma_all_digits_append(bytes_hi@, bytes_lo@, radix);
            lemma_digits_value_append(bytes_hi@, bytes_lo@, radix as nat);
        }
        let res_hi = match UBig::from_str_radix_non_pow2_divide_conquer(
            bytes_hi,
            radix,
            chunk_bytes,
            radix_powers,
            spans,
            k - 1,
        ) {
            Ok(v) => v,
            Err(e) => {
                return Err(e);
            },
        };
        let res_lo = match UBig::from_str_radix_non_pow2_divide_conquer(
            bytes_lo,
            radix,
            chunk_bytes,
            radix_powers,
            spans,
            k - 1,
        ) {
            Ok(v) => v,
            Err(e) => {
                return Err(e);
            },
        };
        let radix_power = &radix_powers[k - 1];
        proof {
            lemma_digits_value_bound(bytes@, radix);
            let h = digits_value(bytes_hi@, radix as nat) as int;
            let l = digits_value(bytes_lo@, radix as nat) as int;
            let pw = pow(radix as int, bytes_lo@.len()) as int;
            vstd::arithmetic::power::lemma_pow_positive(radix as int, bytes_lo@.len());
            assert(radix_power@ == pw);
            assert(h * pw <= h * pw + l) by (nonlinear_arith)
                requires
                    l >= 0,
            ;
        }
        let high = res_hi.mul(radix_power);
        Ok(high.add(&res_lo))
    }

    /// Convert a string of digits in a non-power-of-2 radix, too long for a single chunk.
    pub fn from_str_radix_non_pow2_large(bytes: &[u8], radix: Digit) -> (r: Result<UBig, ParseError>)
        requires
            spec_radix_valid(radix),
            !is_pow2_radix(radix),
            bytes@.len() > 0,
            fits(pow(radix as int, bytes@.len()) as nat),
        ensures
            r is Ok <==> all_digits(bytes@, radix),
            r is Err ==> r == Err::<UBig, ParseError>(ParseError::InvalidDigit),
            r matches Ok(v) ==> v@ == digits_value(bytes@, radix as nat),
    {
        let entry = RadixInWord::for_radix(radix);
        let chunk_bytes = CHUNK_LEN * entry.max_digits;
        let n = bytes.len();
        let base = UBig::from_word(entry.max_digits_range);
        proof {
            vstd::arithmetic::power::lemma_pow_multiplies(
                radix as int,
                entry.max_digits as nat,
                CHUNK_LEN as nat,
            );
            lemma_pow_below_pow_base(entry.max_digits_range as nat, CHUNK_LEN as nat);
            crate::value::lemma_pow_base_mono(CHUNK_LEN as nat, MAX_LEN as nat);
            lemma2_to64();
            assert(base@ == entry.max_digits_range);
            assert(pow(entry.max_digits_range as int, CHUNK_LEN as nat) < pow_base(MAX_LEN as nat));
            assert(chunk_bytes * pow2(0) == chunk_bytes);
            crate::pow::lemma_pow_nonneg(entry.max_digits_range as int, CHUNK_LEN as nat);
        }
        let first = base.pow(CHUNK_LEN);
        let mut radix_powers: Vec<UBig> = Vec::new();
        radix_powers.push(first);
        let mut spans: Vec<usize> = Vec::new();
        spans.push(chunk_bytes);
        let mut span = chunk_bytes;
        while span <= (n - 1) / 2
            invariant
                spec_radix_valid(radix),
                !is_pow2_radix(radix),
                n == bytes@.len(),
                n > 0,
                fits(pow(radix as int, n as nat) as nat),
                1 <= chunk_bytes <= CHUNK_LEN * 64,
                radix_powers@.len() == spans@.len(),
                radix_powers@.len() >= 1,
                span >= 1,
                span == chunk_bytes * pow2((spans@.len() - 1) as nat),
                forall|i: int|
                    0 <= i < radix_powers@.len() ==> (#[trigger] radix_powers@[i])@ == pow(
                        radix as int,
                        (chunk_bytes * pow2(i as nat)) as nat,
                    ),
                forall|i: int|
                    0 <= i < spans@.len() ==> #[trigger] spans@[i] == chunk_bytes * pow2(i as nat),
            decreases n - span,
        {
            let last = radix_powers.len() - 1;
            let ghost j = last as nat;
            proof {
                vstd::arithmetic::power2::lemma_pow2_unfold(j + 1);
                assert(chunk_bytes * pow2(j + 1) == 2 * span) by (nonlinear_arith)
                    requires
                        pow2(j + 1) == 2 * pow2(j),
                        span == chunk_bytes * pow2(j),
                ;
                lemma_pow_adds(radix as int, span as nat, span as nat);
                lemma_fits_shorter(radix, (2 * span) as nat, n as nat);
            }
            let next = radix_powers[last].mul(&radix_powers[last]);
            radix_powers.push(next);
            span = span * 2;
            spans.push(span);
            proof {
                assert(j + 1 == (spans@.len() - 1) as nat);
            }
        }
        let k = radix_powers.len();
        proof {
            let j = (k - 1) as nat;
            vstd::arithmetic::power2::lemma_pow2_unfold(k as nat);
            assert(chunk_bytes * pow2(k as nat) == 2 * span) by (nonlinear_arith)
                requires
                    pow2(k as nat) == 2 * pow2(j),
                    span == chunk_bytes * pow2(j),
            ;
        }
        UBig::from_str_radix_non_pow2_divide_conquer(bytes, radix, chunk_bytes, &radix_powers, &spans, k)
    }
}

/// `s` starts with a minus sign.
pub open spec fn has_minus(s: Seq<u8>) -> bool {
    s.len() > 0 && s[0] == 0x2d
}

/// `s` without its sign: one leading `-`, or else one leading `+`.
pub open spec fn strip_sign(s: Seq<u8>) -> Seq<u8> {
    if has_minus(s) {
        s.skip(1)
    } else {
        strip_plus(s)
    }
}

/// Removing one leading zero keeps what `strip_zeros` gives, the value and the validity.
proof fn lemma_strip_zeros_step(s: Seq<u8>, start: int, radix: Digit)
    requires
        0 <= start < s.len(),
        s[start] == 0x30,
        radix >= 2,
    ensures
        strip_zeros(s.skip(start + 1)) == strip_zeros(s.skip(start)),
        digits_value(s.skip(start + 1), radix as nat) == digits_value(s.skip(start), radix as nat),
        all_digits(s.skip(start + 1), radix) == all_digits(s.skip(start), radix),
{
    let t = s.skip(start);
    assert(t.skip(1) =~= s.skip(start + 1));
    assert(t[0] == 0x30);
    lemma_leading_zero(t, radix);
}

/// `s` without leading `+`, as a slice.
fn strip_plus_bytes(s: &[u8]) -> (r: &[u8])
    ensures
        r@ == strip_plus(s@),
{
    if s.len() > 0 && s[0] == 0x2b {
        let (_plus, rest) = s.split_at(1);
        proof {
            assert(rest@ =~= s@.skip(1));
        }
        rest
    } else {
        s
    }
}

impl UBig {
    /// Convert a string of digits in a power-of-2 radix.
    pub fn from_str_radix_pow2(src: &[u8], radix: Digit) -> (r: Result<UBig, ParseError>)
        requires
            is_pow2_radix(radix),
            fits(pow(radix as int, src@.len()) as nat),
        ensures
            r is Ok <==> all_digits(src@, radix),
            r is Err ==> r == Err::<UBig, ParseError>(ParseError::InvalidDigit),
            r matches Ok(v) ==> v@ == digits_value(src@, radix as nat),
    {
        let log_radix = log2_radix(radix);
        let digits_per_word = 64 / (log_radix as usize);
        if src.len() <= digits_per_word {
            proof {
                assert(src@.len() * log_radix <= 64) by (nonlinear_arith)
                    requires
                        src@.len() <= digits_per_word,
                        digits_per_word == 64int / (log_radix as int),
                        1 <= log_radix <= 5,
                ;
            }
            match from_str_radix_pow2_word(src, radix) {
                Ok(word) => Ok(UBig::from_word(word)),
                Err(e) => Err(e),
            }
        } else {
            proof {
                assert(src@.len() * log_radix > 64) by (nonlinear_arith)
                    requires
                        src@.len() > digits_per_word,
                        digits_per_word == 64int / (log_radix as int),
                        1 <= log_radix <= 5,
                ;
            }
            UBig::from_str_radix_pow2_large(src, radix)
        }
    }

    /// Convert a string of digits in a non-power-of-2 radix.
    pub fn from_str_radix_non_pow2(bytes: &[u8], radix: Digit) -> (r: Result<UBig, ParseError>)
        requires
            spec_radix_valid(radix),
            !is_pow2_radix(radix),
            fits(pow(radix as int, bytes@.len()) as nat),
        ensures
            r is Ok <==> all_digits(bytes@, radix),
            r is Err ==> r == Err::<UBig, ParseError>(ParseError::InvalidDigit),
            r matches Ok(v) ==> v@ == digits_value(bytes@, radix as nat),
    {
        let entry = RadixInWord::for_radix(radix);
        let digits_per_word = entry.max_digits;
        if bytes.len() <= digits_per_word {
            proof {
                lemma_pow_le(radix, bytes@.len(), digits_per_word as nat);
            }
            match from_str_radix_non_pow2_word(bytes, radix) {
                Ok(word) => Ok(UBig::from_word(word)),
                Err(e) => Err(e),
            }
        } else if bytes.len() <= CHUNK_LEN * digits_per_word {
            UBig::from_str_radix_non_pow2_chunk(bytes, radix)
        } else {
            UBig::from_str_radix_non_pow2_large(bytes, radix)
        }
    }

    /// Convert a string of digits, without sign or prefix, in `radix`.
    pub fn from_str_radix_no_sign(src: &[u8], radix: Digit) -> (r: Result<UBig, ParseError>)
        requires
            spec_radix_valid(radix),
            digits_fit(src@, radix),
        ensures
            parsed_ubig(r) == parse_digits(src@, radix),
    {
        if src.len() == 0 {
            return Err(ParseError::NoDigits);
        }
        let n = src.len();
        let mut start: usize = 0;
        proof {
            assert(src@.skip(0) =~= src@);
        }
        while start < n && src[start] == 0x30
            invariant
                start <= n,
                n == src@.len(),
                spec_radix_valid(radix),
                strip_zeros(src@.skip(start as int)) == strip_zeros(src@),
                digits_value(src@.skip(start as int), radix as nat) == digits_value(src@, radix as nat),
                all_digits(src@.skip(start as int), radix) == all_digits(src@, radix),
            decreases n - start,
        {
            proof {
                lemma_strip_zeros_step(src@, start as int, radix);
            }
            start += 1;
        }
        let (_zeros, rest) = src.split_at(start);
        proof {
            assert(rest@ =~= src@.skip(start as int));
            if start == n {
                assert(rest@ =~= Seq::<u8>::empty());
            }
            assert(strip_zeros(rest@) == rest@);
        }
        let parsed = if is_power_of_two_radix(radix) {
            UBig::from_str_radix_pow2(rest, radix)
        } else {
            UBig::from_str_radix_non_pow2(rest, radix)
        };
        parsed
    }

    /// Convert a string in a given radix to `UBig`.
    ///
    /// `src` may start with one `+`. Digits 10-35 are `a-z` or `A-Z`.
    pub fn from_str_radix(src: &str, radix: u32) -> (r: Result<UBig, ParseError>)
        requires
            spec_radix_valid(radix),
            digits_fit(strip_plus(src.spec_bytes()), radix),
        ensures
            parsed_ubig(r) == parse_digits(strip_plus(src.spec_bytes()), radix),
    {
        let digits = strip_plus_bytes(src.as_bytes());
        UBig::from_str_radix_no_sign(digits, radix)
    }

    /// Convert a string of digits with an optional radix prefix (`0b`, `0o`, `0x`).
    pub fn from_str_with_radix_prefix_no_sign(src: &[u8]) -> (r: Result<UBig, ParseError>)
        requires
            digits_fit(strip_prefix_radix(src@), prefix_radix(src@)),
        ensures
            parsed_ubig(r) == parse_digits(strip_prefix_radix(src@), prefix_radix(src@)),
    {
        if src.len() >= 2 && src[0] == 0x30 && (src[1] == 0x62 || src[1] == 0x6f || src[1] == 0x78) {
            let radix: Digit = if src[1] == 0x62 {
                2
            } else if src[1] == 0x6f {
                8
            } else {
                16
            };
            let (_prefix, digits) = src.split_at(2);
            proof {
                assert(digits@ =~= src@.skip(2));
            }
            UBig::from_str_radix_no_sign(digits, radix)
        } else {
            UBig::from_str_radix_no_sign(src, 10)
        }
    }

    /// Convert a string with an optional radix prefix (`0b`, `0o`, `0x`) to `UBig`.
    ///
    /// `src` may start with one `+`.
    pub fn from_str_with_radix_prefix(src: &str) -> (r: Result<UBig, ParseError>)
        requires
            digits_fit(
                strip_prefix_radix(strip_plus(src.spec_bytes())),
                prefix_radix(strip_plus(src.spec_bytes())),
            ),
        ensures
            parsed_ubig(r) == parse_digits(
                strip_prefix_radix(strip_plus(src.spec_bytes())),
                prefix_radix(strip_plus(src.spec_bytes())),
            ),
    {
        let digits = strip_plus_bytes(src.as_bytes());
        UBig::from_str_with_radix_prefix_no_sign(digits)
    }
}

/// The sign and the rest of a signed string.
fn split_sign(s: &[u8]) -> (r: (Sign, &[u8]))
    ensures
        (r.0 == Sign::Negative) == has_minus(s@),
        r.1@ == strip_sign(s@),
{
    if s.len() > 0 && s[0] == 0x2d {
        let (_minus, rest) = s.split_at(1);
        proof {
            assert(rest@ =~= s@.skip(1));
        }
        (Sign::Negative, rest)
    } else {
        (Sign::Positive, strip_plus_bytes(s))
    }
}

impl IBig {
    /// Convert a string in a given radix to `IBig`.
    ///
    /// `src` may start with one `+` or `-`. Digits 10-35 are `a-z` or `A-Z`.
    pub fn from_str_radix(src: &str, radix: u32) -> (r: Result<IBig, ParseError>)
        requires
            spec_radix_valid(radix),
            digits_fit(strip_sign(src.spec_bytes()), radix),
        ensures
            parsed_ibig(r) == signed_parse(
                has_minus(src.spec_bytes()),
                parse_digits(strip_sign(src.spec_bytes()), radix),
            ),
    {
        let (sign, digits) = split_sign(src.as_bytes());
        match UBig::from_str_radix_no_sign(digits, radix) {
            Ok(mag) => Ok(IBig::from_sign_magnitude(sign, mag)),
            Err(e) => Err(e),
        }
    }

    /// Convert a string with an optional radix prefix (`0b`, `0o`, `0x`) to `IBig`.
    ///
    /// `src` may start with one `+` or `-`, before the prefix.
    pub fn from_str_with_radix_prefix(src: &str) -> (r: Result<IBig, ParseError>)
        requires
            digits_fit(
                strip_prefix_radix(strip_sign(src.spec_bytes())),
                prefix_radix(strip_sign(src.spec_bytes())),
            ),
        ensures
            parsed_ibig(r) == signed_parse(
                has_minus(src.spec_bytes()),
                parse_digits(
                    strip_prefix_radix(strip_sign(src.spec_bytes())),
                    prefix_radix(strip_sign(src.spec_bytes())),
                ),
            ),
    {
        let (sign, digits) = split_sign(src.as_bytes());
        match UBig::from_str_with_radix_prefix_no_sign(digits) {
            Ok(mag) => Ok(IBig::from_sign_magnitude(sign, mag)),
            Err(e) => Err(e),
        }
    }
}

} // verus!
