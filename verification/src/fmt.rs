//! Printing numbers in a radix.

use crate::math::{lemma_bit_len_bounds, lemma_leading_zeros_bit_len, spec_bit_len};
use crate::primitive::{word_base, Word, WORD_BITS};
use crate::radix::{
    digit_to_ascii_byte, is_pow2_radix, log2_radix, spec_digit_byte, spec_log2_radix,
    spec_radix_valid, Digit, DigitCase,
};
use crate::sign::Sign;
use crate::ubig::UBig;
use crate::value::{pow_base, to_nat};
use vstd::arithmetic::div_mod::{lemma_div_denominator, lemma_fundamental_div_mod, lemma_mod_bound};
use vstd::arithmetic::power::{lemma_pow0, lemma_pow1, lemma_pow_adds, pow};
use vstd::arithmetic::power2::{lemma2_to64, lemma2_to64_rest, lemma_pow2_adds, lemma_pow2_pos, pow2};
use vstd::prelude::*;
use vstd::string::StringSliceAdditionalSpecFns;

verus! {

/// The last `n` digits of `x` in `radix`, most significant first.
pub open spec fn radix_digits(x: nat, radix: nat, n: nat) -> Seq<nat>
    decreases n,
{
    if n == 0 {
        Seq::empty()
    } else {
        radix_digits(x / radix, radix, (n - 1) as nat).push(x % radix)
    }
}

/// The number of digits of `x` in `radix`: one for zero.
pub open spec fn num_digits(x: nat, radix: nat) -> nat
    decreases x,
{
    if radix >= 2 && x >= radix {
        proof {
            vstd::arithmetic::div_mod::lemma_div_decreases(x as int, radix as int);
        }
        1 + num_digits(x / radix, radix)
    } else {
        1
    }
}

/// The text of `x` in `radix`: its digits as ASCII bytes, with no leading zero.
pub open spec fn radix_text(x: nat, radix: Digit, digit_case: DigitCase) -> Seq<u8> {
    radix_digits(x, radix as nat, num_digits(x, radix as nat)).map_values(
        |d: nat| spec_digit_byte(d as Digit, digit_case),
    )
}

/// Digit `j` of the last `n` digits, counted from the most significant.
pub proof fn lemma_radix_digit(x: nat, radix: nat, n: nat, j: int)
    requires
        radix >= 2,
        0 <= j < n,
    ensures
        radix_digits(x, radix, n).len() == n,
        radix_digits(x, radix, n)[j] == (x / (pow(radix as int, (n - 1 - j) as nat) as nat)) % radix,
    decreases n,
{
    lemma_radix_digits_len(x, radix, n);
    let prev = radix_digits(x / radix, radix, (n - 1) as nat);
    assert(radix_digits(x, radix, n) == prev.push(x % radix));
    if j == n - 1 {
        lemma_pow0(radix as int);
        vstd::arithmetic::div_mod::lemma_div_basics(x as int);
        lemma_radix_digits_len(x / radix, radix, (n - 1) as nat);
    } else {
        lemma_radix_digit(x / radix, radix, (n - 1) as nat, j);
        let k = (n - 2 - j) as nat;
        lemma_pow_adds(radix as int, 1, k);
        lemma_pow1(radix as int);
        assert(1 + k == (n - 1 - j) as nat);
        vstd::arithmetic::power::lemma_pow_positive(radix as int, k);
        lemma_div_denominator(x as int, radix as int, pow(radix as int, k));
        assert(prev[j] == ((x / radix) / (pow(radix as int, k) as nat)) % radix);
        assert(pow(radix as int, (n - 1 - j) as nat) == radix * pow(radix as int, k));
    }
}

/// There are `n` of the last `n` digits.
pub proof fn lemma_radix_digits_len(x: nat, radix: nat, n: nat)
    requires
        radix >= 1,
    ensures
        radix_digits(x, radix, n).len() == n,
    decreases n,
{
    if n > 0 {
        lemma_radix_digits_len(x / radix, radix, (n - 1) as nat);
        assert(radix_digits(x, radix, n) == radix_digits(x / radix, radix, (n - 1) as nat).push(
            x % radix,
        ));
    }
}

/// A number below `radix^n`, and at least `radix^(n-1)` if `n > 1`, has `n` digits.
pub proof fn lemma_num_digits(x: nat, radix: nat, n: nat)
    requires
        radix >= 2,
        n >= 1,
        x < pow(radix as int, n),
        n == 1 || x >= pow(radix as int, (n - 1) as nat),
    ensures
        num_digits(x, radix) == n,
    decreases n,
{
    lemma_pow1(radix as int);
    if n == 1 {
    } else {
        vstd::arithmetic::power::lemma_pow_increases(radix, 1, (n - 1) as nat);
        lemma_pow_adds(radix as int, 1, (n - 1) as nat);
        assert(1 + (n - 1) as nat == n);
        vstd::arithmetic::power::lemma_pow_positive(radix as int, (n - 1) as nat);
        let p = pow(radix as int, (n - 1) as nat);
        lemma_fundamental_div_mod(x as int, radix as int);
        lemma_mod_bound(x as int, radix as int);
        let q = x as int / radix as int;
        assert(q < p) by (nonlinear_arith)
            requires
                x == radix * q + (x as int) % (radix as int),
                (x as int) % (radix as int) >= 0,
                x < radix * p,
                radix >= 2,
        ;
        if n >= 3 {
            lemma_pow_adds(radix as int, 1, (n - 2) as nat);
            assert(1 + (n - 2) as nat == (n - 1) as nat);
            let p2 = pow(radix as int, (n - 2) as nat);
            assert(q >= p2) by (nonlinear_arith)
                requires
                    x == radix * q + (x as int) % (radix as int),
                    (x as int) % (radix as int) < radix,
                    x >= radix * p2,
                    radix >= 2,
            ;
        }
        lemma_num_digits(q as nat, radix, (n - 1) as nat);
    }
}

/// The number of digits of `x` in radix `2^log` is the number of its bits divided by `log`,
/// rounded up, and at least one.
proof fn lemma_num_digits_pow2(x: nat, log: nat, width: nat)
    requires
        1 <= log <= 5,
        width == if (spec_bit_len(x) + log - 1) / (log as int) >= 1 {
            (spec_bit_len(x) + log - 1) / (log as int)
        } else {
            1
        },
    ensures
        num_digits(x, pow2(log)) == width,
{
    let bl = spec_bit_len(x);
    lemma_bit_len_bounds(x);
    lemma_fundamental_div_mod((bl + log - 1) as int, log as int);
    lemma_mod_bound((bl + log - 1) as int, log as int);
    let c = (bl + log - 1) / (log as int);
    crate::parse::lemma_pow_of_pow2(log, width);
    lemma2_to64();
    vstd::arithmetic::power2::lemma_pow2_strictly_increases(0, log);
    // x < 2^bl <= 2^(log width)
    assert(bl <= log * width) by (nonlinear_arith)
        requires
            bl + log - 1 == log * c + (bl + log - 1) % (log as int),
            (bl + log - 1) % (log as int) < log,
            width >= c,
    ;
    if bl < log * width {
        vstd::arithmetic::power2::lemma_pow2_strictly_increases(bl, log * width);
    }
    if width >= 2 {
        crate::parse::lemma_pow_of_pow2(log, (width - 1) as nat);
        assert(log * ((width - 1) as nat) <= bl - 1) by (nonlinear_arith)
            requires
                bl + log - 1 == log * c + (bl + log - 1) % (log as int),
                (bl + log - 1) % (log as int) >= 0,
                width == c,
                width >= 2,
        ;
        let lw = log * ((width - 1) as nat);
        let b1 = (bl - 1) as nat;
        if lw < b1 {
            vstd::arithmetic::power2::lemma_pow2_strictly_increases(lw, b1);
        }
    }
    lemma_num_digits(x, pow2(log), width);
}

/// A digit of `word` in radix `2^log`, by shifting and masking.
proof fn lemma_word_digit(word: Word, log: nat, idx: nat)
    requires
        1 <= log <= 5,
        idx * log < 64,
    ensures
        (((word >> ((idx * log) as u64)) & ((pow2(log) - 1) as u64)) as nat) == (word as nat / (pow(
            pow2(log) as int,
            idx,
        ) as nat)) % pow2(log),
{
    let s = (idx * log) as u64;
    vstd::bits::lemma_u64_shr_is_div(word, s);
    let y = word >> s;
    vstd::bits::lemma_u64_low_bits_mask_is_mod(y, log);
    vstd::bits::lemma_u64_pow2_no_overflow(log);
    assert((pow2(log) - 1) as u64 == vstd::bits::low_bits_mask(log) as u64);
    crate::parse::lemma_pow_of_pow2(log, idx);
    assert(log * idx == idx * log) by (nonlinear_arith);
}

/// A word prepared for printing in a power-of-2 radix.
struct PreparedWordInPow2 {
    word: Word,
    log_radix: u32,
    width: usize,
}

impl PreparedWordInPow2 {
    /// Prepare a word for printing in a power-of-2 radix.
    fn new(word: Word, radix: Digit) -> (r: PreparedWordInPow2)
        requires
            is_pow2_radix(radix),
        ensures
            r.word == word,
            r.log_radix == spec_log2_radix(radix),
            pow2(r.log_radix as nat) == radix,
            r.width == num_digits(word as nat, radix as nat),
            1 <= r.width <= 64,
            (r.width - 1) * r.log_radix < 64,
    {
        let log_radix = log2_radix(radix);
        proof {
            lemma_leading_zeros_bit_len(word);
        }
        let digits = (WORD_BITS - word.leading_zeros() + log_radix - 1) / log_radix;
        let width = if digits >= 1 {
            digits as usize
        } else {
            1
        };
        proof {
            lemma_num_digits_pow2(word as nat, log_radix as nat, width as nat);
            let bl = spec_bit_len(word as nat);
            lemma_fundamental_div_mod((bl + log_radix - 1) as int, log_radix as int);
            lemma_mod_bound((bl + log_radix - 1) as int, log_radix as int);
            if digits >= 1 {
                assert((width - 1) * log_radix < 64) by (nonlinear_arith)
                    requires
                        bl + log_radix - 1 == log_radix * digits + (bl + log_radix - 1) % (
                        log_radix as int),
                        (bl + log_radix - 1) % (log_radix as int) >= 0,
                        width == digits,
                        bl <= 64,
                        log_radix >= 1,
                ;
                assert(width <= 64) by (nonlinear_arith)
                    requires
                        (width - 1) * log_radix < 64,
                        log_radix >= 1,
                ;
            }
        }
        PreparedWordInPow2 { word, log_radix, width }
    }

    /// The number of digits.
    fn width(&self) -> (r: usize)
        ensures
            r == self.width,
    {
        self.width
    }

    /// Append the digits to `out`.
    fn write(&self, out: &mut Vec<u8>, digit_case: DigitCase)
        requires
            1 <= self.log_radix <= 5,
            self.width == num_digits(self.word as nat, pow2(self.log_radix as nat)),
            1 <= self.width <= 64,
            (self.width - 1) * self.log_radix < 64,
        ensures
            final(out)@ == old(out)@ + radix_text(
                self.word as nat,
                pow2(self.log_radix as nat) as Digit,
                digit_case,
            ),
    {
        let ghost radix = pow2(self.log_radix as nat);
        let ghost text = radix_text(self.word as nat, radix as Digit, digit_case);
        let ghost digits = radix_digits(self.word as nat, radix, self.width as nat);
        let ghost start = out@;
        proof {
            vstd::bits::lemma_u32_pow2_no_overflow(self.log_radix as nat);
            vstd::bits::lemma_u32_shl_is_mul(1, self.log_radix);
            lemma2_to64();
            if self.log_radix < 5 {
                vstd::arithmetic::power2::lemma_pow2_strictly_increases(self.log_radix as nat, 5);
            }
            vstd::arithmetic::power2::lemma_pow2_strictly_increases(0, self.log_radix as nat);
            lemma_radix_digits_len(self.word as nat, radix, self.width as nat);
            assert(radix as Digit as nat == radix);
        }
        let mask: Digit = (1 << self.log_radix) - 1;
        let mut idx: usize = self.width;
        while idx > 0
            invariant
                idx <= self.width,
                1 <= self.width <= 64,
                (self.width - 1) * self.log_radix < 64,
                1 <= self.log_radix <= 5,
                radix == pow2(self.log_radix as nat),
                2 <= radix <= 32,
                mask == radix - 1,
                self.width == num_digits(self.word as nat, radix),
                digits == radix_digits(self.word as nat, radix, self.width as nat),
                digits.len() == self.width,
                text == digits.map_values(|d: nat| spec_digit_byte(d as Digit, digit_case)),
                out@ == start + text.take(self.width - idx),
            decreases idx,
        {
            idx -= 1;
            proof {
                assert(idx * self.log_radix < 64) by (nonlinear_arith)
                    requires
                        idx < self.width,
                        (self.width - 1) * self.log_radix < 64,
                        self.log_radix >= 1,
                ;
                lemma_word_digit(self.word, self.log_radix as nat, idx as nat);
                lemma_radix_digit(
                    self.word as nat,
                    radix,
                    self.width as nat,
                    (self.width - 1 - idx) as int,
                );
            }
            let digit = ((self.word >> ((idx as u32) * self.log_radix)) & (mask as Word)) as Digit;
            out.push(digit_to_ascii_byte(digit, digit_case));
            proof {
                assert(text.take(self.width - idx) =~= text.take(self.width - idx - 1).push(
                    text[self.width - idx - 1],
                ));
            }
        }
        proof {
            assert(text.take(self.width as int) =~= text);
        }
    }
}

/// The bit length of a normalized sequence of words.
proof fn lemma_words_bit_len(s: Seq<Word>)
    requires
        s.len() >= 1,
        s.last() != 0,
    ensures
        spec_bit_len(to_nat(s)) == 64 * (s.len() - 1) + spec_bit_len(s.last() as nat),
{
    let k = (s.len() - 1) as nat;
    let top = s.last() as nat;
    let bl = spec_bit_len(top);
    lemma_bit_len_bounds(top);
    crate::value::lemma_to_nat_bound(s.drop_last());
    crate::shift_ops::lemma_pow_base_pow2(k);
    let pk = pow_base(k) as int;
    let lo = to_nat(s.drop_last()) as int;
    assert(to_nat(s) == lo + top * pk);
    lemma_pow2_adds(64 * k, bl);
    lemma_pow2_adds(64 * k, (bl - 1) as nat);
    assert(to_nat(s) < pow2(bl) * pk) by (nonlinear_arith)
        requires
            to_nat(s) == lo + top * pk,
            0 <= lo < pk,
            top < pow2(bl),
    ;
    assert(to_nat(s) >= pow2((bl - 1) as nat) * pk) by (nonlinear_arith)
        requires
            to_nat(s) == lo + top * pk,
            lo >= 0,
            top >= pow2((bl - 1) as nat),
            pk >= 0,
    ;
    assert((64 * k + bl - 1) as nat == 64 * k + (bl - 1) as nat);
    crate::math::lemma_bit_len_unique(to_nat(s), 64 * k + bl);
}

/// A digit that lies within one word: bits `t..t + log` of word `idx`.
proof fn lemma_digit_in_word(s: Seq<Word>, idx: nat, t: nat, log: nat)
    requires
        idx < s.len(),
        t < 64,
        1 <= log <= 5,
        t + log <= 64 || idx == s.len() - 1,
    ensures
        (to_nat(s) / pow2(64 * idx + t)) % pow2(log) == (s[idx as int] as nat / pow2(t)) % pow2(
            log,
        ),
{
    let x = to_nat(s) as int;
    let w = s[idx as int];
    let h = to_nat(s.skip(idx as int + 1));
    crate::value::lemma_to_nat_split(s, idx as int);
    crate::value::lemma_to_nat_bound(s.take(idx as int));
    crate::value::lemma_to_nat_skip_next(s, idx as int);
    crate::value::lemma_pow_base_pos(idx);
    crate::shift_ops::lemma_pow_base_pow2(idx);
    let pw = pow_base(idx) as int;
    let top = to_nat(s.skip(idx as int)) as int;
    let lo = to_nat(s.take(idx as int)) as int;
    vstd::arithmetic::div_mod::lemma_div_multiples_vanish_fancy(top, lo, pw);
    assert(pw * top + lo == lo + pw * top);
    assert(x / pw == top);
    lemma_pow2_pos(t);
    lemma_pow2_adds(64 * idx, t);
    lemma_div_denominator(x, pw, pow2(t) as int);
    crate::bits::lemma_div_word_plus_high(w, h, t);
    lemma_pow2_pos(log);
    let q = pow2((64 - t) as nat) as int;
    if t + log <= 64 {
        lemma_pow2_adds(log, (64 - t - log) as nat);
        assert(log + (64 - t - log) as nat == (64 - t) as nat);
        let r = pow2((64 - t - log) as nat) as int;
        assert(q * h == pow2(log) * (r * h)) by (nonlinear_arith)
            requires
                q == pow2(log) * r,
        ;
        vstd::arithmetic::div_mod::lemma_mod_multiples_vanish(r * h, (w as nat / pow2(t)) as int, pow2(log) as int);
    } else {
        assert(s.skip(idx as int + 1) =~= Seq::<Word>::empty());
        assert(h == 0);
    }
}

/// A digit that straddles two words: the low `bits` bits of word `idx` above the top
/// `log - bits` bits of word `idx - 1`.
proof fn lemma_digit_across_words(s: Seq<Word>, idx: nat, bits: nat, log: nat)
    requires
        1 <= idx < s.len(),
        bits < log,
        1 <= log <= 5,
    ensures
        (to_nat(s) / pow2((64 * (idx - 1) + 64 - (log - bits)) as nat)) % pow2(log) == ((s[idx as int]
            * pow2((log - bits) as nat) + s[idx - 1] as nat / pow2((64 - (log - bits)) as nat)) as nat) % pow2(
            log,
        ),
{
    let x = to_nat(s) as int;
    let i1 = (idx - 1) as nat;
    let extra = (log - bits) as nat;
    let b2 = (64 - extra) as nat;
    let w = s[idx as int];
    let w1 = s[i1 as int];
    let h = to_nat(s.skip(idx as int + 1));
    crate::value::lemma_to_nat_split(s, i1 as int);
    crate::value::lemma_to_nat_bound(s.take(i1 as int));
    crate::value::lemma_to_nat_skip_next(s, i1 as int);
    crate::value::lemma_to_nat_skip_next(s, idx as int);
    assert(i1 + 1 == idx);
    crate::value::lemma_pow_base_pos(i1);
    crate::shift_ops::lemma_pow_base_pow2(i1);
    let pw = pow_base(i1) as int;
    let top = to_nat(s.skip(i1 as int)) as int;
    let lo = to_nat(s.take(i1 as int)) as int;
    vstd::arithmetic::div_mod::lemma_div_multiples_vanish_fancy(top, lo, pw);
    assert(pw * top + lo == lo + pw * top);
    lemma_pow2_pos(b2);
    lemma_pow2_adds(64 * i1, b2);
    assert(64 * i1 + b2 == (64 * (idx - 1) + 64 - (log - bits)) as nat);
    lemma_div_denominator(x, pw, pow2(b2) as int);
    let hi = w + word_base() * h;
    crate::bits::lemma_div_word_plus_high(w1, hi as nat, b2);
    assert(64 - b2 == extra);
    let pe = pow2(extra) as int;
    lemma2_to64_rest();
    lemma_pow2_adds(extra, 64);
    lemma_pow2_adds(log, (extra + 64 - log) as nat);
    assert(log + (extra + 64 - log) as nat == extra + 64);
    let r = pow2((extra + 64 - log) as nat) as int;
    assert(pe * hi == w * pe + pow2(log) * (r * h)) by (nonlinear_arith)
        requires
            hi == w + word_base() * h,
            pow2(extra + 64) == pe * word_base(),
            pow2(extra + 64) == pow2(log) * r,
    ;
    lemma_pow2_pos(log);
    vstd::arithmetic::div_mod::lemma_mod_multiples_vanish(
        r * h,
        w * pe + (w1 as nat / pow2(b2)) as int,
        pow2(log) as int,
    );
}

/// A number of at least two words prepared for printing in a power-of-2 radix.
struct PreparedLargeInPow2<'a> {
    words: &'a [Word],
    log_radix: u32,
    width: usize,
}

impl<'a> PreparedLargeInPow2<'a> {
    /// Prepare a number of at least two words for printing in a power-of-2 radix.
    fn new(words: &'a [Word], radix: Digit) -> (r: PreparedLargeInPow2<'a>)
        requires
            is_pow2_radix(radix),
            2 <= words@.len() <= crate::buffer::MAX_LEN,
            words@.last() != 0,
        ensures
            r.words@ == words@,
            r.log_radix == spec_log2_radix(radix),
            pow2(r.log_radix as nat) == radix,
            r.width == num_digits(to_nat(words@), radix as nat),
            r.width * r.log_radix >= 64 * (words@.len() - 1) + spec_bit_len(words@.last() as nat),
            r.width * r.log_radix < 64 * (words@.len() - 1) + spec_bit_len(words@.last() as nat)
                + r.log_radix,
    {
        let log_radix = log2_radix(radix);
        let len = words.len();
        let last = words[len - 1];
        proof {
            lemma_leading_zeros_bit_len(last);
            lemma_words_bit_len(words@);
            lemma_bit_len_bounds(last as nat);
            assert(len * 64 + 4 <= usize::MAX) by (nonlinear_arith)
                requires
                    len <= usize::MAX / 64,
                    usize::MAX >= 0xffff_ffff,
            ;
        }
        let digits = (len * (WORD_BITS as usize) - (last.leading_zeros() as usize) + (log_radix
            - 1) as usize) / (log_radix as usize);
        let width = if digits >= 1 {
            digits
        } else {
            1
        };
        proof {
            let bl = spec_bit_len(to_nat(words@));
            assert(bl == 64 * (len - 1) + spec_bit_len(last as nat));
            assert(bl >= 1);
            lemma_num_digits_pow2(to_nat(words@), log_radix as nat, width as nat);
            lemma_fundamental_div_mod((bl + log_radix - 1) as int, log_radix as int);
            lemma_mod_bound((bl + log_radix - 1) as int, log_radix as int);
            assert(digits >= 1) by (nonlinear_arith)
                requires
                    bl + log_radix - 1 == log_radix * digits + (bl + log_radix - 1) % (log_radix as int),
                    (bl + log_radix - 1) % (log_radix as int) < log_radix,
                    bl >= 1,
            ;
            assert(width * log_radix >= bl) by (nonlinear_arith)
                requires
                    bl + log_radix - 1 == log_radix * digits + (bl + log_radix - 1) % (log_radix as int),
                    (bl + log_radix - 1) % (log_radix as int) < log_radix,
                    width == digits,
            ;
            assert(width * log_radix < bl + log_radix) by (nonlinear_arith)
                requires
                    bl + log_radix - 1 == log_radix * digits + (bl + log_radix - 1) % (log_radix as int),
                    (bl + log_radix - 1) % (log_radix as int) >= 0,
                    width == digits,
            ;
        }
        PreparedLargeInPow2 { words, log_radix, width }
    }

    /// The number of digits.
    fn width(&self) -> (r: usize)
        ensures
            r == self.width,
    {
        self.width
    }

    /// Append the digits to `out`.
    fn write(&self, out: &mut Vec<u8>, digit_case: DigitCase)
        requires
            1 <= self.log_radix <= 5,
            2 <= self.words@.len() <= crate::buffer::MAX_LEN,
            self.words@.last() != 0,
            self.width == num_digits(to_nat(self.words@), pow2(self.log_radix as nat)),
            self.width * self.log_radix >= 64 * (self.words@.len() - 1) + spec_bit_len(
                self.words@.last() as nat,
            ),
            self.width * self.log_radix < 64 * (self.words@.len() - 1) + spec_bit_len(
                self.words@.last() as nat,
            ) + self.log_radix,
        ensures
            final(out)@ == old(out)@ + radix_text(
                to_nat(self.words@),
                pow2(self.log_radix as nat) as Digit,
                digit_case,
            ),
    {
        let ghost x = to_nat(self.words@);
        let ghost radix = pow2(self.log_radix as nat);
        let ghost text = radix_text(x, radix as Digit, digit_case);
        let ghost digits = radix_digits(x, radix, self.width as nat);
        let ghost start = out@;
        let log = self.log_radix;
        let len = self.words.len();
        proof {
            vstd::bits::lemma_u32_pow2_no_overflow(log as nat);
            vstd::bits::lemma_u32_shl_is_mul(1, log);
            lemma2_to64();
            if log < 5 {
                vstd::arithmetic::power2::lemma_pow2_strictly_increases(log as nat, 5);
            }
            vstd::arithmetic::power2::lemma_pow2_strictly_increases(0, log as nat);
            lemma_radix_digits_len(x, radix, self.width as nat);
            assert(radix as Digit as nat == radix);
            lemma_leading_zeros_bit_len(self.words@.last());
            assert(spec_bit_len(self.words@.last() as nat) <= 64);
            assert(self.width * log <= 64 * len + 4);
            assert(self.width * log >= 64 * (len - 1));
            assert((len - 1) * 64 <= usize::MAX) by (nonlinear_arith)
                requires
                    len <= usize::MAX / 64,
            ;
            assert(self.width * log - (len - 1) * 64 < 64 + log);
        }
        let mask: Digit = (1 << log) - 1;
        let mut idx = len - 1;
        let mut word = self.words[idx];
        let mut bits = (self.width * (log as usize) - (len - 1) * WORD_BITS as usize) as u32;
        let mut j: usize = 0;
        proof {
            assert(bits + 64 * idx == log * (self.width - j)) by (nonlinear_arith)
                requires
                    bits == self.width * log - (len - 1) * 64,
                    idx == len - 1,
                    j == 0,
            ;
        }
        loop
            invariant
                idx < len,
                len == self.words@.len(),
                word == self.words@[idx as int],
                1 <= log <= 5,
                log == self.log_radix,
                radix == pow2(log as nat),
                2 <= radix <= 32,
                mask == radix - 1,
                j <= self.width,
                bits + 64 * idx == log * (self.width - j),
                bits < 64 + log,
                bits <= 64 || idx == len - 1,
                x == to_nat(self.words@),
                self.width == num_digits(x, radix),
                digits == radix_digits(x, radix, self.width as nat),
                digits.len() == self.width,
                text == digits.map_values(|d: nat| spec_digit_byte(d as Digit, digit_case)),
                out@ == start + text.take(j as int),
            ensures
                j == self.width,
                out@ == start + text.take(j as int),
            decreases self.width - j,
        {
            let digit: Digit;
            if bits < log {
                if idx == 0 {
                    proof {
                        assert(j == self.width) by (nonlinear_arith)
                            requires
                                bits == log * (self.width - j),
                                bits < log,
                                j <= self.width,
                        ;
                    }
                    break;
                }
                let next = self.words[idx - 1];
                let extra_bits = log - bits;
                let ghost old_bits = bits;
                bits = WORD_BITS - extra_bits;
                let high = word << extra_bits;
                let low = next >> bits;
                proof {
                    assert(j < self.width) by (nonlinear_arith)
                        requires
                            old_bits + 64 * idx == log * (self.width - j),
                            idx >= 1,
                            log <= 5,
                    ;
                    lemma_radix_digit(x, radix, self.width as nat, j as int);
                    crate::parse::lemma_pow_of_pow2(log as nat, (self.width - 1 - j) as nat);
                    assert(log * ((self.width - 1 - j) as nat) == 64 * (idx - 1) + 64 - (log - old_bits)) by (
                    nonlinear_arith)
                        requires
                            old_bits + 64 * idx == log * (self.width - j),
                            j < self.width,
                    ;
                    lemma_digit_across_words(self.words@, idx as nat, old_bits as nat, log as nat);
                    lemma_straddle(word, next, extra_bits as nat, log as nat);
                }
                digit = ((high | low) & (mask as Word)) as Digit;
                word = next;
                idx -= 1;
            } else {
                bits -= log;
                proof {
                    assert(j < self.width) by (nonlinear_arith)
                        requires
                            bits + log + 64 * idx == log * (self.width - j),
                            log >= 1,
                    ;
                    lemma_radix_digit(x, radix, self.width as nat, j as int);
                    crate::parse::lemma_pow_of_pow2(log as nat, (self.width - 1 - j) as nat);
                    assert(log * ((self.width - 1 - j) as nat) == 64 * idx + bits) by (nonlinear_arith)
                        requires
                            bits + log + 64 * idx == log * (self.width - j),
                            j < self.width,
                    ;
                    lemma_digit_in_word(self.words@, idx as nat, bits as nat, log as nat);
                    vstd::bits::lemma_u64_shr_is_div(word, bits as u64);
                    vstd::bits::lemma_u64_low_bits_mask_is_mod(word >> (bits as u64), log as nat);
                    vstd::bits::lemma_u64_pow2_no_overflow(log as nat);
                    assert((mask as Word) == vstd::bits::low_bits_mask(log as nat) as Word);
                }
                digit = ((word >> bits) & (mask as Word)) as Digit;
            }
            proof {
                assert(digit == digits[j as int]);
                lemma_mod_bound(0, 1);
            }
            out.push(digit_to_ascii_byte(digit, digit_case));
            proof {
                assert(text.take(j + 1) =~= text.take(j as int).push(text[j as int]));
            }
            j += 1;
        }
        proof {
            assert(text.take(j as int) =~= text);
        }
    }
}

/// Two word parts joined by `|` read as the digit that straddles them.
proof fn lemma_straddle(word: Word, next: Word, extra: nat, log: nat)
    requires
        1 <= extra <= log <= 5,
    ensures
        ((((word << (extra as u64)) | (next >> ((64 - extra) as u64))) & ((pow2(log) - 1) as u64)) as nat)
            == ((word * pow2(extra) + next as nat / pow2((64 - extra) as nat)) as nat) % pow2(log),
{
    let e = extra as u64;
    let b = (64 - extra) as u64;
    let high = word << e;
    let low = next >> b;
    crate::parse::lemma_shl_truncates(word, e);
    vstd::bits::lemma_u64_shr_is_div(next, b);
    lemma_pow2_pos(extra);
    lemma_pow2_pos(b as nat);
    lemma2_to64_rest();
    lemma_pow2_adds(b as nat, extra);
    assert(b as nat + extra == 64);
    // low < 2^extra
    assert(low < pow2(extra)) by (nonlinear_arith)
        requires
            low == (next as nat) / pow2(b as nat),
            next < pow2(b as nat) * pow2(extra),
            pow2(b as nat) > 0,
    {
        vstd::arithmetic::div_mod::lemma_div_is_ordered(next as int, (pow2(b as nat) * pow2(extra) - 1) as int, pow2(b as nat) as int);
        vstd::arithmetic::div_mod::lemma_fundamental_div_mod((pow2(b as nat) * pow2(extra) - 1) as int, pow2(b as nat) as int);
    }
    let wm = (word as nat % pow2(b as nat)) as int;
    assert(high as int == wm * pow2(extra));
    vstd::arithmetic::div_mod::lemma_mod_multiples_basic(wm, pow2(extra) as int);
    crate::shift::lemma_or_is_add(high, low, extra);
    let sum = high | low;
    vstd::bits::lemma_u64_low_bits_mask_is_mod(sum, log);
    vstd::bits::lemma_u64_pow2_no_overflow(log);
    assert((pow2(log) - 1) as u64 == vstd::bits::low_bits_mask(log) as u64);
    // word 2^extra == (word / 2^b) 2^64 + high, and 2^64 is a multiple of 2^log
    vstd::arithmetic::div_mod::lemma_fundamental_div_mod(word as int, pow2(b as nat) as int);
    let wq = word as int / (pow2(b as nat) as int);
    lemma_pow2_adds(log, (64 - log) as nat);
    assert(log + (64 - log) as nat == 64);
    let r = pow2((64 - log) as nat) as int;
    assert(word * pow2(extra) + low == pow2(log) * (wq * r) + (high + low)) by (nonlinear_arith)
        requires
            word == pow2(b as nat) * wq + wm,
            high == wm * pow2(extra),
            pow2(b as nat) * pow2(extra) == pow2(log) * r,
    ;
    lemma_pow2_pos(log);
    vstd::arithmetic::div_mod::lemma_mod_multiples_vanish(wq * r, (high + low) as int, pow2(log) as int);
}

/// The bytes of the text of a number are ASCII.
pub proof fn lemma_radix_text_ascii(x: nat, radix: Digit, digit_case: DigitCase)
    requires
        spec_radix_valid(radix),
    ensures
        forall|i: int|
            0 <= i < radix_text(x, radix, digit_case).len() ==> #[trigger] radix_text(
                x,
                radix,
                digit_case,
            )[i] <= 0x7f,
        radix_text(x, radix, digit_case).len() == num_digits(x, radix as nat),
{
    let n = num_digits(x, radix as nat);
    lemma_radix_digits_len(x, radix as nat, n);
    assert forall|i: int| 0 <= i < radix_text(x, radix, digit_case).len() implies #[trigger] radix_text(
        x,
        radix,
        digit_case,
    )[i] <= 0x7f by {
        lemma_radix_digit(x, radix as nat, n, i);
        lemma_mod_bound((x / (pow(radix as int, (n - 1 - i) as nat) as nat)) as int, radix as int);
    }
}

/// `String::from_utf8` on ASCII bytes: every byte is valid UTF-8 on its own, so the string
/// holds one character per byte.
#[verifier::external_body]
fn string_from_ascii(bytes: Vec<u8>) -> (r: String)
    requires
        forall|i: int| 0 <= i < bytes@.len() ==> bytes@[i] <= 0x7f,
    ensures
        r@ == bytes@.map_values(|b: u8| b as char),
{
    String::from_utf8(bytes).unwrap()
}

/// How a field is aligned within a wider space.
#[derive(Clone, Copy, Debug, PartialEq, Eq, Structural)]
pub enum Alignment {
    Left,
    Right,
    Center,
}

/// What a format asks of a number: the flags of a format string.
#[derive(Clone, Copy, Debug, PartialEq, Eq, Structural)]
pub struct FormatRequest {
    /// `+` flag: print a plus sign for non-negative numbers.
    pub sign_plus: bool,
    /// `#` flag: upper-case letter digits, where the case is not fixed.
    pub alternate: bool,
    /// Minimum width.
    pub width: Option<usize>,
    /// `0` flag: pad with zeros after the sign and prefix.
    pub sign_aware_zero_pad: bool,
    /// Alignment within the minimum width.
    pub align: Option<Alignment>,
}

/// The sign printed in front of a number.
#[derive(Clone, Copy, Debug, PartialEq, Eq, Structural)]
pub enum SignMark {
    Empty,
    Minus,
    Plus,
}

impl SignMark {
    /// The length of the sign in bytes.
    pub open spec fn spec_len(self) -> nat {
        match self {
            SignMark::Empty => 0,
            _ => 1,
        }
    }

    /// The length of the sign in bytes.
    pub fn len(self) -> (r: usize)
        ensures
            r == self.spec_len(),
    {
        match self {
            SignMark::Empty => 0,
            _ => 1,
        }
    }
}

/// How to print a number in a field: fill characters before, the sign, the prefix, zeros,
/// the digits in `digit_case`, and fill characters after.
#[derive(Clone, Copy, Debug, PartialEq, Eq, Structural)]
pub struct FormatLayout {
    pub fill_before: usize,
    pub sign: SignMark,
    pub zeros: usize,
    pub fill_after: usize,
    pub digit_case: DigitCase,
}

/// The layout of a number with `digits` digits, a prefix of `prefix_len` bytes, and a
/// letter case that is fixed or left to the request.
pub open spec fn layout_of(
    negative: bool,
    digits: nat,
    prefix_len: nat,
    fixed_case: Option<DigitCase>,
    request: FormatRequest,
) -> FormatLayout {
    let sign = if negative {
        SignMark::Minus
    } else if request.sign_plus {
        SignMark::Plus
    } else {
        SignMark::Empty
    };
    let digit_case = match fixed_case {
        Some(c) => c,
        None => if request.alternate {
            DigitCase::Upper
        } else {
            DigitCase::Lower
        },
    };
    let width = digits + sign.spec_len() + prefix_len;
    let none = FormatLayout { fill_before: 0, sign, zeros: 0, fill_after: 0, digit_case };
    match request.width {
        None => none,
        Some(min_width) => if width >= min_width {
            none
        } else if request.sign_aware_zero_pad {
            FormatLayout { zeros: (min_width - width) as usize, ..none }
        } else {
            let left = match request.align {
                Some(Alignment::Left) => 0,
                Some(Alignment::Center) => (min_width - width) / 2,
                _ => min_width - width,
            };
            FormatLayout {
                fill_before: left as usize,
                fill_after: (min_width - width - left) as usize,
                ..none
            }
        },
    }
}

/// The number of bytes a layout prints for `digits` digits after a prefix of `prefix_len`
/// bytes: fill, sign, prefix, zeros, digits and fill.
pub open spec fn printed_len(layout: FormatLayout, digits: nat, prefix_len: nat) -> nat {
    layout.fill_before as nat + layout.sign.spec_len() + prefix_len + layout.zeros as nat + digits
        + layout.fill_after as nat
}

/// What a layout promises of the printed field, whatever the request: a negative number always
/// gets a minus sign and a non-negative one a plus sign only with the `+` flag; the field is
/// exactly as wide as the number, or as the requested width when that is larger; zero padding
/// leaves no fill; fill goes after the number only for left or centred alignment, before it
/// only for right alignment (the default) or centred alignment, split in halves when centred;
/// a fixed letter case is kept, else the `#` flag chooses upper case.
pub open spec fn layout_meets_request(
    layout: FormatLayout,
    negative: bool,
    digits: nat,
    prefix_len: nat,
    fixed_case: Option<DigitCase>,
    request: FormatRequest,
) -> bool {
    let natural = digits + layout.sign.spec_len() + prefix_len;
    &&& negative ==> layout.sign == SignMark::Minus
    &&& !negative ==> layout.sign != SignMark::Minus
    &&& !negative ==> (layout.sign == SignMark::Plus <==> request.sign_plus)
    &&& printed_len(layout, digits, prefix_len) == (match request.width {
        Some(w) => if w > natural {
            w as nat
        } else {
            natural
        },
        None => natural,
    })
    &&& (request.width is None || request.sign_aware_zero_pad) ==> layout.fill_before == 0
        && layout.fill_after == 0
    &&& !request.sign_aware_zero_pad ==> layout.zeros == 0
    &&& (request.align is None || request.align == Some(Alignment::Right)) ==> layout.fill_after
        == 0
    &&& request.align == Some(Alignment::Left) ==> layout.fill_before == 0
    &&& request.align == Some(Alignment::Center) ==> layout.fill_before <= layout.fill_after
        <= layout.fill_before + 1
    &&& fixed_case matches Some(c) ==> layout.digit_case == c
    &&& fixed_case is None ==> (layout.digit_case == DigitCase::Upper <==> request.alternate)
}

/// The layout of a number meets the request: the sign, width, padding, alignment and letter
/// case laws of `layout_meets_request`.
pub proof fn lemma_layout_of_meets_request(
    negative: bool,
    digits: nat,
    prefix_len: nat,
    fixed_case: Option<DigitCase>,
    request: FormatRequest,
)
    ensures
        layout_meets_request(
            layout_of(negative, digits, prefix_len, fixed_case, request),
            negative,
            digits,
            prefix_len,
            fixed_case,
            request,
        ),
{
}

/// Representation of an unsigned number, with a sign, in a radix between 2 and 36.
pub struct InRadix<'a> {
    sign: Sign,
    magnitude: &'a UBig,
    radix: Digit,
    prefix: &'static str,
    digit_case: Option<DigitCase>,
}

impl<'a> InRadix<'a> {
    #[verifier::type_invariant]
    closed spec fn wf(&self) -> bool {
        &&& spec_radix_valid(self.radix)
        &&& self.prefix.spec_bytes().len() <= 2
    }

    /// Is the number printed with a minus sign?
    pub closed spec fn negative(&self) -> bool {
        self.sign == Sign::Negative
    }

    /// The magnitude.
    pub closed spec fn magnitude_value(&self) -> nat {
        self.magnitude@
    }

    /// The radix.
    pub closed spec fn radix_value(&self) -> Digit {
        self.radix
    }

    /// The prefix printed after the sign.
    pub closed spec fn prefix_bytes(&self) -> Seq<u8> {
        self.prefix.spec_bytes()
    }

    /// The letter case, unless the format chooses it.
    pub closed spec fn fixed_case(&self) -> Option<DigitCase> {
        self.digit_case
    }

    /// A representation of `magnitude` with a sign and a prefix of at most two bytes.
    pub fn new(
        sign: Sign,
        magnitude: &'a UBig,
        radix: Digit,
        prefix: &'static str,
        digit_case: Option<DigitCase>,
    ) -> (r: InRadix<'a>)
        requires
            spec_radix_valid(radix),
            prefix.spec_bytes().len() <= 2,
        ensures
            r.negative() == (sign == Sign::Negative),
            r.magnitude_value() == magnitude@,
            r.radix_value() == radix,
            r.prefix_bytes() == prefix.spec_bytes(),
            r.fixed_case() == digit_case,
    {
        InRadix { sign, magnitude, radix, prefix, digit_case }
    }

    /// The radix.
    pub fn radix(&self) -> (r: Digit)
        ensures
            r == self.radix_value(),
    {
        self.radix
    }

    /// The prefix printed after the sign.
    pub fn prefix(&self) -> (r: &'static str)
        ensures
            r.spec_bytes() == self.prefix_bytes(),
    {
        self.prefix
    }

    /// The number of digits.
    pub fn digits_width(&self) -> (r: usize)
        ensures
            r == num_digits(self.magnitude_value(), self.radix_value() as nat),
            r <= 64 * crate::buffer::MAX_LEN,
    {
        proof {
            use_type_invariant(self);
        }
        let words = self.magnitude.as_words();
        if !crate::radix::is_power_of_two_radix(self.radix) {
            let digits = digits_in_radix(self.magnitude, self.radix);
            proof {
                let x = self.magnitude@;
                let rn = self.radix as nat;
                lemma_radix_digits_len(x, rn, num_digits(x, rn));
                crate::value::lemma_to_nat_bound(words@);
                lemma_num_digits_words(x, rn, words@.len());
            }
            return digits.len();
        }
        if words.len() <= 1 {
            let word = crate::add_ops::word_of_short(words);
            let prepared = PreparedWordInPow2::new(word, self.radix);
            prepared.width()
        } else {
            let prepared = PreparedLargeInPow2::new(words, self.radix);
            proof {
                lemma_leading_zeros_bit_len(words@.last());
                assert(prepared.width <= 64 * words@.len()) by (nonlinear_arith)
                    requires
                        prepared.width * prepared.log_radix < 64 * (words@.len() - 1) + spec_bit_len(
                            words@.last() as nat,
                        ) + prepared.log_radix,
                        spec_bit_len(words@.last() as nat) <= 64,
                        prepared.log_radix >= 1,
                ;
            }
            prepared.width()
        }
    }

    /// Append the digits, in `digit_case`, to `out`.
    pub fn write_digits(&self, out: &mut Vec<u8>, digit_case: DigitCase)
        ensures
            final(out)@ == old(out)@ + radix_text(self.magnitude_value(), self.radix_value(), digit_case),
    {
        proof {
            use_type_invariant(self);
        }
        if !crate::radix::is_power_of_two_radix(self.radix) {
            let digits = digits_in_radix(self.magnitude, self.radix);
            let n = digits.len();
            let ghost x = self.magnitude@;
            let ghost rn = self.radix as nat;
            let ghost text = radix_text(x, self.radix, digit_case);
            let ghost start = out@;
            proof {
                lemma_radix_digits_len(x, rn, num_digits(x, rn));
            }
            let mut i = n;
            while i > 0
                invariant
                    i <= n,
                    n == digits@.len(),
                    n == text.len(),
                    rn == self.radix as nat,
                    self.radix <= 36,
                    text == digits_of(x, rn).map_values(|d: nat| spec_digit_byte(d as Digit, digit_case)),
                    forall|k: int|
                        0 <= k < n ==> digits@[k] as nat == digits_of(x, rn)[n - 1 - k] && digits@[k]
                            < self.radix,
                    out@ == start + text.take(n - i),
                decreases i,
            {
                i -= 1;
                let b = digit_to_ascii_byte(digits[i], digit_case);
                proof {
                    assert(text[n - 1 - i] == spec_digit_byte(digits@[i as int], digit_case));
                }
                out.push(b);
                proof {
                    assert(text.take(n - i) == text.take(n - 1 - i).push(text[n - 1 - i]));
                }
            }
            proof {
                assert(text.take(n as int) == text);
            }
            return;
        }
        let words = self.magnitude.as_words();
        if words.len() <= 1 {
            let word = crate::add_ops::word_of_short(words);
            let prepared = PreparedWordInPow2::new(word, self.radix);
            prepared.write(out, digit_case);
        } else {
            let prepared = PreparedLargeInPow2::new(words, self.radix);
            prepared.write(out, digit_case);
        }
    }

    /// How to print the number for a format request.
    pub fn format_layout(&self, request: FormatRequest) -> (r: FormatLayout)
        ensures
            r == layout_of(
                self.negative(),
                num_digits(self.magnitude_value(), self.radix_value() as nat),
                self.prefix_bytes().len(),
                self.fixed_case(),
                request,
            ),
            layout_meets_request(
                r,
                self.negative(),
                num_digits(self.magnitude_value(), self.radix_value() as nat),
                self.prefix_bytes().len(),
                self.fixed_case(),
                request,
            ),
    {
        proof {
            use_type_invariant(self);
            lemma_layout_of_meets_request(
                self.negative(),
                num_digits(self.magnitude_value(), self.radix_value() as nat),
                self.prefix_bytes().len(),
                self.fixed_case(),
                request,
            );
        }
        let mut width = self.digits_width();
        let sign = if self.sign == Sign::Negative {
            SignMark::Minus
        } else if request.sign_plus {
            SignMark::Plus
        } else {
            SignMark::Empty
        };
        width += sign.len() + self.prefix.len();
        let digit_case = match self.digit_case {
            Some(c) => c,
            None => if request.alternate {
                DigitCase::Upper
            } else {
                DigitCase::Lower
            },
        };
        let none = FormatLayout { fill_before: 0, sign, zeros: 0, fill_after: 0, digit_case };
        match request.width {
            None => none,
            Some(min_width) => {
                if width >= min_width {
                    none
                } else if request.sign_aware_zero_pad {
                    FormatLayout { zeros: min_width - width, ..none }
                } else {
                    let left = match request.align {
                        Some(Alignment::Left) => 0,
                        Some(Alignment::Right) | None => min_width - width,
                        Some(Alignment::Center) => (min_width - width) / 2,
                    };
                    FormatLayout { fill_before: left, fill_after: min_width - width - left, ..none }
                }
            },
        }
    }

    /// The number as a string: the sign, then the digits in the fixed case.
    fn format_continuation_to_string(&self) -> (r: String)
        requires
            self.fixed_case() is Some,
            self.prefix_bytes().len() == 0,
        ensures
            r@ == (if self.negative() {
                seq![0x2du8]
            } else {
                Seq::<u8>::empty()
            } + radix_text(
                self.magnitude_value(),
                self.radix_value(),
                self.fixed_case().unwrap(),
            )).map_values(|b: u8| b as char),
    {
        proof {
            use_type_invariant(self);
        }
        let mut width = self.digits_width();
        let negative = match self.sign {
            Sign::Positive => false,
            Sign::Negative => true,
        };
        if negative {
            width += 1;
        }
        let digit_case = match self.digit_case {
            Some(c) => c,
            None => DigitCase::Lower,
        };
        let mut s: Vec<u8> = Vec::with_capacity(width);
        if negative {
            s.push(0x2du8);
        }
        let ghost head = s@;
        proof {
            assert(head == if self.negative() {
                seq![0x2du8]
            } else {
                Seq::<u8>::empty()
            });
        }
        self.write_digits(&mut s, digit_case);
        proof {
            lemma_radix_text_ascii(self.magnitude_value(), self.radix_value(), digit_case);
            let text = radix_text(self.magnitude_value(), self.radix_value(), digit_case);
            assert forall|i: int| 0 <= i < s@.len() implies s@[i] <= 0x7f by {
                if i >= head.len() {
                    assert(s@[i] == text[i - head.len()]);
                }
            }
        }
        string_from_ascii(s)
    }
}

impl UBig {
    /// Representation in a given radix, between 2 and 36 inclusive.
    pub fn in_radix(&self, radix: u32) -> (r: InRadix)
        requires
            spec_radix_valid(radix),
        ensures
            !r.negative(),
            r.magnitude_value() == self@,
            r.radix_value() == radix,
            r.prefix_bytes().len() == 0,
            r.fixed_case() is None,
    {
        proof {
            reveal_strlit("");
        }
        InRadix::new(Sign::Positive, self, radix, "", None)
    }

    /// String representation in a radix between 2 and 36, with lower-case letters.
    pub fn to_radix_str(&self, radix: u32) -> (r: String)
        requires
            spec_radix_valid(radix),
        ensures
            r@ == radix_text(self@, radix, DigitCase::Lower).map_values(|b: u8| b as char),
    {
        proof {
            reveal_strlit("");
        }
        let in_radix = InRadix::new(Sign::Positive, self, radix, "", Some(DigitCase::Lower));
        let r = in_radix.format_continuation_to_string();
        proof {
            assert(Seq::<u8>::empty() + radix_text(self@, radix, DigitCase::Lower) == radix_text(
                self@,
                radix,
                DigitCase::Lower,
            ));
        }
        r
    }

    /// String representation in a radix between 2 and 36, with upper-case letters.
    pub fn to_radix_str_uppercase(&self, radix: u32) -> (r: String)
        requires
            spec_radix_valid(radix),
        ensures
            r@ == radix_text(self@, radix, DigitCase::Upper).map_values(|b: u8| b as char),
    {
        proof {
            reveal_strlit("");
        }
        let in_radix = InRadix::new(Sign::Positive, self, radix, "", Some(DigitCase::Upper));
        let r = in_radix.format_continuation_to_string();
        proof {
            assert(Seq::<u8>::empty() + radix_text(self@, radix, DigitCase::Upper) == radix_text(
                self@,
                radix,
                DigitCase::Upper,
            ));
        }
        r
    }
}

/// The digits of `x` in `radix`, most significant first, with no leading zero.
pub open spec fn digits_of(x: nat, radix: nat) -> Seq<nat> {
    radix_digits(x, radix, num_digits(x, radix))
}

/// The digits of a number of more than one digit: those of the quotient, then the remainder.
proof fn lemma_digits_of_step(x: nat, radix: nat)
    requires
        radix >= 2,
        x >= radix,
    ensures
        digits_of(x, radix) == digits_of(x / radix, radix).push(x % radix),
{
    assert(num_digits(x, radix) == 1 + num_digits(x / radix, radix));
}

/// A number below the radix is its only digit.
proof fn lemma_digits_of_small(x: nat, radix: nat)
    requires
        radix >= 2,
        x < radix,
    ensures
        digits_of(x, radix) == seq![x],
{
    assert(num_digits(x, radix) == 1);
    vstd::arithmetic::div_mod::lemma_small_mod(x, radix);
    assert(radix_digits(x / radix, radix, 0) == Seq::<nat>::empty());
    assert(digits_of(x, radix) == Seq::<nat>::empty().push(x % radix));
}

/// A number of `n` digits is at least `2^(n - 1)`, or is zero with one digit.
proof fn lemma_num_digits_lower(x: nat, radix: nat)
    requires
        radix >= 2,
    ensures
        num_digits(x, radix) >= 1,
        pow2((num_digits(x, radix) - 1) as nat) <= (if x == 0 {
            1
        } else {
            x
        }),
    decreases x,
{
    if x >= radix {
        vstd::arithmetic::div_mod::lemma_div_decreases(x as int, radix as int);
        let q = x / radix;
        lemma_num_digits_lower(q, radix);
        let m = num_digits(q, radix);
        assert(num_digits(x, radix) == 1 + m);
        lemma_fundamental_div_mod(x as int, radix as int);
        vstd::arithmetic::div_mod::lemma_div_pos_is_pos(x as int, radix as int);
        assert(q >= 1) by {
            vstd::arithmetic::div_mod::lemma_div_is_ordered(radix as int, x as int, radix as int);
            vstd::arithmetic::div_mod::lemma_div_by_self(radix as int);
        }
        vstd::arithmetic::power2::lemma_pow2_unfold(m);
        assert(2 * pow2((m - 1) as nat) <= x) by (nonlinear_arith)
            requires
                pow2((m - 1) as nat) <= q,
                x == radix * q + (x as int) % (radix as int),
                (x as int) % (radix as int) >= 0,
                radix >= 2,
        ;
    } else {
        assert(num_digits(x, radix) == 1);
        vstd::arithmetic::power2::lemma2_to64();
    }
}

/// A number of `len` words has at most `64 len` digits, and at most one for zero.
proof fn lemma_num_digits_words(x: nat, radix: nat, len: nat)
    requires
        radix >= 2,
        x < pow_base(len),
    ensures
        num_digits(x, radix) <= (if len == 0 {
            1
        } else {
            64 * len
        }),
{
    lemma_num_digits_lower(x, radix);
    let n = num_digits(x, radix);
    if len > 0 && n > 64 * len {
        crate::shift_ops::lemma_pow_base_pow2(len);
        assert(pow2(64 * len) <= pow2((n - 1) as nat)) by {
            if 64 * len < (n - 1) as nat {
                vstd::arithmetic::power2::lemma_pow2_strictly_increases(64 * len, (n - 1) as nat);
            }
        }
        crate::value::lemma_pow_base_pos(len);
    }
    if len == 0 {
        assert(pow_base(0) == 1) by {
            crate::value::lemma_pow_base_step(0);
        }
        assert(x == 0);
        assert(num_digits(0, radix) == 1);
    }
}

/// The value of a number below the radix.
fn small_digit(x: &UBig, radix: Digit) -> (r: Digit)
    requires
        x@ < radix,
        radix <= crate::radix::MAX_RADIX,
    ensures
        r == x@,
{
    let words = x.as_words();
    proof {
        crate::value::lemma_pow_base_step(0);
        lemma2_to64_rest();
        crate::value::lemma_normalized_len_bound(words@, 1);
    }
    crate::add_ops::word_of_short(words) as Digit
}

/// The digits of a number in any radix, least significant first: by repeated division.
pub fn digits_in_radix(x: &UBig, radix: Digit) -> (r: Vec<Digit>)
    requires
        spec_radix_valid(radix),
    ensures
        r@.len() == digits_of(x@, radix as nat).len(),
        forall|i: int|
            0 <= i < r@.len() ==> r@[i] as nat == digits_of(x@, radix as nat)[r@.len() - 1 - i]
                && r@[i] < radix,
{
    let ghost x0 = x@;
    let ghost rn = radix as nat;
    let divisor = UBig::from_word(radix as Word);
    let mut q = x.clone();
    let mut acc: Vec<Digit> = Vec::new();
    let ghost mut tail: Seq<nat> = Seq::empty();
    loop
        invariant_except_break
            digits_of(x0, rn) == digits_of(q@, rn) + tail,
        invariant
            rn == radix as nat,
            2 <= radix <= 36,
            divisor@ == radix,
            acc@.len() == tail.len(),
            forall|i: int|
                0 <= i < acc@.len() ==> acc@[i] as nat == tail[tail.len() - 1 - i] && acc@[i]
                    < radix,
        ensures
            digits_of(x0, rn) == tail,
        decreases q@,
    {
        let (nq, rem) = q.div_rem(&divisor);
        proof {
            lemma_mod_bound(q@ as int, radix as int);
        }
        let d = small_digit(&rem, radix);
        acc.push(d);
        let ghost q0 = q@;
        let ghost old_tail = tail;
        proof {
            tail = seq![q0 % rn] + old_tail;
            assert forall|i: int| 0 <= i < acc@.len() implies acc@[i] as nat == tail[tail.len()
                - 1 - i] && acc@[i] < radix by {
                if i < old_tail.len() {
                    assert(tail[tail.len() - 1 - i] == old_tail[old_tail.len() - 1 - i]);
                }
            }
        }
        if nq.is_zero() {
            proof {
                vstd::arithmetic::div_mod::lemma_fundamental_div_mod(q0 as int, radix as int);
                lemma_digits_of_small(q0, rn);
                assert(q0 < radix);
                vstd::arithmetic::div_mod::lemma_small_mod(q0, rn);
                assert(digits_of(q0, rn) + old_tail == tail);
            }
            break;
        }
        proof {
            vstd::arithmetic::div_mod::lemma_fundamental_div_mod(q0 as int, radix as int);
            assert(q0 >= radix) by (nonlinear_arith)
                requires
                    q0 == radix * nq@ + q0 % rn,
                    nq@ >= 1,
                    q0 % rn >= 0,
            ;
            lemma_digits_of_step(q0, rn);
            assert(digits_of(nq@, rn).push(q0 % rn) + old_tail == digits_of(nq@, rn) + tail);
            vstd::arithmetic::div_mod::lemma_div_decreases(q0 as int, radix as int);
        }
        q = nq;
    }
    acc
}

/// A number is below `radix` to the power of its number of digits.
pub proof fn lemma_num_digits_bound(x: nat, radix: nat)
    requires
        radix >= 2,
    ensures
        x < pow(radix as int, num_digits(x, radix)),
    decreases x,
{
    lemma_pow1(radix as int);
    if x >= radix {
        vstd::arithmetic::div_mod::lemma_div_decreases(x as int, radix as int);
        lemma_num_digits_bound(x / radix, radix);
        let n = num_digits(x / radix, radix);
        lemma_pow_adds(radix as int, 1, n);
        lemma_fundamental_div_mod(x as int, radix as int);
        lemma_mod_bound(x as int, radix as int);
        let q = x as int / radix as int;
        let p = pow(radix as int, n);
        assert(x < radix * p) by (nonlinear_arith)
            requires
                x == radix * q + (x as int) % (radix as int),
                (x as int) % (radix as int) < radix,
                q < p,
                q >= 0,
        ;
    }
}

/// The digit bytes read back as the digits.
proof fn lemma_digit_byte_value(d: nat, digit_case: DigitCase)
    requires
        d < 36,
    ensures
        crate::radix::is_digit(spec_digit_byte(d as Digit, digit_case), 36),
        crate::radix::digit_of(spec_digit_byte(d as Digit, digit_case)) == d,
{
}

/// The digits of the last `n` digits, read back in `radix`, are `x mod radix^n`.
proof fn lemma_digits_value_of_digits(x: nat, radix: Digit, n: nat, digit_case: DigitCase)
    requires
        spec_radix_valid(radix),
    ensures
        crate::parse::all_digits(
            radix_digits(x, radix as nat, n).map_values(|d: nat| spec_digit_byte(d as Digit, digit_case)),
            radix,
        ),
        crate::parse::digits_value(
            radix_digits(x, radix as nat, n).map_values(|d: nat| spec_digit_byte(d as Digit, digit_case)),
            radix as nat,
        ) == x % (pow(radix as int, n) as nat),
    decreases n,
{
    let r = radix as nat;
    let bytes = radix_digits(x, r, n).map_values(|d: nat| spec_digit_byte(d as Digit, digit_case));
    lemma_radix_digits_len(x, r, n);
    if n == 0 {
        lemma_pow0(radix as int);
        vstd::arithmetic::div_mod::lemma_mod_self_0(1);
        assert(x % 1 == 0) by {
            vstd::arithmetic::div_mod::lemma_mod_multiples_basic(x as int, 1);
        }
    } else {
        let prev = radix_digits(x / r, r, (n - 1) as nat);
        let pbytes = prev.map_values(|d: nat| spec_digit_byte(d as Digit, digit_case));
        lemma_digits_value_of_digits(x / r, radix, (n - 1) as nat, digit_case);
        lemma_radix_digits_len(x / r, r, (n - 1) as nat);
        assert(radix_digits(x, r, n) == prev.push(x % r));
        lemma_mod_bound(x as int, r as int);
        lemma_digit_byte_value(x % r, digit_case);
        let b = spec_digit_byte((x % r) as Digit, digit_case);
        assert(bytes =~= pbytes.push(b));
        assert(bytes.drop_last() =~= pbytes);
        assert(bytes.last() == b);
        assert forall|i: int| 0 <= i < bytes.len() implies crate::radix::is_digit(#[trigger] bytes[i], radix) by {
            if i < pbytes.len() {
                assert(bytes[i] == pbytes[i]);
            } else {
                assert(bytes[i] == b);
            }
        }
        // value: (x / r mod r^(n-1)) r + x mod r == x mod r^n
        let p = pow(radix as int, (n - 1) as nat);
        vstd::arithmetic::power::lemma_pow_positive(radix as int, (n - 1) as nat);
        lemma_pow_adds(radix as int, 1, (n - 1) as nat);
        lemma_pow1(radix as int);
        assert(1 + (n - 1) as nat == n);
        vstd::arithmetic::div_mod::lemma_mod_breakdown(x as int, r as int, p);
        vstd::arithmetic::mul::lemma_mul_is_commutative(r as int, ((x / r) as int) % p);
    }
}

/// Reading back the text of a number gives the number: parsing `radix_text(x, radix, _)` in
/// `radix` succeeds with `x`, in either letter case.
pub proof fn lemma_parse_radix_text(x: nat, radix: Digit, digit_case: DigitCase)
    requires
        spec_radix_valid(radix),
    ensures
        crate::parse::parse_digits(radix_text(x, radix, digit_case), radix) == Ok::<nat, crate::error::ParseError>(x),
{
    let n = num_digits(x, radix as nat);
    lemma_digits_value_of_digits(x, radix, n, digit_case);
    lemma_num_digits_bound(x, radix as nat);
    vstd::arithmetic::div_mod::lemma_small_mod(x, pow(radix as int, n) as nat);
    lemma_radix_digits_len(x, radix as nat, n);
    assert(n >= 1);
}

/// Stripping leading zeros does not lengthen the digits.
proof fn lemma_strip_zeros_len(s: Seq<u8>)
    ensures
        crate::parse::strip_zeros(s).len() <= s.len(),
    decreases s.len(),
{
    if s.len() > 0 && s[0] == 0x30 {
        lemma_strip_zeros_len(s.skip(1));
    }
}

/// A string that holds the digits of `x` in `radix`, as `to_radix_str` and
/// `to_radix_str_uppercase` return, is what `UBig::from_str_radix` reads: it has no `+` to strip,
/// its digits parse back to `x`, and they fit the parser's bound whenever `radix` to the power
/// of the number of digits fits.
pub proof fn lemma_radix_str_round_trip(s: &str, x: nat, radix: Digit, digit_case: DigitCase)
    requires
        spec_radix_valid(radix),
        s@ == radix_text(x, radix, digit_case).map_values(|b: u8| b as char),
    ensures
        crate::parse::strip_plus(s.spec_bytes()) == radix_text(x, radix, digit_case),
        crate::parse::parse_digits(crate::parse::strip_plus(s.spec_bytes()), radix) == Ok::<
            nat,
            crate::error::ParseError,
        >(x),
        crate::ubig::fits(pow(radix as int, num_digits(x, radix as nat)) as nat) ==> crate::parse::digits_fit(
            crate::parse::strip_plus(s.spec_bytes()),
            radix,
        ),
{
    let text = radix_text(x, radix, digit_case);
    lemma_radix_text_ascii(x, radix, digit_case);
    lemma_radix_digits_len(x, radix as nat, num_digits(x, radix as nat));
    assert(vstd::string::is_ascii(s)) by {
        assert forall|i: int| 0 <= i < s@.len() implies '\0' <= #[trigger] s@[i] <= '\u{7f}' by {
            assert(s@[i] == text[i] as char);
            assert(text[i] <= 0x7f);
        }
    }
    vstd::string::is_ascii_spec_bytes(s);
    assert(s.spec_bytes() =~= text) by {
        assert forall|i: int| 0 <= i < text.len() implies s.spec_bytes()[i] == text[i] by {
            assert(s@[i] == text[i] as char);
            let b = text[i];
            assert(b <= 0x7f);
            assert((b as char) as u8 == b);
        }
    }
    lemma_num_digits_lower(x, radix as nat);
    // the first byte is a digit, not `+`
    let d = digits_of(x, radix as nat)[0];
    assert(text[0] == spec_digit_byte(d as Digit, digit_case));
    assert(d < radix) by {
        lemma_radix_digit(x, radix as nat, num_digits(x, radix as nat), 0);
        lemma_mod_bound(
            (x / (pow(radix as int, (num_digits(x, radix as nat) - 1) as nat) as nat)) as int,
            radix as int,
        );
    }
    assert(text[0] != 0x2b);
    lemma_parse_radix_text(x, radix, digit_case);
    lemma_strip_zeros_len(text);
    crate::parse::lemma_pow_le(radix, crate::parse::strip_zeros(text).len(), text.len());
}

} // verus!
