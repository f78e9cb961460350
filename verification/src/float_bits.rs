//! The bit patterns of the binary floating point numbers nearest to long numbers.
//!
//! The numbers that fit in a word are converted by the hardware; above, the rounding to
//! nearest, ties to even, is done here on the words, and the result is given as the bits of the
//! IEEE 754 encoding.

use crate::add_ops::word_of_short;
use crate::bits::is_ilog2;
use crate::primitive::Word;
use crate::ubig::UBig;
use crate::value::{lemma_normalized_len_bound, pow_base, to_nat};
use vstd::arithmetic::power2::{lemma2_to64, lemma2_to64_rest, lemma_pow2_adds, lemma_pow2_pos, pow2};
use vstd::prelude::*;

verus! {

/// `x / 2^k` rounded to the nearest integer, ties to even, for `k >= 1`.
pub open spec fn round_half_even(x: nat, k: nat) -> nat {
    let m = x / pow2(k);
    let rest = x % pow2(k);
    let half = pow2((k - 1) as nat);
    if rest > half || (rest == half && m % 2 == 1) {
        m + 1
    } else {
        m
    }
}

/// The bits of the `f64` infinity.
pub open spec fn f64_infinity_bits() -> u64 {
    0x7ff0_0000_0000_0000
}

/// The bits of the `f32` infinity.
pub open spec fn f32_infinity_bits() -> u32 {
    0x7f80_0000
}

/// Round to even floating point adjustment, based on the bottom
/// bit of mantissa and additional 2 bits (i.e. 3 bits in units of ULP/4).
pub fn round_to_even_adjustment(bits: u32) -> (r: bool)
    ensures
        r == (bits >= 0b110 || bits == 0b011),
{
    bits >= 0b110 || bits == 0b011
}

/// The value of a number below `B`, as a word.
fn word_of(x: &UBig) -> (r: Word)
    requires
        x@ < 0x1_0000_0000_0000_0000,
    ensures
        r == x@,
{
    let words = x.as_words();
    proof {
        crate::value::lemma_pow_base_step(0);
        lemma_normalized_len_bound(words@, 1);
    }
    word_of_short(words)
}

/// Rounding `x` to `p + 1` significant bits, from its top `p + 2` bits `t` and whether the bits
/// below them are all zero: the rounded top `p + 1` bits are `t / 2`, plus one exactly when
/// `round_to_even_adjustment` says so.
proof fn lemma_rounding(x: nat, k: nat, t: nat, sticky: bool)
    requires
        k >= 1,
        t == x / pow2(k),
        sticky == (x % pow2(k) != 0),
    ensures
        round_half_even(x, k + 1) == t / 2 + (if ((t % 4) * 2 + (if sticky { 1nat } else { 0 }))
            >= 6 || ((t % 4) * 2 + (if sticky { 1nat } else { 0 })) == 3 {
            1nat
        } else {
            0
        }),
{
    let p = pow2(k) as int;
    lemma_pow2_pos(k);
    vstd::arithmetic::power2::lemma_pow2_unfold(k + 1);
    assert(pow2(k + 1) == 2 * p);
    let m = x / pow2(k + 1);
    let rest = x % pow2(k + 1);
    let low = x % pow2(k);
    // x = t p + low, t = 2 (t / 2) + t % 2
    vstd::arithmetic::div_mod::lemma_fundamental_div_mod(x as int, p);
    vstd::arithmetic::div_mod::lemma_fundamental_div_mod(t as int, 2);
    vstd::arithmetic::div_mod::lemma_mod_bound(x as int, p);
    vstd::arithmetic::div_mod::lemma_div_denominator(x as int, p, 2);
    assert(m == t / 2) by {
        assert(p * 2 == 2 * p);
    }
    let hb = t % 2;
    assert(x == m * (2 * p) + (hb * p + low)) by (nonlinear_arith)
        requires
            x == p * t + low,
            t == 2 * m + hb,
    ;
    assert(0 <= hb * p + low < 2 * p) by (nonlinear_arith)
        requires
            0 <= hb < 2,
            0 <= low < p,
    ;
    vstd::arithmetic::div_mod::lemma_fundamental_div_mod_converse(
        x as int,
        2 * p,
        m as int,
        hb * p + low,
    );
    assert(rest == hb * p + low);
    // the two extra bits of t
    vstd::arithmetic::div_mod::lemma_fundamental_div_mod(t as int, 4);
    vstd::arithmetic::div_mod::lemma_mod_mod(t as int, 2, 2);
    assert(t % 4 == 2 * (m % 2) + hb) by {
        vstd::arithmetic::div_mod::lemma_fundamental_div_mod(m as int, 2);
        vstd::arithmetic::div_mod::lemma_fundamental_div_mod_converse(
            t as int,
            4,
            (m / 2) as int,
            (2 * (m % 2) + hb) as int,
        );
    }
    if hb == 1 {
        assert(rest == p + low) by (nonlinear_arith)
            requires
                rest == hb * p + low,
                hb == 1,
        ;
    } else {
        assert(rest == low) by (nonlinear_arith)
            requires
                rest == hb * p + low,
                hb == 0,
        ;
    }
}

impl UBig {
    /// The bits of the `f64` nearest to the number, ties to even, for numbers of more than 64
    /// bits: infinity from `2^1024` on, else the exponent field `e + 1023` and the 52 stored bits
    /// of the significand, where a rounding up to the next power of two carries into the
    /// exponent.
    pub fn to_f64_bits_slow(&self) -> (r: u64)
        requires
            self@ >= pow2(64),
        ensures
            self@ >= pow2(1024) ==> r == f64_infinity_bits(),
            forall|e: nat|
                is_ilog2(self@, e) && e < 1024 ==> r == (e + 1022) * pow2(52) + round_half_even(
                    self@,
                    (e - 52) as nat,
                ),
    {
        let e = match self.ilog2() {
            Some(e) => e,
            None => {
                proof {
                    lemma_pow2_pos(64);
                }
                0
            },
        };
        proof {
            lemma_ilog2_unique(self@, e as nat);
            lemma_pow2_strictly_increasing_below(self@, e as nat, 64);
        }
        if e >= 1024 {
            proof {
                if self@ < pow2(1024) {
                    lemma_pow2_le(1024, e as nat);
                }
            }
            return 0x7ff0_0000_0000_0000;
        }
        proof {
            if self@ >= pow2(1024) {
                lemma_pow2_le(e as nat + 1, 1024);
            }
        }
        let shifted = self.shr(e - 53);
        proof {
            lemma_top_bits(self@, e as nat, 53);
        }
        let mantissa54 = word_of(&shifted);
        let mantissa = mantissa54 >> 1;
        proof {
            lemma2_to64_rest();
            let t = mantissa54;
            assert(t >> 1 == t / 2) by (bit_vector);
            let ex: u64 = (e as u64 + 1022) as u64;
            assert(ex << 52 == ex * 0x10_0000_0000_0000) by (bit_vector)
                requires
                    ex < 2048,
            ;
        }
        let value = ((e as u64 + 1022) << 52) + mantissa;
        // Calculate round-to-even adjustment.
        let tz = self.trailing_zeros();
        let extra_bit = match tz {
            Some(z) => z < e - 53,
            None => false,
        };
        proof {
            lemma_sticky(self@, (e - 53) as nat, extra_bit, tz);
        }
        // low bit of mantissa and two extra bits
        let low_bits = (((mantissa54 & 0b11) as u32) << 1) | (if extra_bit {
            1u32
        } else {
            0
        });
        let adjustment = round_to_even_adjustment(low_bits);
        proof {
            let t = mantissa54;
            assert(t >> 1 == t / 2) by (bit_vector);
            assert((t & 3) as u32 == t % 4) by (bit_vector);
            let lb = (t % 4) as u32;
            assert(((lb << 1) | (if extra_bit { 1u32 } else { 0 })) == lb * 2 + (if extra_bit {
                1u32
            } else {
                0
            })) by (bit_vector)
                requires
                    lb < 4,
            ;
            lemma_rounding(self@, (e - 53) as nat, t as nat, extra_bit);
            assert((e - 53) as nat + 1 == (e - 52) as nat);
            let ex: u64 = (e as u64 + 1022) as u64;
            assert(ex << 52 == ex * 0x10_0000_0000_0000) by (bit_vector)
                requires
                    ex < 2048,
            ;
            lemma2_to64_rest();
        }
        // If adjustment is true, increase the mantissa.
        // If the mantissa overflows, this correctly increases the exponent and
        // sets the mantissa to 0.
        // If the exponent overflows, we correctly get the representation of infinity.
        value + if adjustment {
            1
        } else {
            0
        }
    }

    /// The bits of the `f32` nearest to the number, ties to even, for numbers of more than 32
    /// bits: infinity from `2^128` on, else the exponent field `e + 127` and the 23 stored bits
    /// of the significand, where a rounding up to the next power of two carries into the
    /// exponent.
    pub fn to_f32_bits_slow(&self) -> (r: u32)
        requires
            self@ >= pow2(32),
        ensures
            self@ >= pow2(128) ==> r == f32_infinity_bits(),
            forall|e: nat|
                is_ilog2(self@, e) && e < 128 ==> r == (e + 126) * pow2(23) + round_half_even(
                    self@,
                    (e - 23) as nat,
                ),
    {
        let e = match self.ilog2() {
            Some(e) => e,
            None => {
                proof {
                    lemma_pow2_pos(32);
                }
                0
            },
        };
        proof {
            lemma_ilog2_unique(self@, e as nat);
            lemma_pow2_strictly_increasing_below(self@, e as nat, 32);
        }
        if e >= 128 {
            proof {
                if self@ < pow2(128) {
                    lemma_pow2_le(128, e as nat);
                }
            }
            return 0x7f80_0000;
        }
        proof {
            if self@ >= pow2(128) {
                lemma_pow2_le(e as nat + 1, 128);
            }
        }
        let shifted = self.shr(e - 24);
        proof {
            lemma_top_bits(self@, e as nat, 24);
        }
        let mantissa25_word = word_of(&shifted);
        proof {
            lemma2_to64();
        }
        let mantissa25 = mantissa25_word as u32;
        let mantissa = mantissa25 >> 1;
        proof {
            let t = mantissa25;
            assert(t >> 1 == t / 2) by (bit_vector);
            let ex: u32 = (e as u32 + 126) as u32;
            assert(ex << 23 == ex * 0x80_0000) by (bit_vector)
                requires
                    ex < 256,
            ;
        }
        let value = ((e as u32 + 126) << 23) + mantissa;
        // Calculate round-to-even adjustment.
        let tz = self.trailing_zeros();
        let extra_bit = match tz {
            Some(z) => z < e - 24,
            None => false,
        };
        proof {
            lemma_sticky(self@, (e - 24) as nat, extra_bit, tz);
        }
        // low bit of mantissa and two extra bits
        let low_bits = ((mantissa25 & 0b11) << 1) | (if extra_bit {
            1u32
        } else {
            0
        });
        let adjustment = round_to_even_adjustment(low_bits);
        proof {
            let t = mantissa25;
            assert(t >> 1 == t / 2) by (bit_vector);
            assert(t & 3 == t % 4) by (bit_vector);
            let lb = t % 4;
            assert(((lb << 1) | (if extra_bit { 1u32 } else { 0 })) == lb * 2 + (if extra_bit {
                1u32
            } else {
                0
            })) by (bit_vector)
                requires
                    lb < 4,
            ;
            lemma_rounding(self@, (e - 24) as nat, t as nat, extra_bit);
            assert((e - 24) as nat + 1 == (e - 23) as nat);
            let ex: u32 = (e as u32 + 126) as u32;
            assert(ex << 23 == ex * 0x80_0000) by (bit_vector)
                requires
                    ex < 256,
            ;
            lemma2_to64();
        }
        value + if adjustment {
            1
        } else {
            0
        }
    }
}

/// Powers of two grow with the exponent.
proof fn lemma_pow2_le(a: nat, b: nat)
    requires
        a <= b,
    ensures
        pow2(a) <= pow2(b),
{
    if a < b {
        vstd::arithmetic::power2::lemma_pow2_strictly_increases(a, b);
    }
}

/// The floor of the logarithm base 2 is unique.
proof fn lemma_ilog2_unique(x: nat, e: nat)
    requires
        is_ilog2(x, e),
    ensures
        forall|f: nat| is_ilog2(x, f) ==> f == e,
{
    assert forall|f: nat| is_ilog2(x, f) implies f == e by {
        if f < e {
            lemma_pow2_le(f + 1, e);
        } else if f > e {
            lemma_pow2_le(e + 1, f);
        }
    }
}

/// A number of at least `2^b` has a logarithm of at least `b`.
proof fn lemma_pow2_strictly_increasing_below(x: nat, e: nat, b: nat)
    requires
        is_ilog2(x, e),
        x >= pow2(b),
    ensures
        e >= b,
{
    if e < b {
        lemma_pow2_le(e + 1, b);
    }
}

/// The top `p + 1` bits of a number whose highest bit is `e`: `x >> (e - p)` is below `2^(p+1)`.
proof fn lemma_top_bits(x: nat, e: nat, p: nat)
    requires
        is_ilog2(x, e),
        e >= p,
        p <= 63,
    ensures
        x / pow2((e - p) as nat) < pow2(p + 1),
        x / pow2((e - p) as nat) >= pow2(p),
        pow2(p + 1) <= 0x1_0000_0000_0000_0000,
{
    let k = (e - p) as nat;
    lemma_pow2_adds(k, p + 1);
    lemma_pow2_adds(k, p);
    lemma_pow2_pos(k);
    lemma2_to64();
    lemma2_to64_rest();
    lemma_pow2_le(p + 1, 64);
    vstd::arithmetic::div_mod::lemma_div_is_ordered(pow2(k + p) as int, x as int, pow2(k) as int);
    vstd::arithmetic::div_mod::lemma_div_multiples_vanish(pow2(p) as int, pow2(k) as int);
    assert(pow2(k) * pow2(p) == pow2(p) * pow2(k)) by (nonlinear_arith);
    vstd::arithmetic::div_mod::lemma_div_multiples_vanish(pow2(p + 1) as int, pow2(k) as int);
    assert(pow2(k) * pow2(p + 1) == pow2(p + 1) * pow2(k)) by (nonlinear_arith);
    vstd::arithmetic::div_mod::lemma_div_by_multiple_is_strongly_ordered(
        x as int,
        pow2(k + p + 1) as int,
        pow2(p + 1) as int,
        pow2(k) as int,
    );
}

/// The bits below position `k` are not all zero exactly when there are fewer than `k` trailing
/// zeros.
proof fn lemma_sticky(x: nat, k: nat, sticky: bool, tz: Option<usize>)
    requires
        x > 0,
        tz matches Some(z) && crate::bits::is_trailing_zeros(x, z as nat),
        sticky == (tz matches Some(z) && z < k),
    ensures
        sticky == (x % pow2(k) != 0),
{
    let z = tz->0 as nat;
    lemma_pow2_pos(z);
    lemma_pow2_pos(k);
    if z < k {
        // x = 2^z * odd, and 2^k does not divide it
        lemma_pow2_adds(z, (k - z) as nat);
        vstd::arithmetic::div_mod::lemma_fundamental_div_mod(x as int, pow2(z) as int);
        let odd = x / pow2(z);
        if x % pow2(k) == 0 {
            vstd::arithmetic::div_mod::lemma_fundamental_div_mod(x as int, pow2(k) as int);
            let q = x / pow2(k);
            vstd::arithmetic::power2::lemma_pow2_unfold((k - z) as nat);
            let h = pow2((k - z - 1) as nat);
            assert(pow2(z) * odd == pow2(z) * (2 * (h * q))) by (nonlinear_arith)
                requires
                    x == pow2(z) * odd,
                    x == pow2(k) * q,
                    pow2(k) == pow2(z) * pow2((k - z) as nat),
                    pow2((k - z) as nat) == 2 * h,
            ;
            vstd::arithmetic::mul::lemma_mul_equality_converse(
                pow2(z) as int,
                odd as int,
                (2 * (h * q)) as int,
            );
            vstd::arithmetic::div_mod::lemma_mod_multiples_basic((h * q) as int, 2);
            assert(2 * (h * q) == (h * q) * 2) by (nonlinear_arith);
        }
    } else {
        // 2^k divides 2^z, which divides x
        lemma_pow2_adds(k, (z - k) as nat);
        vstd::arithmetic::div_mod::lemma_fundamental_div_mod(x as int, pow2(z) as int);
        let odd = x / pow2(z);
        assert(x == pow2(k) * (pow2((z - k) as nat) * odd)) by (nonlinear_arith)
            requires
                x == pow2(z) * odd,
                pow2(z) == pow2(k) * pow2((z - k) as nat),
        ;
        vstd::arithmetic::div_mod::lemma_mod_multiples_basic(
            (pow2((z - k) as nat) * odd) as int,
            pow2(k) as int,
        );
        assert(pow2(k) * (pow2((z - k) as nat) * odd) == (pow2((z - k) as nat) * odd) * pow2(k))
            by (nonlinear_arith);
    }
}

} // verus!
