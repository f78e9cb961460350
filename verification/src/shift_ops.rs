//! Bit shifts of unsigned big integers.

use crate::add_ops::word_of_short;
use crate::buffer::{Buffer, MAX_CAPACITY, MAX_LEN};
use crate::primitive::{double_word, extend_word, split_double_word, word_base, Word, WORD_BITS_USIZE};
use crate::shift::{shl_in_place, shr_in_place};
use crate::ubig::{fits, UBig};
use crate::value::{
    is_normalized, lemma_pow_base_add, lemma_pow_base_mono, lemma_pow_base_pos,
    lemma_to_nat_append, lemma_to_nat_bound, lemma_to_nat_normalized_lower, lemma_to_nat_push,
    lemma_to_nat_single, lemma_to_nat_split, lemma_to_nat_zeros, pow_base, to_nat, zeros,
};
use vstd::arithmetic::power2::{lemma2_to64, lemma2_to64_rest, lemma_pow2_adds, lemma_pow2_pos, pow2};
use vstd::prelude::*;

verus! {

/// `B^k == 2^(64k)`.
pub proof fn lemma_pow_base_pow2(k: nat)
    ensures
        pow_base(k) == pow2(64 * k),
    decreases k,
{
    if k == 0 {
        lemma2_to64();
    } else {
        lemma_pow_base_pow2((k - 1) as nat);
        lemma_pow2_adds(64, 64 * (k - 1) as nat);
        lemma2_to64_rest();
        assert(64 + 64 * (k - 1) as nat == 64 * k);
    }
}

/// `2^n == B^(n / 64) * 2^(n % 64)`.
pub proof fn lemma_pow2_split(n: nat)
    ensures
        pow2(n) == pow_base(n / 64) * pow2(n % 64),
        pow2(n % 64) < word_base(),
        pow2(n % 64) > 0,
{
    lemma_pow_base_pow2(n / 64);
    lemma_pow2_adds(64 * (n / 64), n % 64);
    assert(64 * (n / 64) + n % 64 == n);
    vstd::bits::lemma_u64_pow2_no_overflow(n % 64);
    lemma_pow2_pos(n % 64);
}

/// `2^s` for `s < 64`.
pub fn pow2_word(s: u32) -> (r: Word)
    requires
        s < 64,
    ensures
        r == pow2(s as nat),
{
    proof {
        vstd::bits::lemma_u64_pow2_no_overflow(s as nat);
        vstd::bits::lemma_u64_shl_is_mul(1, s as u64);
    }
    1u64 << (s as u64)
}

/// A non-zero number shifted by `rhs` bits that fits has at most `MAX_LEN` words, counting
/// `rhs / 64` words for the shift.
proof fn lemma_shl_len(s: Seq<Word>, rhs: nat)
    requires
        is_normalized(s),
        s.len() > 0,
        fits(to_nat(s) * pow2(rhs)),
    ensures
        s.len() + rhs / 64 <= MAX_LEN,
{
    lemma_to_nat_normalized_lower(s);
    lemma_pow2_split(rhs);
    let pl = pow_base((s.len() - 1) as nat) as int;
    let pw = pow_base(rhs / 64) as int;
    let pb = pow2(rhs % 64) as int;
    lemma_pow_base_pos((s.len() - 1) as nat);
    lemma_pow_base_pos(rhs / 64);
    let x = to_nat(s) as int;
    assert(pl * pw <= x * (pw * pb)) by (nonlinear_arith)
        requires
            0 < pl <= x,
            0 < pw,
            0 < pb,
    ;
    lemma_pow_base_add((s.len() - 1) as nat, rhs / 64);
    if s.len() + rhs / 64 > MAX_LEN {
        lemma_pow_base_mono(MAX_LEN as nat, ((s.len() - 1) + rhs / 64) as nat);
    }
}

impl UBig {
    /// Shift left one non-zero `Word` by `rhs` bits.
    pub fn shl_word(word: Word, rhs: usize) -> (r: UBig)
        requires
            word != 0,
            fits(word as nat * pow2(rhs as nat)),
        ensures
            r@ == word as nat * pow2(rhs as nat),
    {
        UBig::shl_word_slow(word, rhs)
    }

    /// Shift left one non-zero `Word` by `rhs` bits.
    pub fn shl_word_slow(word: Word, rhs: usize) -> (r: UBig)
        requires
            word != 0,
            fits(word as nat * pow2(rhs as nat)),
        ensures
            r@ == word as nat * pow2(rhs as nat),
    {
        let shift_words = rhs / WORD_BITS_USIZE;
        let shift_bits = (rhs % WORD_BITS_USIZE) as u32;
        let p = pow2_word(shift_bits);
        proof {
            lemma_to_nat_single(word);
            lemma_shl_len(seq![word], rhs as nat);
            lemma_pow2_split(rhs as nat);
            crate::primitive::lemma_mul_word_bound(word, p);
        }
        let (lo, hi) = split_double_word(extend_word(word) * extend_word(p));
        let mut buffer = Buffer::allocate(shift_words + 2);
        buffer.push_zeros(shift_words);
        buffer.push(lo);
        buffer.push(hi);
        proof {
            let z = zeros(shift_words as nat);
            assert(buffer@ =~= z + seq![lo, hi]);
            assert(seq![lo, hi] =~= seq![lo].push(hi));
            lemma_to_nat_push(seq![lo], hi);
            lemma_to_nat_single(lo);
            crate::value::lemma_pow_base_step(0);
            lemma_to_nat_append(z, seq![lo, hi]);
            lemma_to_nat_zeros(shift_words as nat);
            let pw = pow_base(shift_words as nat) as int;
            let pb = pow2(shift_bits as nat) as int;
            assert(pw * (word * pb) == word * (pw * pb)) by (nonlinear_arith);
        }
        UBig::from_buffer(buffer)
    }

    /// Shift left `buffer` by `rhs` bits.
    pub fn shl_large(buffer: Buffer, rhs: usize) -> (r: UBig)
        requires
            buffer.wf(),
            is_normalized(buffer@),
            buffer@.len() > 0,
            fits(to_nat(buffer@) * pow2(rhs as nat)),
        ensures
            r@ == to_nat(buffer@) * pow2(rhs as nat),
    {
        let mut buffer = buffer;
        let ghost b0 = buffer@;
        let shift_words = rhs / WORD_BITS_USIZE;
        proof {
            lemma_shl_len(b0, rhs as nat);
            lemma_pow2_split(rhs as nat);
        }
        if buffer.capacity() < buffer.len() + shift_words + 1 {
            return UBig::shl_ref_large(buffer.as_slice(), rhs);
        }
        let shift_bits = (rhs % WORD_BITS_USIZE) as u32;
        let carry = shl_in_place(buffer.as_mut_slice(), shift_bits);
        let ghost b1 = buffer@;
        buffer.push(carry);
        let ghost b2 = buffer@;
        buffer.push_zeros_front(shift_words);
        proof {
            lemma_to_nat_push(b1, carry);
            let z = zeros(shift_words as nat);
            lemma_to_nat_append(z, b2);
            lemma_to_nat_zeros(shift_words as nat);
            let pw = pow_base(shift_words as nat) as int;
            let pb = pow2(shift_bits as nat) as int;
            let x = to_nat(b0) as int;
            assert(pw * (x * pb) == x * (pw * pb)) by (nonlinear_arith);
        }
        UBig::from_buffer(buffer)
    }

    /// Shift left large number of words by `rhs` bits.
    pub fn shl_ref_large(words: &[Word], rhs: usize) -> (r: UBig)
        requires
            is_normalized(words@),
            words@.len() > 0,
            fits(to_nat(words@) * pow2(rhs as nat)),
        ensures
            r@ == to_nat(words@) * pow2(rhs as nat),
    {
        let shift_words = rhs / WORD_BITS_USIZE;
        let shift_bits = (rhs % WORD_BITS_USIZE) as u32;
        proof {
            lemma_shl_len(words@, rhs as nat);
            lemma_pow2_split(rhs as nat);
        }
        let mut buffer = Buffer::allocate(shift_words + words.len() + 1);
        buffer.push_zeros(shift_words);
        buffer.extend(words);
        let ghost z = zeros(shift_words as nat);
        let ghost w1: Seq<Word>;
        let carry = {
            let s = buffer.as_mut_slice();
            let (_lo, hi) = s.split_at_mut(shift_words);
            let ghost h0 = hi@;
            let c = shl_in_place(hi, shift_bits);
            proof {
                w1 = hi@;
                assert(h0 =~= words@);
            }
            c
        };
        let ghost b1 = buffer@;
        buffer.push(carry);
        proof {
            assert(b1 =~= z + w1);
            assert(buffer@ =~= z + w1.push(carry));
            lemma_to_nat_push(w1, carry);
            lemma_to_nat_append(z, w1.push(carry));
            lemma_to_nat_zeros(shift_words as nat);
            let pw = pow_base(shift_words as nat) as int;
            let pb = pow2(shift_bits as nat) as int;
            let x = to_nat(words@) as int;
            assert(pw * (x * pb) == x * (pw * pb)) by (nonlinear_arith);
        }
        UBig::from_buffer(buffer)
    }

    /// `self << rhs`.
    pub fn shl(&self, rhs: usize) -> (r: UBig)
        requires
            fits(self@ * pow2(rhs as nat)),
        ensures
            r@ == self@ * pow2(rhs as nat),
    {
        let a = self.as_words();
        if a.len() == 0 {
            proof {
                assert(0 * pow2(rhs as nat) == 0) by (nonlinear_arith);
            }
            UBig::from_word(0)
        } else if a.len() == 1 {
            proof {
                assert(a@ =~= seq![a@[0]]);
                lemma_to_nat_single(a@[0]);
            }
            UBig::shl_word(a[0], rhs)
        } else {
            UBig::shl_ref_large(a, rhs)
        }
    }

    /// `self <<= rhs`.
    pub fn shl_assign(&mut self, rhs: usize)
        requires
            fits(old(self)@ * pow2(rhs as nat)),
        ensures
            final(self)@ == old(self)@ * pow2(rhs as nat),
    {
        if self.is_zero() {
            proof {
                assert(0 * pow2(rhs as nat) == 0) by (nonlinear_arith);
            }
            return;
        }
        let mut value = UBig::from_word(0);
        std::mem::swap(self, &mut value);
        let buffer = value.into_buffer();
        proof {
            crate::value::lemma_to_nat_zero_iff(buffer@);
            if buffer@.len() == 0 {
                assert(to_nat(buffer@) == 0);
            }
        }
        *self = UBig::shl_large(buffer, rhs);
    }

    /// Shift right one `Word` by `rhs` bits.
    pub fn shr_word(word: Word, rhs: usize) -> (r: UBig)
        ensures
            r@ == word as nat / pow2(rhs as nat),
    {
        let word = if rhs < WORD_BITS_USIZE {
            proof {
                vstd::bits::lemma_u64_shr_is_div(word, rhs as u64);
            }
            word >> (rhs as u64)
        } else {
            proof {
                lemma2_to64_rest();
                if rhs > 64 {
                    vstd::arithmetic::power2::lemma_pow2_strictly_increases(64, rhs as nat);
                }
                vstd::arithmetic::div_mod::lemma_basic_div(word as int, pow2(rhs as nat) as int);
            }
            0
        };
        UBig::from_word(word)
    }

    /// Shift right `buffer` by `rhs` bits.
    pub fn shr_large(buffer: Buffer, rhs: usize) -> (r: UBig)
        requires
            buffer.wf(),
            fits(to_nat(buffer@)),
        ensures
            r@ == to_nat(buffer@) / pow2(rhs as nat),
    {
        let mut buffer = buffer;
        let ghost b0 = buffer@;
        let shift_words = rhs / WORD_BITS_USIZE;
        proof {
            lemma_pow2_split(rhs as nat);
            lemma_pow_base_pos(shift_words as nat);
        }
        if shift_words >= buffer.len() {
            proof {
                lemma_to_nat_bound(b0);
                lemma_pow_base_mono(b0.len(), shift_words as nat);
                let pw = pow_base(shift_words as nat) as int;
                let pb = pow2((rhs % 64) as nat) as int;
                assert(pw <= pw * pb) by (nonlinear_arith)
                    requires
                        pw > 0,
                        pb > 0,
                ;
                vstd::arithmetic::div_mod::lemma_basic_div(to_nat(b0) as int, pow2(rhs as nat) as int);
            }
            return UBig::from_word(0);
        }
        let shift_bits = (rhs % WORD_BITS_USIZE) as u32;
        buffer.erase_front(shift_words);
        let ghost b1 = buffer@;
        shr_in_place(buffer.as_mut_slice(), shift_bits);
        proof {
            lemma_shr_skip_value(b0, shift_words as nat, shift_bits as nat, rhs as nat);
            lemma_pow2_pos(rhs as nat);
            crate::div_ops::lemma_quotient_fits(to_nat(b0), pow2(rhs as nat));
        }
        UBig::from_buffer(buffer)
    }

    /// Shift right large number of words by `rhs` bits.
    pub fn shr_large_ref(words: &[Word], rhs: usize) -> (r: UBig)
        requires
            words@.len() <= MAX_LEN,
        ensures
            r@ == to_nat(words@) / pow2(rhs as nat),
    {
        let shift_words = rhs / WORD_BITS_USIZE;
        let shift_bits = (rhs % WORD_BITS_USIZE) as u32;
        let start = crate::math::min_usize(shift_words, words.len());
        let (_lo, rest) = words.split_at(start);
        proof {
            lemma_pow2_split(rhs as nat);
            lemma_pow_base_pos(shift_words as nat);
            vstd::bits::lemma_u64_pow2_no_overflow(shift_bits as nat);
            assert(rest@ =~= words@.skip(start as int));
            if shift_words >= words@.len() {
                lemma_to_nat_bound(words@);
                lemma_pow_base_mono(words@.len(), shift_words as nat);
                let pw = pow_base(shift_words as nat) as int;
                let pb = pow2(shift_bits as nat) as int;
                assert(pw <= pw * pb) by (nonlinear_arith)
                    requires
                        pw > 0,
                        pb > 0,
                ;
                vstd::arithmetic::div_mod::lemma_basic_div(to_nat(words@) as int, pow2(rhs as nat) as int);
                assert(rest@ =~= Seq::<Word>::empty());
            } else {
                lemma_shr_skip_value(words@, shift_words as nat, shift_bits as nat, rhs as nat);
            }
        }
        if rest.len() == 0 {
            UBig::from_word(0)
        } else if rest.len() == 1 {
            proof {
                assert(rest@ =~= seq![rest@[0]]);
                lemma_to_nat_single(rest@[0]);
                vstd::bits::lemma_u64_shr_is_div(rest@[0], shift_bits as u64);
            }
            UBig::from_word(rest[0] >> (shift_bits as u64))
        } else if rest.len() == 2 {
            let dw = double_word(rest[0], rest[1]) >> (shift_bits as u128);
            proof {
                assert(rest@ =~= seq![rest@[0]].push(rest@[1]));
                lemma_to_nat_push(seq![rest@[0]], rest@[1]);
                lemma_to_nat_single(rest@[0]);
                crate::value::lemma_pow_base_step(0);
                vstd::bits::lemma_u128_shr_is_div(double_word_spec(rest@[0], rest@[1]), shift_bits as u128);
            }
            UBig::from_double_word(dw)
        } else {
            let mut buffer = Buffer::allocate(rest.len());
            buffer.extend(rest);
            proof {
                assert(buffer@ =~= rest@);
            }
            shr_in_place(buffer.as_mut_slice(), shift_bits);
            proof {
                UBig::lemma_words_fit(buffer@);
            }
            UBig::from_buffer(buffer)
        }
    }

    /// `self >> rhs`.
    pub fn shr(&self, rhs: usize) -> (r: UBig)
        ensures
            r@ == self@ / pow2(rhs as nat),
    {
        let a = self.as_words();
        if a.len() <= 1 {
            UBig::shr_word(word_of_short(a), rhs)
        } else {
            UBig::shr_large_ref(a, rhs)
        }
    }

    /// `self >>= rhs`.
    pub fn shr_assign(&mut self, rhs: usize)
        ensures
            final(self)@ == old(self)@ / pow2(rhs as nat),
    {
        let mut value = UBig::from_word(0);
        std::mem::swap(self, &mut value);
        let buffer = value.into_buffer();
        proof {
            UBig::lemma_words_fit(buffer@);
        }
        *self = UBig::shr_large(buffer, rhs);
    }

    /// A number from a `DoubleWord`.
    pub fn from_double_word(dw: u128) -> (r: UBig)
        ensures
            r@ == dw,
    {
        let (lo, hi) = split_double_word(dw);
        let mut buffer = Buffer::allocate(2);
        buffer.push(lo);
        buffer.push(hi);
        proof {
            assert(buffer@ =~= seq![lo].push(hi));
            lemma_to_nat_single(lo);
            lemma_to_nat_push(seq![lo], hi);
            crate::value::lemma_pow_base_step(0);
            crate::value::lemma_pow_base_step(1);
            UBig::lemma_fits_small(dw as nat);
        }
        UBig::from_buffer(buffer)
    }
}

/// The double word made of `lo` and `hi`.
pub open spec fn double_word_spec(lo: Word, hi: Word) -> u128 {
    (lo + hi * word_base()) as u128
}

/// Dropping `k` words and shifting by `bits` divides by `2^(64k + bits)`.
proof fn lemma_shr_skip_value(s: Seq<Word>, k: nat, bits: nat, rhs: nat)
    requires
        k <= s.len(),
        rhs == 64 * k + bits,
        bits < 64,
    ensures
        to_nat(s) / pow2(rhs) == to_nat(s.skip(k as int)) / pow2(bits),
{
    lemma_to_nat_split(s, k as int);
    lemma_to_nat_bound(s.take(k as int));
    lemma_pow_base_pow2(k);
    lemma_pow2_adds(64 * k, bits);
    lemma_pow2_pos(bits);
    lemma_pow_base_pos(k);
    let pw = pow_base(k) as int;
    let lo = to_nat(s.take(k as int)) as int;
    let hi = to_nat(s.skip(k as int)) as int;
    vstd::arithmetic::div_mod::lemma_div_multiples_vanish_fancy(hi, lo, pw);
    vstd::arithmetic::div_mod::lemma_div_denominator(to_nat(s) as int, pw, pow2(bits) as int);
    assert(pw * hi + lo == lo + pw * hi);
}

} // verus!
