//! Mathematical functions on words.

use crate::primitive::{Word, WORD_BITS};
use vstd::arithmetic::power2::{lemma2_to64, lemma2_to64_rest, lemma_pow2_adds, lemma_pow2_pos, pow2};
use vstd::bits::lemma_u64_shr_is_div;
use vstd::prelude::*;
use vstd::std_specs::bits::u64_leading_zeros;

verus! {

/// The length of a number in bits: 0 for 0.
pub open spec fn spec_bit_len(x: nat) -> nat
    decreases x,
{
    if x == 0 {
        0
    } else {
        1 + spec_bit_len(x / 2)
    }
}

/// `bit_len(x) == n` exactly when `2^(n-1) <= x < 2^n` (and `n == 0` for 0).
pub proof fn lemma_bit_len_bounds(x: nat)
    ensures
        x < pow2(spec_bit_len(x)),
        x > 0 ==> pow2((spec_bit_len(x) - 1) as nat) <= x,
        x == 0 <==> spec_bit_len(x) == 0,
    decreases x,
{
    if x == 0 {
        lemma2_to64();
    } else {
        lemma_bit_len_bounds(x / 2);
        let n = spec_bit_len(x / 2);
        vstd::arithmetic::power2::lemma_pow2_unfold(n + 1);
        assert((n + 1 - 1) as nat == n);
        if x / 2 > 0 {
            vstd::arithmetic::power2::lemma_pow2_unfold(n);
        } else {
            lemma2_to64();
        }
    }
}

/// The bit length is determined by the bounds `2^(n-1) <= x < 2^n`.
pub proof fn lemma_bit_len_unique(x: nat, n: nat)
    requires
        x < pow2(n),
        n > 0 ==> pow2((n - 1) as nat) <= x,
    ensures
        spec_bit_len(x) == n,
    decreases x,
{
    lemma_bit_len_bounds(x);
    let m = spec_bit_len(x);
    if m < n {
        // x < 2^m <= 2^(n-1) <= x
        if n > 0 {
            vstd::arithmetic::power2::lemma_pow2_strictly_increases(m, n);
            if m < (n - 1) as nat {
                vstd::arithmetic::power2::lemma_pow2_strictly_increases(m, (n - 1) as nat);
            }
        }
    } else if m > n {
        vstd::arithmetic::power2::lemma_pow2_strictly_increases(n, m);
        if n < (m - 1) as nat {
            vstd::arithmetic::power2::lemma_pow2_strictly_increases(n, (m - 1) as nat);
        }
    }
}

pub proof fn lemma_leading_zeros_bit_len(x: u64)
    ensures
        64 - u64_leading_zeros(x) == spec_bit_len(x as nat),
        0 <= u64_leading_zeros(x) <= 64,
    decreases x,
{
    reveal(u64_leading_zeros);
    if x != 0 {
        lemma_leading_zeros_bit_len(x / 2);
    }
}

/// Shifting a non-zero word left by its number of leading zeros sets the top bit.
pub proof fn lemma_leading_zeros_normalizes(x: u64)
    requires
        x != 0,
    ensures
        0 <= u64_leading_zeros(x) < 64,
        x * pow2(u64_leading_zeros(x) as nat) < 0x1_0000_0000_0000_0000,
        x * pow2(u64_leading_zeros(x) as nat) >= 0x8000_0000_0000_0000,
{
    lemma_leading_zeros_bit_len(x);
    lemma_bit_len_bounds(x as nat);
    let n = spec_bit_len(x as nat);
    let z = u64_leading_zeros(x) as nat;
    lemma_pow2_adds(z, n);
    lemma_pow2_adds(z, (n - 1) as nat);
    lemma2_to64_rest();
    lemma_pow2_pos(z);
    assert(z + n == 64);
    assert(z + (n - 1) as nat == 63);
    vstd::arithmetic::mul::lemma_mul_strict_inequality(x as int, pow2(n) as int, pow2(z) as int);
    vstd::arithmetic::mul::lemma_mul_inequality(pow2((n - 1) as nat) as int, x as int, pow2(z) as int);
    vstd::arithmetic::mul::lemma_mul_is_commutative(pow2(n) as int, pow2(z) as int);
    vstd::arithmetic::mul::lemma_mul_is_commutative(pow2((n - 1) as nat) as int, pow2(z) as int);
}

/// The length of a word in bits: 0 for 0.
pub fn bit_len(x: Word) -> (r: u32)
    ensures
        r == spec_bit_len(x as nat),
        r <= 64,
{
    proof {
        lemma_leading_zeros_bit_len(x);
    }
    WORD_BITS - x.leading_zeros()
}

/// Ceiling of log_2(x). `x` must be non-zero.
pub fn ceil_log_2(x: Word) -> (r: u32)
    requires
        x != 0,
    ensures
        r == spec_bit_len((x - 1) as nat),
        pow2(r as nat) >= x,
        r > 0 ==> pow2((r - 1) as nat) < x,
        r <= 64,
{
    proof {
        lemma_bit_len_bounds((x - 1) as nat);
    }
    bit_len(x - 1)
}

/// Ceiling of a / b.
pub fn ceil_div(a: Word, b: Word) -> (r: Word)
    requires
        b > 0,
    ensures
        r == (a + b - 1) / (b as int),
{
    if a == 0 {
        proof {
            vstd::arithmetic::div_mod::lemma_basic_div((b - 1) as int, b as int);
        }
        0
    } else {
        proof {
            vstd::arithmetic::div_mod::lemma_div_plus_one((a - 1) as int, b as int);
        }
        (a - 1) / b + 1
    }
}

/// Ceiling of a / b, on `usize`.
pub fn ceil_div_usize(a: usize, b: usize) -> (r: usize)
    requires
        b > 0,
    ensures
        r == (a + b - 1) / (b as int),
{
    if a == 0 {
        proof {
            vstd::arithmetic::div_mod::lemma_basic_div((b - 1) as int, b as int);
        }
        0
    } else {
        proof {
            vstd::arithmetic::div_mod::lemma_div_plus_one((a - 1) as int, b as int);
        }
        (a - 1) / b + 1
    }
}

/// Round up a to a multiple of b.
pub fn round_up(a: Word, b: Word) -> (r: Word)
    requires
        b > 0,
        (a + b - 1) / (b as int) * b <= Word::MAX,
    ensures
        r == (a + b - 1) / (b as int) * b,
        r >= a,
        r % b == 0,
        r < a + b,
{
    let c = ceil_div(a, b);
    proof {
        vstd::arithmetic::div_mod::lemma_fundamental_div_mod((a + b - 1) as int, b as int);
        vstd::arithmetic::div_mod::lemma_mod_multiples_basic(c as int, b as int);
        vstd::arithmetic::mul::lemma_mul_is_commutative(c as int, b as int);
    }
    c * b
}

/// n ones: 2^n - 1
pub fn ones(n: u32) -> (r: Word)
    requires
        n <= 64,
    ensures
        r == pow2(n as nat) - 1,
{
    if n == 0 {
        proof {
            lemma2_to64();
        }
        0
    } else {
        let k = WORD_BITS - n;
        proof {
            lemma_u64_shr_is_div(Word::MAX, k as u64);
            lemma2_to64_rest();
            lemma_pow2_adds(k as nat, n as nat);
            lemma_pow2_pos(k as nat);
            lemma_pow2_pos(n as nat);
            let pk = pow2(k as nat);
            let pn = pow2(n as nat);
            assert(Word::MAX as nat == pk * pn - 1);
            assert((pk * pn - 1) as nat == pk * (pn - 1) + (pk - 1)) by (nonlinear_arith)
                requires
                    pk > 0,
                    pn > 0,
            ;
            vstd::arithmetic::div_mod::lemma_div_multiples_vanish_fancy(
                (pn - 1) as int,
                (pk - 1) as int,
                pk as int,
            );
            vstd::arithmetic::mul::lemma_mul_is_commutative(pk as int, (pn - 1) as int);
        }
        Word::MAX >> k
    }
}

/// The smaller of two `usize` values.
pub fn min_usize(a: usize, b: usize) -> (r: usize)
    ensures
        r == if a < b {
            a
        } else {
            b
        },
{
    if a < b {
        a
    } else {
        b
    }
}

} // verus!
