//! Exponentiation.

use crate::ibig::{abs, ibig_fits, IBig};
use crate::sign::Sign;
use crate::ubig::{fits, UBig};
use vstd::arithmetic::power::{lemma_pow0, lemma_pow1, lemma_pow_adds, lemma_pow_increases, pow};
use vstd::arithmetic::power2::{lemma_pow2_pos, pow2};
use vstd::prelude::*;

verus! {

/// `x^2 == x * x`.
proof fn lemma_pow_two(x: int)
    ensures
        pow(x, 2) == x * x,
{
    lemma_pow_adds(x, 1, 1);
    lemma_pow1(x);
}

/// A power at most the final one fits when the final one does.
proof fn lemma_pow_fits(x: nat, k: nat, e: nat)
    requires
        x > 0,
        k <= e,
        fits(pow(x as int, e) as nat),
        pow(x as int, e) >= 0,
    ensures
        fits(pow(x as int, k) as nat),
        pow(x as int, k) > 0,
{
    lemma_pow_increases(x, k, e);
    vstd::arithmetic::power::lemma_pow_positive(x as int, k);
}

/// The bit below position `p + 1` splits the exponent: `e >> p == 2 * (e >> (p + 1)) + bit`.
proof fn lemma_exp_bits(e: nat, p: nat)
    ensures
        e / pow2(p) == 2 * (e / pow2(p + 1)) + (e / pow2(p)) % 2,
{
    lemma_pow2_pos(p);
    vstd::arithmetic::power2::lemma_pow2_unfold(p + 1);
    vstd::arithmetic::div_mod::lemma_div_denominator(e as int, pow2(p) as int, 2);
    vstd::arithmetic::div_mod::lemma_fundamental_div_mod((e / pow2(p)) as int, 2);
    vstd::arithmetic::mul::lemma_mul_is_commutative(pow2(p) as int, 2);
}

impl UBig {
    /// Raises self to the power of `exp`.
    pub fn pow(&self, exp: usize) -> (r: UBig)
        requires
            fits(pow(self@ as int, exp as nat) as nat),
        ensures
            r@ == pow(self@ as int, exp as nat),
    {
        let ghost x = self@ as int;
        proof {
            lemma_pow_nonneg(x, exp as nat);
        }
        match exp {
            0 => {
                proof {
                    lemma_pow0(x);
                }
                return UBig::from_word(1);
            },
            1 => {
                proof {
                    lemma_pow1(x);
                }
                return self.clone();
            },
            2 => {
                proof {
                    lemma_pow_two(x);
                }
                return self.mul(self);
            },
            _ => {},
        }
        if self.is_zero() {
            proof {
                vstd::arithmetic::power::lemma0_pow((exp - 1) as nat);
                lemma_zero_pow(exp as nat);
            }
            return UBig::from_word(0);
        }
        if self.is_one() {
            proof {
                vstd::arithmetic::power::lemma1_pow(exp as nat);
            }
            return UBig::from_word(1);
        }
        let words = self.as_words();
        if words.len() == 1 && words[0] == 2 {
            let mut x2 = UBig::from_word(0);
            proof {
                crate::value::lemma_to_nat_single(2);
                assert(words@ =~= seq![2u64]);
                vstd::arithmetic::power2::lemma_pow2(exp as nat);
                crate::bits::lemma_bit_zero_of_zero(exp as nat);
            }
            x2.set_bit(exp);
            return x2;
        }
        proof {
            lemma_pow_two(x);
            lemma_pow_fits(x as nat, 2, exp as nat);
        }
        let bl = crate::math::bit_len(exp as u64);
        let ghost e = exp as nat;
        proof {
            crate::math::lemma_bit_len_bounds(e);
            assert(bl >= 2) by {
                if bl < 2 {
                    vstd::arithmetic::power2::lemma2_to64();
                }
            }
            lemma_top_bit(e, (bl - 1) as nat);
        }
        let mut p: u32 = bl - 2;
        let mut res = self.mul(self);
        loop
            invariant_except_break
                res@ == pow(x, 2 * (e / pow2(p as nat + 1))),
            invariant
                x == self@,
                x >= 2,
                e == exp,
                e >= 3,
                fits(pow(x, e) as nat),
                pow(x, e) >= 0,
                p < 64,
            ensures
                res@ == pow(x, e),
            decreases p,
        {
            let ghost k = e / pow2(p as nat + 1);
            proof {
                lemma_exp_bits(e, p as nat);
                lemma_div_pow2_le(e, p as nat);
                vstd::bits::lemma_u64_shr_is_div(exp as u64, p as u64);
            }
            if (exp as u64 >> (p as u64)) & 1 != 0 {
                proof {
                    let v = exp as u64 >> (p as u64);
                    assert((v & 1) != 0 ==> v % 2 == 1) by (bit_vector);
                    lemma_pow_adds(x, 2 * k, 1);
                    lemma_pow1(x);
                    lemma_pow_fits(x as nat, 2 * k + 1, e);
                    assert(2 * k + 1 == e / pow2(p as nat));
                }
                res.mul_assign(self);
            } else {
                proof {
                    let v = exp as u64 >> (p as u64);
                    assert((v & 1) == 0 ==> v % 2 == 0) by (bit_vector);
                }
            }
            proof {
                assert(res@ == pow(x, e / pow2(p as nat)));
            }
            if p == 0 {
                proof {
                    vstd::arithmetic::power2::lemma2_to64();
                    vstd::arithmetic::div_mod::lemma_div_basics_2(e as int);
                    assert(e / pow2(0) == e);
                }
                break;
            }
            p -= 1;
            proof {
                let m = e / pow2(p as nat + 1);
                lemma_exp_bits(e, p as nat);
                lemma_div_pow2_le(e, p as nat);
                lemma_pow_adds(x, m, m);
                assert(2 * m == m + m);
                lemma_pow_fits(x as nat, 2 * m, e);
            }
            res = res.mul(&res);
        }
        res
    }
}

/// Powers of non-negative numbers are non-negative.
pub proof fn lemma_pow_nonneg(x: int, e: nat)
    requires
        x >= 0,
    ensures
        pow(x, e) >= 0,
    decreases e,
{
    reveal(pow);
    if e > 0 {
        lemma_pow_nonneg(x, (e - 1) as nat);
        vstd::arithmetic::mul::lemma_mul_nonnegative(x, pow(x, (e - 1) as nat));
    }
}

/// `e / 2^p <= e`.
proof fn lemma_div_pow2_le(e: nat, p: nat)
    ensures
        e / pow2(p) <= e,
{
    lemma_pow2_pos(p);
    vstd::arithmetic::div_mod::lemma_div_is_ordered_by_denominator(e as int, 1, pow2(p) as int);
    vstd::arithmetic::div_mod::lemma_div_basics_2(e as int);
}

/// `0^e == 0` for `e > 0`.
proof fn lemma_zero_pow(e: nat)
    requires
        e > 0,
    ensures
        pow(0, e) == 0,
{
    vstd::arithmetic::power::lemma0_pow(e);
}

/// The top bit of `e`: `e >> t == 1` when `2^t <= e < 2^(t + 1)`.
proof fn lemma_top_bit(e: nat, t: nat)
    requires
        pow2(t) <= e < pow2(t + 1),
    ensures
        e / pow2(t) == 1,
        2 * (e / pow2(t)) <= e / pow2((t - 1) as nat) || t == 0,
        e / pow2(t) <= e,
{
    lemma_pow2_pos(t);
    vstd::arithmetic::power2::lemma_pow2_unfold(t + 1);
    vstd::arithmetic::div_mod::lemma_fundamental_div_mod(e as int, pow2(t) as int);
    let q = e / pow2(t);
    assert(q == 1) by (nonlinear_arith)
        requires
            e == pow2(t) * q + e % pow2(t),
            0 <= e % pow2(t) < pow2(t),
            pow2(t) <= e < 2 * pow2(t),
            q >= 0,
    {
        vstd::arithmetic::div_mod::lemma_div_pos_is_pos(e as int, pow2(t) as int);
    }
    if t > 0 {
        lemma_exp_bits(e, (t - 1) as nat);
        assert((t - 1) as nat + 1 == t);
    }
}

/// The sign of a power of a negative number.
proof fn lemma_pow_neg(m: int, e: nat)
    ensures
        pow(-m, e) == (if e % 2 == 1 {
            -pow(m, e)
        } else {
            pow(m, e)
        }),
    decreases e,
{
    reveal(pow);
    if e > 0 {
        lemma_pow_neg(m, (e - 1) as nat);
        assert(pow(-m, e) == -m * pow(-m, (e - 1) as nat));
        assert(pow(m, e) == m * pow(m, (e - 1) as nat));
        if e % 2 == 1 {
            assert(((e - 1) as nat) % 2 == 0);
            assert(-m * pow(m, (e - 1) as nat) == -(m * pow(m, (e - 1) as nat))) by (
            nonlinear_arith);
        } else {
            assert(((e - 1) as nat) % 2 == 1);
            assert(-m * -pow(m, (e - 1) as nat) == m * pow(m, (e - 1) as nat)) by (nonlinear_arith);
        }
    }
}

/// The power of a signed number: its magnitude is the power of the magnitude, and it is
/// negative exactly when the base is negative and the exponent odd.
pub proof fn lemma_pow_sign_magnitude(x: int, e: nat)
    ensures
        abs(pow(x, e)) == pow(abs(x) as int, e),
        pow(x, e) < 0 <==> (x < 0 && e % 2 == 1),
{
    let m = abs(x) as int;
    lemma_pow_nonneg(m, e);
    if x < 0 {
        lemma_pow_neg(m, e);
        assert(-m == x);
        vstd::arithmetic::power::lemma_pow_positive(m, e);
    }
}

impl IBig {
    /// Raises self to the power of `exp`.
    pub fn pow(&self, exp: usize) -> (r: IBig)
        requires
            ibig_fits(pow(self@, exp as nat)),
        ensures
            r@ == pow(self@, exp as nat),
    {
        let negative = self.is_negative() && exp % 2 == 1;
        let sign = if negative {
            Sign::Negative
        } else {
            Sign::Positive
        };
        let ghost m = abs(self@) as int;
        proof {
            lemma_pow_neg(m, exp as nat);
            lemma_pow_nonneg(m, exp as nat);
            if self@ < 0 {
                assert(self@ == -m);
            } else {
                assert(self@ == m);
            }
        }
        let mag = self.magnitude().pow(exp);
        IBig::from_sign_magnitude(sign, mag)
    }
}

} // verus!
