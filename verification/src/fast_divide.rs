//! Fast repeated division by a fixed word, using multiplication by the reciprocal.

use crate::primitive::{extend_word, split_double_word, word_base, DoubleWord, Word};
use vstd::arithmetic::power2::pow2;
use vstd::prelude::*;

verus! {

/// Fast repeated division by a given normalized Word.
#[derive(Clone, Copy)]
pub struct FastDivisorNormalized {
    divisor: Word,
    reciprocal: Word,
}

impl FastDivisorNormalized {
    /// The divisor.
    pub closed spec fn spec_divisor(&self) -> nat {
        self.divisor as nat
    }

    /// Well-formedness: the divisor has its top bit set and the reciprocal is
    /// `floor((B^2 - 1) / divisor) - B`.
    pub closed spec fn wf(&self) -> bool {
        &&& self.divisor >= 0x8000_0000_0000_0000
        &&& self.reciprocal + word_base() == (word_base() * word_base() - 1) / (self.divisor as int)
    }

    /// Initialize from a given normalized divisor.
    ///
    /// divisor must have top bit of 1
    pub fn new(divisor: Word) -> (r: FastDivisorNormalized)
        requires
            divisor >= 0x8000_0000_0000_0000,
        ensures
            r.wf(),
            r.spec_divisor() == divisor,
    {
        proof {
            let m = word_base() * word_base() - 1;
            assert(m == DoubleWord::MAX);
            vstd::arithmetic::div_mod::lemma_fundamental_div_mod(m as int, divisor as int);
            let q = m / (divisor as int);
            assert(q >= word_base()) by (nonlinear_arith)
                requires
                    m == divisor * q + m % (divisor as int),
                    m % (divisor as int) < divisor,
                    divisor < word_base(),
                    m == word_base() * word_base() - 1,
            ;
            assert(q < 2 * word_base()) by (nonlinear_arith)
                requires
                    m == divisor * q + m % (divisor as int),
                    m % (divisor as int) >= 0,
                    divisor >= 0x8000_0000_0000_0000,
                    m == word_base() * word_base() - 1,
            ;
        }
        let (recip_lo, _recip_hi) = split_double_word(DoubleWord::MAX / extend_word(divisor));
        FastDivisorNormalized { divisor, reciprocal: recip_lo }
    }

    /// Divide a value.
    /// The result must fit in a single word.
    pub fn div_rem(&self, dividend: DoubleWord) -> (r: (Word, Word))
        requires
            self.wf(),
            dividend < self.spec_divisor() * word_base(),
        ensures
            r.0 == (dividend as int) / (self.spec_divisor() as int),
            r.1 == (dividend as int) % (self.spec_divisor() as int),
    {
        let d = self.divisor;
        let (_, dividend_hi) = split_double_word(dividend);
        proof {
            crate::primitive::lemma_mul_word_bound(self.reciprocal, dividend_hi);
        }
        // Approximate quotient: it may be too small by at most 3.
        // self.reciprocal + (1<<BITS) is approximately (1<<(2*BITS)) / self.divisor.
        let (mul_lo, mul_hi) = split_double_word(
            extend_word(self.reciprocal) * extend_word(dividend_hi),
        );
        proof {
            let b = word_base() as int;
            let rr = self.reciprocal + b;
            let h = dividend_hi as int;
            let a = dividend as int;
            let m = b * b - 1;
            vstd::arithmetic::div_mod::lemma_fundamental_div_mod(m, d as int);
            // rr * d <= B^2 - 1
            assert(rr * d <= m) by (nonlinear_arith)
                requires
                    rr == m / (d as int),
                    m == d * (m / (d as int)) + m % (d as int),
                    m % (d as int) >= 0,
            ;
            let q0 = mul_hi + h;
            // q0 * B <= rr * h
            assert(q0 * b <= rr * h) by (nonlinear_arith)
                requires
                    mul_lo + mul_hi * b == self.reciprocal * h,
                    mul_lo >= 0,
                    rr == self.reciprocal + b,
                    q0 == mul_hi + h,
            ;
            assert(h * b <= a);
            assert(q0 * b * d <= rr * h * d) by (nonlinear_arith)
                requires
                    q0 * b <= rr * h,
                    d > 0,
            ;
            assert(rr * h * d <= m * h) by (nonlinear_arith)
                requires
                    rr * d <= m,
                    h >= 0,
            ;
            assert(m * h <= b * (b * h)) by (nonlinear_arith)
                requires
                    m == b * b - 1,
                    h >= 0,
            ;
            assert(b * (b * h) <= b * a) by (nonlinear_arith)
                requires
                    h * b <= a,
                    b > 0,
            ;
            assert(q0 * d * b == q0 * b * d) by (nonlinear_arith);
            assert(q0 * d <= a) by (nonlinear_arith)
                requires
                    q0 * d * b <= b * a,
                    b > 0,
            ;
            assert(q0 < b) by (nonlinear_arith)
                requires
                    q0 * d <= a,
                    a < d * b,
                    d > 0,
            ;
            assert(q0 * d >= 0) by (nonlinear_arith)
                requires
                    q0 >= 0,
                    d > 0,
            ;
        }
        let mut quotient = mul_hi + dividend_hi;
        let mut remainder = dividend - extend_word(d) * extend_word(quotient);
        while remainder >= extend_word(d)
            invariant
                remainder == dividend - d * quotient,
                dividend < d * word_base(),
                d > 0,
                remainder >= 0,
            decreases remainder,
        {
            proof {
                assert(quotient + 1 < word_base()) by (nonlinear_arith)
                    requires
                        remainder == dividend - d * quotient,
                        remainder >= d,
                        dividend < d * word_base(),
                        d > 0,
                ;
            }
            proof {
                assert(d * (quotient + 1) == d * quotient + d) by (nonlinear_arith);
            }
            quotient += 1;
            remainder -= extend_word(d);
        }
        proof {
            vstd::arithmetic::div_mod::lemma_fundamental_div_mod_converse(
                dividend as int,
                d as int,
                quotient as int,
                remainder as int,
            );
        }
        let (rem_lo, _) = split_double_word(remainder);
        (quotient, rem_lo)
    }
}

/// Fast repeated division by a given Word.
#[derive(Clone, Copy)]
pub struct FastDivisor {
    pub normalized: FastDivisorNormalized,
    pub shift: u32,
}

impl FastDivisor {
    /// The divisor.
    pub open spec fn spec_divisor(&self) -> nat {
        self.normalized.spec_divisor() / pow2(self.shift as nat)
    }

    /// Well-formedness: the normalized divisor is the divisor shifted left by `shift`.
    pub open spec fn wf(&self) -> bool {
        &&& self.normalized.wf()
        &&& self.shift < 64
        &&& self.normalized.spec_divisor() % pow2(self.shift as nat) == 0
        &&& self.spec_divisor() > 0
    }

    /// Initialize from a given divisor.
    pub fn new(divisor: Word) -> (r: FastDivisor)
        requires
            divisor > 0,
        ensures
            r.wf(),
            r.spec_divisor() == divisor,
    {
        let shift = divisor.leading_zeros();
        proof {
            crate::math::lemma_leading_zeros_normalizes(divisor);
            vstd::bits::lemma_u64_shl_is_mul(divisor, shift as u64);
            vstd::arithmetic::power2::lemma_pow2_pos(shift as nat);
            vstd::arithmetic::div_mod::lemma_mod_multiples_basic(divisor as int, pow2(shift as nat) as int);
            vstd::arithmetic::div_mod::lemma_div_multiples_vanish(divisor as int, pow2(shift as nat) as int);
            vstd::arithmetic::mul::lemma_mul_is_commutative(divisor as int, pow2(shift as nat) as int);
        }
        FastDivisor { normalized: FastDivisorNormalized::new(divisor << shift), shift }
    }

    /// Divide a value.
    pub fn div_rem(&self, dividend: Word) -> (r: (Word, Word))
        requires
            self.wf(),
        ensures
            r.0 == (dividend as int) / (self.spec_divisor() as int),
            r.1 == (dividend as int) % (self.spec_divisor() as int),
    {
        let ghost p = pow2(self.shift as nat) as int;
        let ghost d = self.spec_divisor() as int;
        let ghost dn = self.normalized.spec_divisor() as int;
        proof {
            vstd::arithmetic::power2::lemma_pow2_pos(self.shift as nat);
            vstd::arithmetic::power2::lemma_pow2_strictly_increases(self.shift as nat, 64);
            vstd::arithmetic::power2::lemma2_to64_rest();
            vstd::arithmetic::div_mod::lemma_fundamental_div_mod(dn, p);
            assert(dn == d * p) by (nonlinear_arith)
                requires
                    dn == p * (dn / p) + dn % p,
                    dn % p == 0,
                    d == dn / p,
            ;
            vstd::bits::lemma_u64_shl_is_mul(1, self.shift as u64);
            vstd::bits::lemma_u64_pow2_no_overflow(self.shift as nat);
            assert(dividend * p < dn * word_base()) by (nonlinear_arith)
                requires
                    dividend < word_base(),
                    dn == d * p,
                    d >= 1,
                    p <= word_base(),
                    p > 0,
            ;
        }
        let (q, r) = self.normalized.div_rem(extend_word(dividend) * extend_word(1u64 << self.shift));
        proof {
            vstd::bits::lemma_u64_shl_is_mul(1, self.shift as u64);
            vstd::arithmetic::div_mod::lemma_fundamental_div_mod(dividend * p, dn);
            vstd::arithmetic::div_mod::lemma_fundamental_div_mod(dividend as int, d);
            let qq = dividend as int / d;
            let rr = dividend as int % d;
            assert(dividend * p == qq * dn + rr * p) by (nonlinear_arith)
                requires
                    dividend == d * qq + rr,
                    dn == d * p,
            ;
            assert(0 <= rr * p < dn) by (nonlinear_arith)
                requires
                    0 <= rr < d,
                    dn == d * p,
                    p > 0,
            ;
            vstd::arithmetic::div_mod::lemma_fundamental_div_mod_converse(dividend * p, dn, qq, rr * p);
            vstd::bits::lemma_u64_shr_is_div(r, self.shift as u64);
            vstd::arithmetic::div_mod::lemma_div_multiples_vanish(rr, p);
            assert(rr * p == p * rr) by (nonlinear_arith);
        }
        (q, r >> self.shift)
    }
}

} // verus!
