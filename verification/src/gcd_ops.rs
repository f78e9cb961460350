//! Greatest common divisor on the word and buffer representations of numbers.

use crate::buffer::{Buffer, MAX_LEN};
use crate::gcd_binary::{gcd_in_place, gcd_word_by_word, xgcd_word_by_word};
use crate::xgcd::xgcd_in_place;
use crate::gcd_spec::{
    lemma_divides_le, lemma_gcd_comm, lemma_gcd_divides, lemma_gcd_mod, lemma_gcd_zero, spec_gcd,
};
use crate::ibig::{abs, IBig};
use crate::primitive::Word;
use crate::ubig::UBig;
use crate::value::to_nat;
use vstd::prelude::*;

verus! {

impl UBig {
    /// Greatest common divisor of two words; it is zero when both are.
    pub fn gcd_word(a: Word, b: Word) -> (r: UBig)
        ensures
            r@ == spec_gcd(a as nat, b as nat),
    {
        if a == 0 || b == 0 {
            proof {
                assert(a == 0 ==> a | b == b) by (bit_vector);
                assert(b == 0 ==> a | b == a) by (bit_vector);
                lemma_gcd_zero(b as nat);
            }
            return UBig::from_word(a | b);
        }
        UBig::from_word(gcd_word_by_word(a, b))
    }

    /// Extended greatest common divisor of two words: `(g, s, t)` with `s a + t b == g`.
    pub fn extended_gcd_word(a: Word, b: Word) -> (r: (UBig, IBig, IBig))
        ensures
            r.0@ == spec_gcd(a as nat, b as nat),
            r.1@ * a + r.2@ * b == r.0@,
    {
        // the cases a == 0 or b == 0 are handled by the Euclidean algorithm too
        let (g, s, t) = xgcd_word_by_word(a, b, false);
        (UBig::from_word(g), IBig::from_signed_word(s), IBig::from_signed_word(t))
    }

    /// Greatest common divisor of a number held in words and a word.
    pub fn gcd_large_word(buffer: &Buffer, rhs: Word) -> (r: UBig)
        requires
            buffer.wf(),
            buffer@.len() <= MAX_LEN,
        ensures
            r@ == spec_gcd(to_nat(buffer@), rhs as nat),
    {
        let ghost x = to_nat(buffer@);
        if rhs == 0 {
            proof {
                UBig::lemma_words_fit(buffer@);
            }
            return UBig::from_buffer(buffer.clone());
        }
        // reduce the large number
        let small = crate::div::rem_by_word(buffer.as_slice(), rhs);
        proof {
            lemma_gcd_mod(x, rhs as nat);
        }
        if small == 0 {
            proof {
                lemma_gcd_zero(rhs as nat);
            }
            return UBig::from_word(rhs);
        }
        UBig::from_word(gcd_word_by_word(small, rhs))
    }

    /// Extended greatest common divisor of a number held in words and a word:
    /// `(g, s, t)` with `s x + t rhs == g`.
    pub fn extended_gcd_large_word(buffer: Buffer, rhs: Word) -> (r: (UBig, IBig, IBig))
        requires
            buffer.wf(),
            buffer@.len() <= MAX_LEN,
        ensures
            r.0@ == spec_gcd(to_nat(buffer@), rhs as nat),
            r.1@ * to_nat(buffer@) + r.2@ * rhs == r.0@,
    {
        let ghost x = to_nat(buffer@);
        proof {
            UBig::lemma_words_fit(buffer@);
        }
        if rhs == 0 {
            proof {
                assert(1 * x + 0 * 0 == x);
            }
            return (UBig::from_buffer(buffer), IBig::one(), IBig::zero());
        }
        // reduce the large number
        let mut buffer = buffer;
        let rem = crate::div::div_by_word_in_place(buffer.as_mut_slice(), rhs);
        let ghost q = to_nat(buffer@);
        proof {
            vstd::arithmetic::div_mod::lemma_fundamental_div_mod_converse(
                x as int,
                rhs as int,
                q as int,
                rem as int,
            );
            lemma_gcd_mod(x, rhs as nat);
            lemma_gcd_comm(x, rhs as nat);
            assert(q * rhs <= x) by (nonlinear_arith)
                requires
                    x == q * rhs + rem,
                    rem >= 0,
            ;
            vstd::arithmetic::div_mod::lemma_div_is_ordered_by_denominator(x as int, 1, rhs as int);
            UBig::lemma_words_fit(buffer@);
        }
        if rem == 0 {
            proof {
                lemma_gcd_zero(rhs as nat);
                lemma_gcd_comm(0, rhs as nat);
            }
            return (UBig::from_word(rhs), IBig::zero(), IBig::one());
        }
        let (g, s, t) = xgcd_word_by_word(rhs, rem, false);
        // x == q rhs + rem, and s rhs + t rem == g, so t x + (s - t q) rhs == g
        let qi = IBig::from_ubig(UBig::from_buffer(buffer));
        let ti = IBig::from_signed_word(t);
        proof {
            let at = abs(t as int) as int;
            assert(abs(-(t as int) * q) == at * q) by (nonlinear_arith)
                requires
                    at == abs(t as int),
                    q >= 0,
            ;
            assert(at * q <= q * rhs) by (nonlinear_arith)
                requires
                    at <= rhs,
                    q >= 0,
            ;
            assert(abs(-(t as int) * q) <= x);
        }
        let prod = ti.neg().mul(&qi);
        proof {
            assert(abs(prod@ + s) <= x) by (nonlinear_arith)
                requires
                    prod@ == -(t as int) * q,
                    abs(prod@) <= q * rhs,
                    abs(s as int) <= rem,
                    x == q * rhs + rem,
            ;
        }
        let new_t = prod.add(&IBig::from_signed_word(s));
        proof {
            assert(t * x + (-(t as int) * q + s) * rhs == s * rhs + t * rem) by (nonlinear_arith)
                requires
                    x == q * rhs + rem,
            ;
            lemma_gcd_comm(rhs as nat, rem as nat);
            lemma_gcd_mod(x, rhs as nat);
        }
        (UBig::from_word(g), ti, new_t)
    }

    /// Greatest common divisor of two non-zero numbers held in words.
    pub fn gcd_large(lhs: Buffer, rhs: Buffer) -> (r: UBig)
        requires
            lhs.wf(),
            rhs.wf(),
            lhs@.len() <= MAX_LEN,
            rhs@.len() <= MAX_LEN,
            to_nat(lhs@) > 0,
            to_nat(rhs@) > 0,
        ensures
            r@ == spec_gcd(to_nat(lhs@), to_nat(rhs@)),
    {
        let ghost (x, y) = (to_nat(lhs@), to_nat(rhs@));
        let mut lhs = lhs;
        let mut rhs = rhs;
        let len = gcd_in_place(lhs.as_mut_slice(), rhs.as_mut_slice());
        lhs.truncate(len);
        proof {
            UBig::lemma_words_fit(lhs@);
        }
        UBig::from_buffer(lhs)
    }

    /// Extended greatest common divisor of two non-zero numbers held in words:
    /// `(g, s, t)` with `s x + t y == g`.
    pub fn extended_gcd_large(lhs: Buffer, rhs: Buffer) -> (r: (UBig, IBig, IBig))
        requires
            lhs.wf(),
            rhs.wf(),
            lhs@.len() + rhs@.len() <= MAX_LEN,
            to_nat(lhs@) > 0,
            to_nat(rhs@) > 0,
        ensures
            r.0@ == spec_gcd(to_nat(lhs@), to_nat(rhs@)),
            r.1@ * to_nat(lhs@) + r.2@ * to_nat(rhs@) == r.0@,
    {
        let ghost (x, y) = (to_nat(lhs@), to_nat(rhs@));
        let mut lhs = lhs;
        let mut rhs = rhs;
        let res_len = crate::math::min_usize(lhs.len(), rhs.len());
        let mut buffer = Buffer::allocate(res_len);
        buffer.push_zeros(res_len);
        proof {
            assert(buffer@ =~= crate::value::zeros(res_len as nat));
            assert(crate::xgcd::zero_beyond(buffer@, 0));
            if lhs@.len() == 0 {
                assert(lhs@ =~= Seq::<Word>::empty());
            }
            if rhs@.len() == 0 {
                assert(rhs@ =~= Seq::<Word>::empty());
            }
        }
        let (lhs_sign, rhs_sign) = xgcd_in_place(
            lhs.as_mut_slice(),
            rhs.as_mut_slice(),
            buffer.as_mut_slice(),
            false,
        );
        proof {
            UBig::lemma_words_fit(lhs@);
            UBig::lemma_words_fit(rhs@);
            UBig::lemma_words_fit(buffer@);
        }
        (
            UBig::from_buffer(buffer),
            IBig::from_sign_magnitude(lhs_sign, UBig::from_buffer(rhs)),
            IBig::from_sign_magnitude(rhs_sign, UBig::from_buffer(lhs)),
        )
    }
}

} // verus!
