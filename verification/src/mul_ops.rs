//! Multiplication of unsigned big integers.

use crate::add_ops::word_of_short;
use crate::buffer::{Buffer, MAX_CAPACITY, MAX_LEN};
use crate::karatsuba::{add_signed_mul, allocate_temp_mul_buffer};
use crate::mul::mul_word_in_place;
use crate::primitive::{extend_word, split_double_word, word_base, Word};
use crate::sign::Sign;
use crate::ubig::{fits, UBig};
use crate::value::{
    is_normalized, lemma_pow_base_add, lemma_pow_base_mono, lemma_pow_base_pos,
    lemma_to_nat_normalized_lower, lemma_to_nat_push, lemma_to_nat_single, pow_base, to_nat,
};
use vstd::prelude::*;

verus! {

/// A product of normalized numbers that fits has at most `MAX_LEN + 1` words in total.
proof fn lemma_product_len(a: Seq<Word>, b: Seq<Word>)
    requires
        is_normalized(a),
        is_normalized(b),
        a.len() > 0,
        b.len() > 0,
        fits(to_nat(a) * to_nat(b)),
    ensures
        a.len() + b.len() <= MAX_LEN + 1,
{
    lemma_to_nat_normalized_lower(a);
    lemma_to_nat_normalized_lower(b);
    let pa = pow_base((a.len() - 1) as nat) as int;
    let pb = pow_base((b.len() - 1) as nat) as int;
    let x = to_nat(a) as int;
    let y = to_nat(b) as int;
    lemma_pow_base_pos((a.len() - 1) as nat);
    lemma_pow_base_pos((b.len() - 1) as nat);
    assert(pa * pb <= x * y) by (nonlinear_arith)
        requires
            0 < pa <= x,
            0 < pb <= y,
    ;
    lemma_pow_base_add((a.len() - 1) as nat, (b.len() - 1) as nat);
    if a.len() + b.len() > MAX_LEN + 1 {
        lemma_pow_base_mono(MAX_LEN as nat, ((a.len() - 1) + (b.len() - 1)) as nat);
    }
}

impl UBig {
    /// Multiply two `Word`s.
    pub fn mul_word(a: Word, b: Word) -> (r: UBig)
        ensures
            r@ == a * b,
    {
        proof {
            crate::primitive::lemma_mul_word_bound(a, b);
        }
        let (lo, hi) = split_double_word(extend_word(a) * extend_word(b));
        proof {
            crate::value::lemma_pow_base_step(1);
            crate::value::lemma_pow_base_step(0);
            assert(a * b < pow_base(2)) by (nonlinear_arith)
                requires
                    a * b <= 0xffff_ffff_ffff_fffe_0000_0000_0000_0001,
                    pow_base(2) == word_base() * word_base(),
                    word_base() == 0x1_0000_0000_0000_0000,
            ;
            UBig::lemma_fits_small((a * b) as nat);
        }
        let mut buffer = Buffer::allocate(2);
        buffer.push(lo);
        buffer.push(hi);
        proof {
            assert(buffer@ =~= seq![lo].push(hi));
            lemma_to_nat_single(lo);
            lemma_to_nat_push(seq![lo], hi);
            crate::value::lemma_pow_base_step(0);
        }
        UBig::from_buffer(buffer)
    }

    /// Multiply a large number by a `Word`.
    pub fn mul_large_word(buffer: Buffer, a: Word) -> (r: UBig)
        requires
            buffer.wf(),
            a >= 2 ==> buffer@.len() < MAX_CAPACITY,
            fits(to_nat(buffer@)),
            fits(to_nat(buffer@) * a as nat),
        ensures
            r@ == to_nat(buffer@) * a,
    {
        match a {
            0 => {
                proof {
                    assert(to_nat(buffer@) * 0 == 0) by (nonlinear_arith);
                }
                UBig::from_word(0)
            },
            1 => {
                proof {
                    assert(to_nat(buffer@) * 1 == to_nat(buffer@)) by (nonlinear_arith);
                }
                UBig::from_buffer(buffer)
            },
            _ => {
                let mut buffer = buffer;
                let carry = mul_word_in_place(buffer.as_mut_slice(), a);
                if carry != 0 {
                    let ghost b1 = buffer@;
                    buffer.push_may_reallocate(carry);
                    proof {
                        lemma_to_nat_push(b1, carry);
                        assert(pow_base(b1.len()) * carry == carry * pow_base(b1.len())) by (
                        nonlinear_arith);
                    }
                } else {
                    proof {
                        assert(0 * pow_base(buffer@.len()) == 0) by (nonlinear_arith);
                    }
                }
                UBig::from_buffer(buffer)
            },
        }
    }

    /// Multiply two large numbers.
    pub fn mul_large(lhs: &[Word], rhs: &[Word]) -> (r: UBig)
        requires
            lhs@.len() + rhs@.len() <= MAX_CAPACITY,
            fits(to_nat(lhs@) * to_nat(rhs@)),
        ensures
            r@ == to_nat(lhs@) * to_nat(rhs@),
    {
        let res_len = lhs.len() + rhs.len();
        let mut buffer = Buffer::allocate(res_len);
        buffer.push_zeros(res_len);
        proof {
            crate::value::lemma_to_nat_zeros(res_len as nat);
            assert(Seq::<Word>::empty() + crate::value::zeros(res_len as nat) =~= crate::value::zeros(
                res_len as nat,
            ));
        }
        let mut temp = allocate_temp_mul_buffer(crate::math::min_usize(lhs.len(), rhs.len()));
        let overflow = add_signed_mul(
            buffer.as_mut_slice(),
            Sign::Positive,
            lhs,
            rhs,
            temp.as_mut_slice(),
        );
        proof {
            let ab = to_nat(lhs@) * to_nat(rhs@);
            crate::karatsuba::lemma_product_bound(lhs@, rhs@);
            crate::value::lemma_to_nat_bound(buffer@);
            let p = pow_base(res_len as nat) as int;
            assert(1 * ab == ab);
            if overflow > 0 {
                assert(overflow * p >= p) by (nonlinear_arith)
                    requires
                        overflow >= 1,
                        p > 0,
                ;
            } else if overflow < 0 {
                assert(overflow * p <= -p) by (nonlinear_arith)
                    requires
                        overflow <= -1,
                        p > 0,
                ;
            }
            assert(overflow == 0);
            assert(overflow * p == 0);
        }
        UBig::from_buffer(buffer)
    }

    /// `self * rhs`.
    pub fn mul(&self, rhs: &UBig) -> (r: UBig)
        requires
            fits(self@ * rhs@),
        ensures
            r@ == self@ * rhs@,
    {
        let a = self.as_words();
        let b = rhs.as_words();
        proof {
            UBig::lemma_words_fit(a@);
            UBig::lemma_words_fit(b@);
        }
        if a.len() <= 1 && b.len() <= 1 {
            UBig::mul_word(word_of_short(a), word_of_short(b))
        } else if b.len() <= 1 {
            proof {
                if b.len() == 1 {
                    assert(b@ =~= seq![b@[0]]);
                    lemma_to_nat_single(b@[0]);
                    assert(self@ <= self@ * rhs@) by (nonlinear_arith)
                        requires
                            rhs@ >= 1,
                    ;
                    UBig::lemma_fits_len(a@, self@ * rhs@);
                }
            }
            UBig::mul_large_word(self.clone().into_buffer(), word_of_short(b))
        } else if a.len() <= 1 {
            proof {
                assert(to_nat(b@) * to_nat(a@) == to_nat(a@) * to_nat(b@)) by (nonlinear_arith);
                if a.len() == 1 {
                    assert(a@ =~= seq![a@[0]]);
                    lemma_to_nat_single(a@[0]);
                    assert(rhs@ <= self@ * rhs@) by (nonlinear_arith)
                        requires
                            self@ >= 1,
                    ;
                    UBig::lemma_fits_len(b@, self@ * rhs@);
                }
            }
            UBig::mul_large_word(rhs.clone().into_buffer(), word_of_short(a))
        } else {
            proof {
                lemma_product_len(a@, b@);
            }
            UBig::mul_large(a, b)
        }
    }

    /// `self *= rhs`.
    pub fn mul_assign(&mut self, rhs: &UBig)
        requires
            fits(old(self)@ * rhs@),
        ensures
            final(self)@ == old(self)@ * rhs@,
    {
        *self = self.mul(rhs);
    }
}

} // verus!
