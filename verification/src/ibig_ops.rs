//! Arithmetic on signed big integers.

use crate::add::sub_in_place_with_sign;
use crate::add_ops::{lemma_normalized_shorter, word_of_short};
use crate::add::sub_with_borrow;
use crate::buffer::Buffer;
use crate::div_ops::{DivEuclid, DivRem, DivRemEuclid, RemEuclid};
use crate::ibig::{abs, ibig_fits, IBig};
use crate::primitive::Word;
use crate::sign::Sign;
use crate::ubig::{fits, UBig};
use crate::value::{is_normalized, to_nat};
use vstd::prelude::*;

verus! {

/// Quotient of the division truncating towards zero.
pub open spec fn trunc_div(a: int, b: int) -> int {
    if (a < 0) == (b < 0) {
        (abs(a) / abs(b)) as int
    } else {
        -((abs(a) / abs(b)) as int)
    }
}

/// Remainder of the division truncating towards zero: it has the sign of `a`.
pub open spec fn trunc_rem(a: int, b: int) -> int {
    if a < 0 {
        -((abs(a) % abs(b)) as int)
    } else {
        (abs(a) % abs(b)) as int
    }
}

/// Truncating division: `a == q * b + r` with `|r| < |b|` and `r` of the sign of `a`.
pub proof fn lemma_trunc_div_rem(a: int, b: int)
    requires
        b != 0,
    ensures
        a == trunc_div(a, b) * b + trunc_rem(a, b),
        abs(trunc_rem(a, b)) < abs(b),
        abs(trunc_rem(a, b)) <= abs(a),
        a >= 0 ==> trunc_rem(a, b) >= 0,
        a < 0 ==> trunc_rem(a, b) <= 0,
{
    let x = abs(a) as int;
    let y = abs(b) as int;
    vstd::arithmetic::div_mod::lemma_fundamental_div_mod(x, y);
    let q = x / y;
    let r = x % y;
    assert(x == y * q + r);
    vstd::arithmetic::div_mod::lemma_div_pos_is_pos(x, y);
    assert(r <= x) by (nonlinear_arith)
        requires
            x == y * q + r,
            q >= 0,
            y > 0,
    ;
    if a < 0 {
        if b < 0 {
            assert(a == q * b - r) by (nonlinear_arith)
                requires
                    x == y * q + r,
                    x == -a,
                    y == -b,
            ;
        } else {
            assert(a == (-q) * b - r) by (nonlinear_arith)
                requires
                    x == y * q + r,
                    x == -a,
                    y == b,
            ;
        }
    } else {
        if b < 0 {
            assert(a == (-q) * b + r) by (nonlinear_arith)
                requires
                    x == y * q + r,
                    x == a,
                    y == -b,
            ;
        } else {
            assert(a == q * b + r) by (nonlinear_arith)
                requires
                    x == y * q + r,
                    x == a,
                    y == b,
            ;
        }
    }
}

/// Euclidean division is unique: `a == q * b + r` with `0 <= r < |b|` gives `a / b` and `a % b`.
pub proof fn lemma_euclid_unique(a: int, b: int, q: int, r: int)
    requires
        b != 0,
        a == q * b + r,
        0 <= r < abs(b),
    ensures
        q == a / b,
        r == a % b,
{
    if b > 0 {
        vstd::arithmetic::div_mod::lemma_fundamental_div_mod_converse(a, b, q, r);
    } else {
        assert((-q) * (-b) == q * b) by (nonlinear_arith);
        vstd::arithmetic::div_mod::lemma_fundamental_div_mod_converse(a, -b, -q, r);
        assert(a / b == -(a / (-b)) && a % b == a % (-b)) by (nonlinear_arith)
            requires
                b < 0,
        ;
    }
}

/// `|a * b| == |a| * |b|`.
pub proof fn lemma_abs_mul(a: int, b: int)
    ensures
        abs(a * b) == abs(a) * abs(b),
        (a * b < 0) == ((a < 0) != (b < 0) && a != 0 && b != 0),
{
    if a < 0 {
        if b < 0 {
            assert(a * b == (-a) * (-b)) by (nonlinear_arith);
            assert((-a) * (-b) > 0) by (nonlinear_arith)
                requires
                    a < 0,
                    b < 0,
            ;
        } else {
            assert(a * b == -((-a) * b)) by (nonlinear_arith);
            assert((-a) * b >= 0) by (nonlinear_arith)
                requires
                    a < 0,
                    b >= 0,
            ;
            if b > 0 {
                assert((-a) * b > 0) by (nonlinear_arith)
                    requires
                        a < 0,
                        b > 0,
                ;
            }
        }
    } else {
        if b < 0 {
            assert(a * b == -(a * (-b))) by (nonlinear_arith);
            assert(a * (-b) >= 0) by (nonlinear_arith)
                requires
                    a >= 0,
                    b < 0,
            ;
            if a > 0 {
                assert(a * (-b) > 0) by (nonlinear_arith)
                    requires
                        a > 0,
                        b < 0,
                ;
            }
        } else {
            assert(a * b >= 0) by (nonlinear_arith)
                requires
                    a >= 0,
                    b >= 0,
            ;
        }
    }
}

impl IBig {
    /// `lhs - rhs` for words.
    pub fn sub_word_word(lhs: Word, rhs: Word) -> (r: IBig)
        ensures
            r@ == lhs - rhs,
    {
        let (val, borrow) = sub_with_borrow(lhs, rhs, false);
        if !borrow {
            IBig::from_word(val)
        } else {
            IBig::from_sign_magnitude(Sign::Negative, UBig::from_word(rhs - lhs))
        }
    }

    /// `lhs - rhs` for a large number and a word.
    pub fn sub_large_word(lhs: Buffer, rhs: Word) -> (r: IBig)
        requires
            lhs.wf(),
            lhs@.len() >= 1,
            to_nat(lhs@) >= rhs,
            fits(to_nat(lhs@)),
        ensures
            r@ == to_nat(lhs@) - rhs,
    {
        IBig::from_ubig(UBig::sub_large_word(lhs, rhs))
    }

    /// `lhs - rhs` for large numbers.
    pub fn sub_large(lhs: Buffer, rhs: &[Word]) -> (r: IBig)
        requires
            lhs.wf(),
            is_normalized(lhs@),
            is_normalized(rhs@),
            fits(to_nat(lhs@)),
            fits(to_nat(rhs@)),
            rhs@.len() <= crate::buffer::MAX_LEN,
        ensures
            r@ == to_nat(lhs@) - to_nat(rhs@),
    {
        let mut lhs = lhs;
        let ghost l0 = lhs@;
        if lhs.len() >= rhs.len() {
            let sign = sub_in_place_with_sign(lhs.as_mut_slice(), rhs);
            proof {
                if to_nat(lhs@) > to_nat(l0) {
                    crate::value::lemma_to_nat_bound(rhs@);
                }
            }
            let mag = UBig::from_buffer(lhs);
            proof {
                if sign == Sign::Negative {
                    assert(-1 * mag@ == -(mag@ as int));
                }
            }
            IBig::from_sign_magnitude(sign, mag)
        } else {
            proof {
                if to_nat(rhs@) < to_nat(l0) {
                    lemma_normalized_shorter(rhs@, l0);
                }
            }
            let res = UBig::sub_large_ref_val(rhs, lhs);
            IBig::from_sign_magnitude(Sign::Negative, res)
        }
    }

    /// `lhs - rhs` for unsigned numbers.
    pub fn sub_ubig_ref_ref(lhs: &UBig, rhs: &UBig) -> (r: IBig)
        ensures
            r@ == lhs@ - rhs@,
    {
        let a = lhs.as_words();
        let b = rhs.as_words();
        proof {
            UBig::lemma_words_fit(a@);
            UBig::lemma_words_fit(b@);
        }
        if a.len() <= 1 && b.len() <= 1 {
            IBig::sub_word_word(word_of_short(a), word_of_short(b))
        } else if a.len() <= 1 {
            proof {
                lemma_large_above_word(b@);
            }
            IBig::sub_large_word(rhs.clone().into_buffer(), word_of_short(a)).into_neg()
        } else if b.len() <= 1 {
            proof {
                lemma_large_above_word(a@);
            }
            IBig::sub_large_word(lhs.clone().into_buffer(), word_of_short(b))
        } else if a.len() >= b.len() {
            IBig::sub_large(lhs.clone().into_buffer(), b)
        } else {
            IBig::sub_large(rhs.clone().into_buffer(), a).into_neg()
        }
    }

    /// `lhs - rhs` for unsigned numbers taken by value.
    pub fn sub_ubig_val_val(lhs: UBig, rhs: UBig) -> (r: IBig)
        ensures
            r@ == lhs@ - rhs@,
    {
        IBig::sub_ubig_ref_ref(&lhs, &rhs)
    }

    /// `lhs - rhs` for unsigned numbers, the first taken by value.
    pub fn sub_ubig_val_ref(lhs: UBig, rhs: &UBig) -> (r: IBig)
        ensures
            r@ == lhs@ - rhs@,
    {
        IBig::sub_ubig_ref_ref(&lhs, rhs)
    }

    /// `self + rhs`.
    pub fn add(&self, rhs: &IBig) -> (r: IBig)
        requires
            ibig_fits(self@ + rhs@),
        ensures
            r@ == self@ + rhs@,
    {
        let sign0 = self.sign();
        let sign1 = rhs.sign();
        let mag0 = self.magnitude();
        let mag1 = rhs.magnitude();
        match (sign0, sign1) {
            (Sign::Positive, Sign::Positive) => IBig::from_ubig(mag0.add(mag1)),
            (Sign::Positive, Sign::Negative) => IBig::sub_ubig_ref_ref(mag0, mag1),
            (Sign::Negative, Sign::Positive) => IBig::sub_ubig_ref_ref(mag1, mag0),
            (Sign::Negative, Sign::Negative) => IBig::from_ubig(mag0.add(mag1)).into_neg(),
        }
    }

    /// `self - rhs`.
    pub fn sub(&self, rhs: &IBig) -> (r: IBig)
        requires
            ibig_fits(self@ - rhs@),
        ensures
            r@ == self@ - rhs@,
    {
        let sign0 = self.sign();
        let sign1 = rhs.sign();
        let mag0 = self.magnitude();
        let mag1 = rhs.magnitude();
        match (sign0, sign1) {
            (Sign::Positive, Sign::Positive) => IBig::sub_ubig_ref_ref(mag0, mag1),
            (Sign::Positive, Sign::Negative) => IBig::from_ubig(mag0.add(mag1)),
            (Sign::Negative, Sign::Positive) => IBig::from_ubig(mag0.add(mag1)).into_neg(),
            (Sign::Negative, Sign::Negative) => IBig::sub_ubig_ref_ref(mag1, mag0),
        }
    }

    /// `self += rhs`.
    pub fn add_assign(&mut self, rhs: &IBig)
        requires
            ibig_fits(old(self)@ + rhs@),
        ensures
            final(self)@ == old(self)@ + rhs@,
    {
        *self = self.add(rhs);
    }

    /// `self -= rhs`.
    pub fn sub_assign(&mut self, rhs: &IBig)
        requires
            ibig_fits(old(self)@ - rhs@),
        ensures
            final(self)@ == old(self)@ - rhs@,
    {
        *self = self.sub(rhs);
    }

    /// `self * rhs`.
    pub fn mul(&self, rhs: &IBig) -> (r: IBig)
        requires
            ibig_fits(self@ * rhs@),
        ensures
            r@ == self@ * rhs@,
    {
        let sign0 = self.sign();
        let sign1 = rhs.sign();
        proof {
            lemma_abs_mul(self@, rhs@);
        }
        let mag = self.magnitude().mul(rhs.magnitude());
        let sign = sign0.mul(sign1);
        proof {
            let f0 = sign0.factor();
            let f1 = sign1.factor();
            assert(sign.factor() * mag@ == (f0 * abs(self@)) * (f1 * abs(rhs@))) by (
            nonlinear_arith)
                requires
                    sign.factor() == f0 * f1,
                    mag@ == abs(self@) * abs(rhs@),
            ;
        }
        IBig::from_sign_magnitude(sign, mag)
    }

    /// `self *= rhs`.
    pub fn mul_assign(&mut self, rhs: &IBig)
        requires
            ibig_fits(old(self)@ * rhs@),
        ensures
            final(self)@ == old(self)@ * rhs@,
    {
        *self = self.mul(rhs);
    }

    /// `self / rhs`, truncating towards zero.
    pub fn div(&self, rhs: &IBig) -> (r: IBig)
        requires
            rhs@ != 0,
        ensures
            r@ == trunc_div(self@, rhs@),
    {
        let sign0 = self.sign();
        let sign1 = rhs.sign();
        let q = self.magnitude().div(rhs.magnitude());
        let sign = sign0.mul(sign1);
        IBig::from_sign_magnitude(sign, q)
    }

    /// `self % rhs`: the remainder of the division truncating towards zero.
    pub fn rem(&self, rhs: &IBig) -> (r: IBig)
        requires
            rhs@ != 0,
        ensures
            r@ == trunc_rem(self@, rhs@),
    {
        let sign0 = self.sign();
        let m = self.magnitude().rem(rhs.magnitude());
        proof {
            if sign0 == Sign::Negative {
                assert(sign0.factor() * m@ == -(m@ as int)) by (nonlinear_arith)
                    requires
                        sign0.factor() == -1,
                ;
            } else {
                assert(sign0.factor() * m@ == m@) by (nonlinear_arith)
                    requires
                        sign0.factor() == 1,
                ;
            }
        }
        IBig::from_sign_magnitude(sign0, m)
    }

    /// `(self / rhs, self % rhs)`, truncating towards zero.
    pub fn div_rem(&self, rhs: &IBig) -> (r: (IBig, IBig))
        requires
            rhs@ != 0,
        ensures
            r.0@ == trunc_div(self@, rhs@),
            r.1@ == trunc_rem(self@, rhs@),
    {
        let sign0 = self.sign();
        let sign1 = rhs.sign();
        let (q, m) = self.magnitude().div_rem(rhs.magnitude());
        (IBig::from_sign_magnitude(sign0.mul(sign1), q), IBig::from_sign_magnitude(sign0, m))
    }

    /// `self /= rhs`, truncating towards zero.
    pub fn div_assign(&mut self, rhs: &IBig)
        requires
            rhs@ != 0,
        ensures
            final(self)@ == trunc_div(old(self)@, rhs@),
    {
        *self = self.div(rhs);
    }

    /// `self %= rhs`, truncating towards zero.
    pub fn rem_assign(&mut self, rhs: &IBig)
        requires
            rhs@ != 0,
        ensures
            final(self)@ == trunc_rem(old(self)@, rhs@),
    {
        *self = self.rem(rhs);
    }

    /// Euclidean quotient.
    pub fn div_euclid(&self, rhs: &IBig) -> (r: IBig)
        requires
            rhs@ != 0,
        ensures
            r@ == self@ / rhs@,
    {
        let (q, r) = self.div_rem(rhs);
        self.magnitude().value_fits();
        proof {
            lemma_trunc_div_rem(self@, rhs@);
        }
        if r.is_negative() {
            let s = rhs.signum();
            proof {
                lemma_euclid_adjust(self@, rhs@, q@, r@, s@);
            }
            q.sub(&s)
        } else {
            proof {
                lemma_euclid_unique(self@, rhs@, q@, r@);
            }
            q
        }
    }

    /// Euclidean remainder.
    pub fn rem_euclid(&self, rhs: &IBig) -> (r: IBig)
        requires
            rhs@ != 0,
        ensures
            r@ == self@ % rhs@,
    {
        let r = self.rem(rhs);
        rhs.magnitude().value_fits();
        proof {
            lemma_trunc_div_rem(self@, rhs@);
        }
        if r.is_negative() {
            let b = rhs.abs();
            proof {
                let s: int = if rhs@ < 0 { -1 } else { 1 };
                lemma_euclid_adjust(self@, rhs@, trunc_div(self@, rhs@), r@, s);
                lemma_small_fits(r@ + b@, rhs@);
            }
            r.add(&b)
        } else {
            proof {
                lemma_euclid_unique(self@, rhs@, trunc_div(self@, rhs@), r@);
            }
            r
        }
    }

    /// Euclidean quotient and remainder.
    pub fn div_rem_euclid(&self, rhs: &IBig) -> (r: (IBig, IBig))
        requires
            rhs@ != 0,
        ensures
            r.0@ == self@ / rhs@,
            r.1@ == self@ % rhs@,
    {
        let (q, r) = self.div_rem(rhs);
        self.magnitude().value_fits();
        rhs.magnitude().value_fits();
        proof {
            lemma_trunc_div_rem(self@, rhs@);
        }
        if r.is_negative() {
            let s = rhs.signum();
            let b = rhs.abs();
            proof {
                lemma_euclid_adjust(self@, rhs@, q@, r@, s@);
                lemma_small_fits(r@ + b@, rhs@);
            }
            (q.sub(&s), r.add(&b))
        } else {
            proof {
                lemma_euclid_unique(self@, rhs@, q@, r@);
            }
            (q, r)
        }
    }
}

/// A normalized number of at least two words is above any word.
proof fn lemma_large_above_word(s: Seq<Word>)
    requires
        is_normalized(s),
        s.len() >= 2,
    ensures
        to_nat(s) >= crate::primitive::word_base(),
{
    crate::value::lemma_to_nat_normalized_lower(s);
    crate::value::lemma_pow_base_mono(1, (s.len() - 1) as nat);
    crate::value::lemma_pow_base_step(0);
}

/// The adjustment from truncating to Euclidean division when the remainder is negative.
proof fn lemma_euclid_adjust(a: int, b: int, q: int, r: int, s: int)
    requires
        b != 0,
        a == q * b + r,
        abs(r) < abs(b),
        abs(r) <= abs(a),
        r < 0,
        a >= 0 ==> r >= 0,
        s == (if b < 0 {
            -1int
        } else {
            1
        }),
    ensures
        q - s == a / b,
        r + abs(b) == a % b,
        abs(q - s) <= abs(a),
{
    if b < 0 {
        assert(s * b == abs(b)) by (nonlinear_arith)
            requires
                s == -1,
                b < 0,
        ;
    } else {
        assert(s * b == abs(b)) by (nonlinear_arith)
            requires
                s == 1,
                b > 0,
        ;
    }
    assert(a == (q - s) * b + (r + abs(b))) by (nonlinear_arith)
        requires
            a == q * b + r,
            s * b == abs(b),
    ;
    lemma_euclid_unique(a, b, q - s, r + abs(b));
    lemma_abs_mul(q, b);
    let qb = q * b;
    assert(-qb == abs(a) - abs(r));
    assert(abs(qb) == abs(a) - abs(r));
    assert(abs(b) >= 2);
    assert(2 * abs(q) <= abs(q) * abs(b)) by (nonlinear_arith)
        requires
            abs(b) >= 2,
    ;
}

/// A number below `|b|` fits.
proof fn lemma_small_fits(x: int, b: int)
    requires
        0 <= x < abs(b),
        ibig_fits(b),
    ensures
        ibig_fits(x),
{
}

impl DivRem for IBig {
    type OutputDiv = IBig;

    type OutputRem = IBig;

    open spec fn divisor_ok(rhs: &IBig) -> bool {
        rhs@ != 0
    }

    fn div_rem(self, rhs: IBig) -> (r: (IBig, IBig))
        ensures
            r.0@ == trunc_div(self@, rhs@),
            r.1@ == trunc_rem(self@, rhs@),
    {
        IBig::div_rem(&self, &rhs)
    }
}

impl DivEuclid for IBig {
    type Output = IBig;

    open spec fn divisor_ok(rhs: &IBig) -> bool {
        rhs@ != 0
    }

    fn div_euclid(self, rhs: IBig) -> (r: IBig)
        ensures
            r@ == self@ / rhs@,
    {
        IBig::div_euclid(&self, &rhs)
    }
}

impl RemEuclid for IBig {
    type Output = IBig;

    open spec fn divisor_ok(rhs: &IBig) -> bool {
        rhs@ != 0
    }

    fn rem_euclid(self, rhs: IBig) -> (r: IBig)
        ensures
            r@ == self@ % rhs@,
    {
        IBig::rem_euclid(&self, &rhs)
    }
}

impl DivRemEuclid for IBig {
    type OutputDiv = IBig;

    type OutputRem = IBig;

    open spec fn divisor_ok(rhs: &IBig) -> bool {
        rhs@ != 0
    }

    fn div_rem_euclid(self, rhs: IBig) -> (r: (IBig, IBig))
        ensures
            r.0@ == self@ / rhs@,
            r.1@ == self@ % rhs@,
    {
        IBig::div_rem_euclid(&self, &rhs)
    }
}

} // verus!
