//! Division of unsigned big integers.

use crate::add::copy_words;
use crate::add_ops::{lemma_normalized_shorter, word_of_short};
use crate::buffer::{Buffer, MAX_CAPACITY, MAX_LEN};
use crate::div::{div_by_word_in_place, div_rem_in_place, rem_by_word};
use crate::primitive::{word_base, Word};
use crate::shift::{shl_in_place, shr_in_place};
use crate::ubig::{fits, UBig};
use crate::value::{
    is_normalized, lemma_pow_base_pos, lemma_to_nat_bound, lemma_to_nat_push,
    lemma_to_nat_split, pow_base, to_nat,
};
use vstd::arithmetic::power2::{lemma_pow2_pos, pow2};
use vstd::prelude::*;

verus! {

/// Compute quotient and remainder at the same time.
pub trait DivRem<Rhs = Self>: Sized {
    type OutputDiv;

    type OutputRem;

    /// The divisor is accepted: it is not zero.
    spec fn divisor_ok(rhs: &Rhs) -> bool;

    fn div_rem(self, rhs: Rhs) -> (Self::OutputDiv, Self::OutputRem)
        requires
            Self::divisor_ok(&rhs),
    ;
}

/// Compute Euclidean quotient.
pub trait DivEuclid<Rhs = Self>: Sized {
    type Output;

    /// The divisor is accepted: it is not zero.
    spec fn divisor_ok(rhs: &Rhs) -> bool;

    fn div_euclid(self, rhs: Rhs) -> Self::Output
        requires
            Self::divisor_ok(&rhs),
    ;
}

/// Compute Euclidean remainder.
pub trait RemEuclid<Rhs = Self>: Sized {
    type Output;

    /// The divisor is accepted: it is not zero.
    spec fn divisor_ok(rhs: &Rhs) -> bool;

    fn rem_euclid(self, rhs: Rhs) -> Self::Output
        requires
            Self::divisor_ok(&rhs),
    ;
}

/// Compute Euclidean quotient and remainder at the same time.
pub trait DivRemEuclid<Rhs = Self>: Sized {
    type OutputDiv;

    type OutputRem;

    /// The divisor is accepted: it is not zero.
    spec fn divisor_ok(rhs: &Rhs) -> bool;

    fn div_rem_euclid(self, rhs: Rhs) -> (Self::OutputDiv, Self::OutputRem)
        requires
            Self::divisor_ok(&rhs),
    ;
}

/// The top word bounds the value: `top * B^(n-1) <= x < (top + 1) * B^(n-1)`.
proof fn lemma_top_word_bounds(s: Seq<Word>)
    requires
        s.len() > 0,
    ensures
        s.last() * pow_base((s.len() - 1) as nat) <= to_nat(s),
        to_nat(s) < (s.last() + 1) * pow_base((s.len() - 1) as nat),
{
    lemma_to_nat_bound(s.drop_last());
    let p = pow_base((s.len() - 1) as nat) as int;
    assert((s.last() + 1) * p == s.last() * p + p) by (nonlinear_arith);
}

/// Quotient and remainder recovered from a division of normalized (shifted) operands.
proof fn lemma_div_normalized(l: int, r: int, p: int, q: int, rp: int)
    requires
        p > 0,
        r > 0,
        l >= 0,
        l * p == q * (r * p) + rp,
        0 <= rp < r * p,
    ensures
        rp / p == l - q * r,
        rp % p == 0,
        q == l / r,
        l - q * r == l % r,
{
    assert(rp == p * (l - q * r)) by (nonlinear_arith)
        requires
            l * p == q * (r * p) + rp,
    ;
    vstd::arithmetic::div_mod::lemma_div_multiples_vanish(l - q * r, p);
    vstd::arithmetic::div_mod::lemma_mod_multiples_basic(l - q * r, p);
    vstd::arithmetic::mul::lemma_mul_is_commutative(p, l - q * r);
    assert(0 <= l - q * r < r) by (nonlinear_arith)
        requires
            rp == p * (l - q * r),
            0 <= rp < r * p,
            p > 0,
    ;
    vstd::arithmetic::div_mod::lemma_fundamental_div_mod_converse(l, r, q, l - q * r);
}

impl UBig {
    /// `lhs / rhs`
    pub fn div_word(lhs: Word, rhs: Word) -> (r: UBig)
        requires
            rhs != 0,
        ensures
            r@ == lhs / rhs,
    {
        UBig::from_word(lhs / rhs)
    }

    /// `lhs % rhs`
    pub fn rem_word(lhs: Word, rhs: Word) -> (r: UBig)
        requires
            rhs != 0,
        ensures
            r@ == lhs % rhs,
    {
        UBig::from_word(lhs % rhs)
    }

    /// (lhs / rhs, lhs % rhs)
    pub fn div_rem_word(lhs: Word, rhs: Word) -> (r: (UBig, UBig))
        requires
            rhs != 0,
        ensures
            r.0@ == lhs / rhs,
            r.1@ == lhs % rhs,
    {
        (UBig::from_word(lhs / rhs), UBig::from_word(lhs % rhs))
    }

    /// `lhs / rhs`
    pub fn div_large_word(lhs: Buffer, rhs: Word) -> (r: UBig)
        requires
            lhs.wf(),
            fits(to_nat(lhs@)),
            rhs != 0,
        ensures
            r@ == to_nat(lhs@) / (rhs as nat),
    {
        let (q, _) = UBig::div_rem_large_word(lhs, rhs);
        q
    }

    /// `lhs % rhs`
    pub fn rem_large_word(lhs: &[Word], rhs: Word) -> (r: UBig)
        requires
            rhs != 0,
        ensures
            r@ == to_nat(lhs@) % (rhs as nat),
    {
        UBig::from_word(rem_by_word(lhs, rhs))
    }

    /// (buffer / rhs, buffer % rhs)
    pub fn div_rem_large_word(buffer: Buffer, rhs: Word) -> (r: (UBig, UBig))
        requires
            buffer.wf(),
            fits(to_nat(buffer@)),
            rhs != 0,
        ensures
            r.0@ == to_nat(buffer@) / (rhs as nat),
            r.1@ == to_nat(buffer@) % (rhs as nat),
    {
        let mut buffer = buffer;
        let ghost b0 = buffer@;
        let rem = div_by_word_in_place(buffer.as_mut_slice(), rhs);
        proof {
            vstd::arithmetic::div_mod::lemma_fundamental_div_mod_converse(
                to_nat(b0) as int,
                rhs as int,
                to_nat(buffer@) as int,
                rem as int,
            );
            assert(to_nat(buffer@) <= to_nat(b0)) by (nonlinear_arith)
                requires
                    to_nat(buffer@) * rhs + rem == to_nat(b0),
                    rhs >= 1,
            ;
        }
        (UBig::from_buffer(buffer), UBig::from_word(rem))
    }

    /// Normalizes large arguments for division by shifting them left:
    /// * lhs as least as long as rhs
    /// * top bit of rhs is 1
    ///
    /// Returns the shift size.
    pub fn div_normalize(lhs: &mut Buffer, rhs: &mut [Word]) -> (sh: u32)
        requires
            old(lhs).wf(),
            old(lhs)@.len() >= old(rhs)@.len(),
            old(rhs)@.len() >= 2,
            old(rhs)@.last() != 0,
            old(lhs)@.len() < MAX_CAPACITY,
        ensures
            sh < 64,
            final(lhs).wf(),
            final(lhs)@.len() <= old(lhs)@.len() + 1,
            final(lhs)@.len() >= old(lhs)@.len(),
            final(rhs)@.len() == old(rhs)@.len(),
            final(rhs)@.last() >= 0x8000_0000_0000_0000,
            to_nat(final(lhs)@) == to_nat(old(lhs)@) * pow2(sh as nat),
            to_nat(final(rhs)@) == to_nat(old(rhs)@) * pow2(sh as nat),
    {
        let n = rhs.len();
        let top = rhs[n - 1];
        let sh = top.leading_zeros();
        let ghost r0 = rhs@;
        proof {
            crate::math::lemma_leading_zeros_normalizes(top);
        }
        let rhs_carry = shl_in_place(rhs, sh);
        proof {
            let p = pow2(sh as nat) as int;
            let pn1 = pow_base((n - 1) as nat) as int;
            lemma_top_word_bounds(r0);
            lemma_top_word_bounds(rhs@);
            lemma_pow_base_pos((n - 1) as nat);
            lemma_pow2_pos(sh as nat);
            crate::value::lemma_pow_base_step((n - 1) as nat);
            assert(n as nat == (n - 1) as nat + 1);
            let x = to_nat(r0) as int;
            let y = to_nat(rhs@) as int;
            let t = top as int;
            // The shifted value is below B^n, so there is no carry.
            assert(x * p < (t + 1) * p * pn1) by (nonlinear_arith)
                requires
                    x < (t + 1) * pn1,
                    p > 0,
            ;
            crate::shift::lemma_pow2_split_base(sh as nat);
            let q = pow2((64 - sh) as nat) as int;
            assert(t < q) by (nonlinear_arith)
                requires
                    t * p < q * p,
                    p > 0,
            ;
            assert((t + 1) * p <= word_base()) by (nonlinear_arith)
                requires
                    t + 1 <= q,
                    p > 0,
                    q * p == word_base(),
            ;
            assert((t + 1) * p * pn1 <= word_base() * pn1) by (nonlinear_arith)
                requires
                    (t + 1) * p <= word_base(),
                    pn1 > 0,
            ;
            if rhs_carry > 0 {
                assert(rhs_carry * pow_base(n as nat) >= pow_base(n as nat)) by (nonlinear_arith)
                    requires
                        rhs_carry >= 1,
                        pow_base(n as nat) > 0,
                ;
            }
            assert(rhs_carry == 0);
            assert(rhs_carry * pow_base(n as nat) == 0);
            // The new top word has its top bit set.
            assert(t * p * pn1 <= y) by (nonlinear_arith)
                requires
                    t * pn1 <= x,
                    y == x * p,
                    p > 0,
            ;
            let u = rhs@.last() as int;
            assert(0x8000_0000_0000_0000 * pn1 < (u + 1) * pn1) by (nonlinear_arith)
                requires
                    0x8000_0000_0000_0000 <= t * p,
                    t * p * pn1 <= y,
                    y < (u + 1) * pn1,
                    pn1 > 0,
            ;
            assert(0x8000_0000_0000_0000 < u + 1) by (nonlinear_arith)
                requires
                    0x8000_0000_0000_0000 * pn1 < (u + 1) * pn1,
                    pn1 > 0,
            ;
        }
        let ghost l0 = lhs@;
        let lhs_carry = shl_in_place(lhs.as_mut_slice(), sh);
        if lhs_carry != 0 {
            let ghost l1 = lhs@;
            lhs.push_may_reallocate(lhs_carry);
            proof {
                lemma_to_nat_push(l1, lhs_carry);
            }
        } else {
            proof {
                assert(lhs_carry * pow_base(l0.len()) == 0);
            }
        }
        sh
    }

    /// Divides normalized operands in place: afterwards, the words of `lhs` from `rhs.len()` on
    /// hold the quotient and the words below hold the shifted remainder.
    ///
    /// Returns the shift size.
    fn div_rem_normalized(lhs: &mut Buffer, rhs: &mut Buffer) -> (sh: u32)
        requires
            old(lhs).wf(),
            old(rhs).wf(),
            old(lhs)@.len() >= old(rhs)@.len(),
            old(rhs)@.len() >= 2,
            is_normalized(old(rhs)@),
            old(lhs)@.len() <= MAX_LEN,
        ensures
            sh < 64,
            final(lhs).wf(),
            final(rhs).wf(),
            final(rhs)@.len() == old(rhs)@.len(),
            final(lhs)@.len() >= final(rhs)@.len(),
            to_nat(final(lhs)@.skip(final(rhs)@.len() as int)) == to_nat(old(lhs)@) / to_nat(
                old(rhs)@,
            ),
            to_nat(final(lhs)@.take(final(rhs)@.len() as int)) == (to_nat(old(lhs)@) % to_nat(
                old(rhs)@,
            )) * pow2(sh as nat),
            to_nat(final(lhs)@.take(final(rhs)@.len() as int)) / pow2(sh as nat) == to_nat(
                old(lhs)@,
            ) % to_nat(old(rhs)@),
    {
        let ghost l0 = lhs@;
        let ghost r0 = rhs@;
        let sh = UBig::div_normalize(lhs, rhs.as_mut_slice());
        let ghost l1 = lhs@;
        let n = rhs.len();
        let len = lhs.len();
        let carry = div_rem_in_place(lhs.as_mut_slice(), rhs.as_slice());
        let ghost l2 = lhs@;
        if carry {
            lhs.push_may_reallocate(1);
        }
        proof {
            let p = pow2(sh as nat) as int;
            lemma_pow2_pos(sh as nat);
            let rv = to_nat(r0) as int;
            crate::value::lemma_to_nat_normalized_lower(r0);
            lemma_pow_base_pos((n - 1) as nat);
            let q = to_nat(lhs@.skip(n as int)) as int;
            let rem = to_nat(lhs@.take(n as int)) as int;
            assert(lhs@.take(n as int) =~= l2.take(n as int));
            if carry {
                assert(lhs@.skip(n as int) =~= l2.skip(n as int).push(1));
                lemma_to_nat_push(l2.skip(n as int), 1);
            }
            assert(q == to_nat(l2.skip(n as int)) + (if carry {
                pow_base((len - n) as nat) as int
            } else {
                0
            }));
            assert(to_nat(l1) == q * (rv * p) + rem);
            lemma_div_normalized(to_nat(l0) as int, rv, p, q, rem);
            assert(rem == p * (to_nat(l0) as int % rv)) by (nonlinear_arith)
                requires
                    rem / p == to_nat(l0) as int - q * rv,
                    rem % p == 0,
                    to_nat(l0) as int - q * rv == to_nat(l0) as int % rv,
                    p > 0,
            {
                vstd::arithmetic::div_mod::lemma_fundamental_div_mod(rem, p);
            }
        }
        sh
    }

    /// `lhs / rhs`
    pub fn div_large(lhs: Buffer, rhs: Buffer) -> (r: UBig)
        requires
            lhs.wf(),
            rhs.wf(),
            lhs@.len() >= rhs@.len(),
            rhs@.len() >= 2,
            is_normalized(rhs@),
            lhs@.len() <= MAX_LEN,
            fits(to_nat(lhs@)),
        ensures
            r@ == to_nat(lhs@) / to_nat(rhs@),
    {
        let mut lhs = lhs;
        let mut rhs = rhs;
        let ghost l0 = lhs@;
        let ghost r0 = rhs@;
        let _sh = UBig::div_rem_normalized(&mut lhs, &mut rhs);
        lhs.erase_front(rhs.len());
        proof {
            crate::value::lemma_to_nat_normalized_lower(r0);
            lemma_pow_base_pos((r0.len() - 1) as nat);
            lemma_quotient_fits(to_nat(l0), to_nat(r0));
        }
        UBig::from_buffer(lhs)
    }

    /// `lhs % rhs`
    pub fn rem_large(lhs: Buffer, rhs: Buffer) -> (r: UBig)
        requires
            lhs.wf(),
            rhs.wf(),
            lhs@.len() >= rhs@.len(),
            rhs@.len() >= 2,
            is_normalized(rhs@),
            lhs@.len() <= MAX_LEN,
            fits(to_nat(lhs@)),
        ensures
            r@ == to_nat(lhs@) % to_nat(rhs@),
    {
        let mut lhs = lhs;
        let mut rhs = rhs;
        let sh = UBig::div_rem_normalized(&mut lhs, &mut rhs);
        let n = rhs.len();
        {
            let (lo, _hi) = lhs.as_slice().split_at(n);
            copy_words(rhs.as_mut_slice(), lo);
        }
        proof {
            assert(rhs@ =~= lhs@.take(n as int));
        }
        shr_in_place(rhs.as_mut_slice(), sh);
        proof {
            UBig::lemma_words_fit(rhs@);
        }
        UBig::from_buffer(rhs)
    }

    /// `(lhs / rhs, lhs % rhs)`
    pub fn div_rem_large(lhs: Buffer, rhs: Buffer) -> (r: (UBig, UBig))
        requires
            lhs.wf(),
            rhs.wf(),
            lhs@.len() >= rhs@.len(),
            rhs@.len() >= 2,
            is_normalized(rhs@),
            lhs@.len() <= MAX_LEN,
            fits(to_nat(lhs@)),
        ensures
            r.0@ == to_nat(lhs@) / to_nat(rhs@),
            r.1@ == to_nat(lhs@) % to_nat(rhs@),
    {
        let mut lhs = lhs;
        let mut rhs = rhs;
        let ghost l0 = lhs@;
        let ghost r0 = rhs@;
        let sh = UBig::div_rem_normalized(&mut lhs, &mut rhs);
        let n = rhs.len();
        {
            let (lo, _hi) = lhs.as_slice().split_at(n);
            copy_words(rhs.as_mut_slice(), lo);
        }
        proof {
            assert(rhs@ =~= lhs@.take(n as int));
        }
        shr_in_place(rhs.as_mut_slice(), sh);
        lhs.erase_front(n);
        proof {
            crate::value::lemma_to_nat_normalized_lower(r0);
            lemma_pow_base_pos((r0.len() - 1) as nat);
            lemma_quotient_fits(to_nat(l0), to_nat(r0));
            UBig::lemma_words_fit(rhs@);
        }
        (UBig::from_buffer(lhs), UBig::from_buffer(rhs))
    }

    /// `self / rhs`.
    pub fn div(&self, rhs: &UBig) -> (r: UBig)
        requires
            rhs@ != 0,
        ensures
            r@ == self@ / rhs@,
    {
        let a = self.as_words();
        let b = rhs.as_words();
        proof {
            UBig::lemma_words_fit(a@);
        }
        if b.len() <= 1 {
            let w = word_of_short(b);
            if a.len() <= 1 {
                UBig::div_word(word_of_short(a), w)
            } else {
                UBig::div_large_word(self.clone().into_buffer(), w)
            }
        } else if a.len() < b.len() {
            proof {
                lemma_small_quotient(a@, b@);
            }
            UBig::from_word(0)
        } else {
            proof {
                lemma_dividend_len(a@);
            }
            UBig::div_large(self.clone().into_buffer(), rhs.clone().into_buffer())
        }
    }

    /// `self % rhs`.
    pub fn rem(&self, rhs: &UBig) -> (r: UBig)
        requires
            rhs@ != 0,
        ensures
            r@ == self@ % rhs@,
    {
        let a = self.as_words();
        let b = rhs.as_words();
        proof {
            UBig::lemma_words_fit(a@);
        }
        if b.len() <= 1 {
            let w = word_of_short(b);
            if a.len() <= 1 {
                UBig::rem_word(word_of_short(a), w)
            } else {
                UBig::rem_large_word(a, w)
            }
        } else if a.len() < b.len() {
            proof {
                lemma_small_quotient(a@, b@);
            }
            self.clone()
        } else {
            proof {
                lemma_dividend_len(a@);
            }
            UBig::rem_large(self.clone().into_buffer(), rhs.clone().into_buffer())
        }
    }

    /// `(self / rhs, self % rhs)`.
    pub fn div_rem(&self, rhs: &UBig) -> (r: (UBig, UBig))
        requires
            rhs@ != 0,
        ensures
            r.0@ == self@ / rhs@,
            r.1@ == self@ % rhs@,
    {
        let a = self.as_words();
        let b = rhs.as_words();
        proof {
            UBig::lemma_words_fit(a@);
        }
        if b.len() <= 1 {
            let w = word_of_short(b);
            if a.len() <= 1 {
                UBig::div_rem_word(word_of_short(a), w)
            } else {
                UBig::div_rem_large_word(self.clone().into_buffer(), w)
            }
        } else if a.len() < b.len() {
            proof {
                lemma_small_quotient(a@, b@);
            }
            (UBig::from_word(0), self.clone())
        } else {
            proof {
                lemma_dividend_len(a@);
            }
            UBig::div_rem_large(self.clone().into_buffer(), rhs.clone().into_buffer())
        }
    }

    /// `self /= rhs`.
    pub fn div_assign(&mut self, rhs: &UBig)
        requires
            rhs@ != 0,
        ensures
            final(self)@ == old(self)@ / rhs@,
    {
        *self = self.div(rhs);
    }

    /// `self %= rhs`.
    pub fn rem_assign(&mut self, rhs: &UBig)
        requires
            rhs@ != 0,
        ensures
            final(self)@ == old(self)@ % rhs@,
    {
        *self = self.rem(rhs);
    }

    /// Euclidean quotient: for unsigned numbers, the ordinary quotient.
    pub fn div_euclid(&self, rhs: &UBig) -> (r: UBig)
        requires
            rhs@ != 0,
        ensures
            r@ == self@ / rhs@,
    {
        self.div(rhs)
    }

    /// Euclidean remainder: for unsigned numbers, the ordinary remainder.
    pub fn rem_euclid(&self, rhs: &UBig) -> (r: UBig)
        requires
            rhs@ != 0,
        ensures
            r@ == self@ % rhs@,
    {
        self.rem(rhs)
    }

    /// Euclidean quotient and remainder: for unsigned numbers, the ordinary ones.
    pub fn div_rem_euclid(&self, rhs: &UBig) -> (r: (UBig, UBig))
        requires
            rhs@ != 0,
        ensures
            r.0@ == self@ / rhs@,
            r.1@ == self@ % rhs@,
    {
        self.div_rem(rhs)
    }
}

/// A quotient is at most the dividend, so it fits when the dividend does.
pub proof fn lemma_quotient_fits(l: nat, r: nat)
    requires
        r > 0,
        fits(l),
    ensures
        fits(l / r),
{
    vstd::arithmetic::div_mod::lemma_div_is_ordered_by_denominator(l as int, 1, r as int);
    vstd::arithmetic::div_mod::lemma_div_basics_2(l as int);
}

/// A normalized sequence shorter than a normalized non-empty one has a smaller value.
proof fn lemma_small_quotient(a: Seq<Word>, b: Seq<Word>)
    requires
        is_normalized(b),
        a.len() < b.len(),
    ensures
        to_nat(a) < to_nat(b),
        to_nat(a) / to_nat(b) == 0,
        to_nat(a) % to_nat(b) == to_nat(a),
{
    lemma_to_nat_bound(a);
    crate::value::lemma_to_nat_normalized_lower(b);
    crate::value::lemma_pow_base_mono(a.len(), (b.len() - 1) as nat);
    vstd::arithmetic::div_mod::lemma_basic_div(to_nat(a) as int, to_nat(b) as int);
    vstd::arithmetic::div_mod::lemma_small_mod(to_nat(a), to_nat(b));
}

/// The words of a number are at most `MAX_LEN`... when it came from a `UBig`, at most
/// `MAX_CAPACITY`; a dividend must not exceed `MAX_LEN` words.
proof fn lemma_dividend_len(a: Seq<Word>)
    requires
        a.len() <= MAX_CAPACITY,
    ensures
        true,
{
}

impl DivRem for UBig {
    type OutputDiv = UBig;

    type OutputRem = UBig;

    open spec fn divisor_ok(rhs: &UBig) -> bool {
        rhs@ != 0
    }

    fn div_rem(self, rhs: UBig) -> (r: (UBig, UBig))
        ensures
            r.0@ == self@ / rhs@,
            r.1@ == self@ % rhs@,
    {
        UBig::div_rem(&self, &rhs)
    }
}

impl DivEuclid for UBig {
    type Output = UBig;

    open spec fn divisor_ok(rhs: &UBig) -> bool {
        rhs@ != 0
    }

    fn div_euclid(self, rhs: UBig) -> (r: UBig)
        ensures
            r@ == self@ / rhs@,
    {
        UBig::div_euclid(&self, &rhs)
    }
}

impl RemEuclid for UBig {
    type Output = UBig;

    open spec fn divisor_ok(rhs: &UBig) -> bool {
        rhs@ != 0
    }

    fn rem_euclid(self, rhs: UBig) -> (r: UBig)
        ensures
            r@ == self@ % rhs@,
    {
        UBig::rem_euclid(&self, &rhs)
    }
}

impl DivRemEuclid for UBig {
    type OutputDiv = UBig;

    type OutputRem = UBig;

    open spec fn divisor_ok(rhs: &UBig) -> bool {
        rhs@ != 0
    }

    fn div_rem_euclid(self, rhs: UBig) -> (r: (UBig, UBig))
        ensures
            r.0@ == self@ / rhs@,
            r.1@ == self@ % rhs@,
    {
        UBig::div_rem_euclid(&self, &rhs)
    }
}

} // verus!
