//! Addition and subtraction of unsigned big integers.

use crate::add::{
    add_one_in_place, add_same_len_in_place, add_with_carry, add_word_in_place, sub_in_place,
    sub_one_in_place, sub_same_len_in_place_swap, sub_word_in_place,
};
use crate::buffer::{Buffer, MAX_CAPACITY, MAX_LEN};
use crate::primitive::Word;
use crate::ubig::{fits, UBig};
use crate::value::{
    is_normalized, lemma_normalized_len_bound, lemma_pow_base_add, lemma_to_nat_append,
    lemma_to_nat_bound, lemma_to_nat_single, lemma_to_nat_split, pow_base, to_nat,
};
use vstd::prelude::*;

verus! {

/// The value of a slice of at most one word, as a word.
pub fn word_of_short(words: &[Word]) -> (r: Word)
    requires
        words@.len() <= 1,
    ensures
        r == to_nat(words@),
{
    if words.len() == 0 {
        0
    } else {
        proof {
            assert(words@ =~= seq![words@[0]]);
            lemma_to_nat_single(words@[0]);
        }
        words[0]
    }
}

/// The value of `s.take(n) + t` when `to_nat(s) == to_nat(s.take(n)) + B^n * to_nat(s.skip(n))`.
proof fn lemma_concat_value(lo: Seq<Word>, hi: Seq<Word>)
    ensures
        to_nat(lo + hi) == to_nat(lo) + pow_base(lo.len()) * to_nat(hi),
{
    lemma_to_nat_append(lo, hi);
}

/// A normalized sequence whose value is at most the value of another has at most its length.
pub proof fn lemma_normalized_shorter(a: Seq<Word>, b: Seq<Word>)
    requires
        is_normalized(a),
        to_nat(a) <= to_nat(b),
    ensures
        a.len() <= b.len(),
{
    lemma_to_nat_bound(b);
    lemma_normalized_len_bound(a, b.len());
}

impl UBig {
    /// Add two `Word`s.
    pub fn add_word(a: Word, b: Word) -> (r: UBig)
        ensures
            r@ == a + b,
    {
        let (res, overflow) = add_with_carry(a, b, false);
        proof {
            crate::value::lemma_pow_base_step(1);
            crate::value::lemma_pow_base_step(0);
            UBig::lemma_fits_small((a + b) as nat);
        }
        if overflow {
            let mut buffer = Buffer::allocate(2);
            buffer.push(res);
            buffer.push(1);
            proof {
                assert(buffer@ =~= seq![res].push(1));
                lemma_to_nat_single(res);
                crate::value::lemma_to_nat_push(seq![res], 1);
                crate::value::lemma_pow_base_step(0);
            }
            UBig::from_buffer(buffer)
        } else {
            UBig::from_word(res)
        }
    }

    /// Add a large number to a `Word`.
    pub fn add_large_word(buffer: Buffer, rhs: Word) -> (r: UBig)
        requires
            buffer.wf(),
            buffer@.len() >= 1,
            buffer@.len() < MAX_CAPACITY,
            fits(to_nat(buffer@) + rhs as nat),
        ensures
            r@ == to_nat(buffer@) + rhs,
    {
        let mut buffer = buffer;
        let ghost b0 = buffer@;
        let overflow = add_word_in_place(buffer.as_mut_slice(), rhs);
        if overflow {
            let ghost b1 = buffer@;
            buffer.push_may_reallocate(1);
            proof {
                crate::value::lemma_to_nat_push(b1, 1);
            }
        }
        UBig::from_buffer(buffer)
    }

    /// Add two large numbers.
    pub fn add_large(buffer: Buffer, rhs: &[Word]) -> (r: UBig)
        requires
            buffer.wf(),
            buffer@.len() <= MAX_LEN,
            rhs@.len() <= MAX_LEN,
            fits(to_nat(buffer@) + to_nat(rhs@)),
        ensures
            r@ == to_nat(buffer@) + to_nat(rhs@),
    {
        let mut buffer = buffer;
        let ghost l0 = buffer@;
        let ghost r0 = rhs@;
        let n = crate::math::min_usize(buffer.len(), rhs.len());
        let ghost lo1: Seq<Word>;
        let overflow = {
            let s = buffer.as_mut_slice();
            let (lo, _hi) = s.split_at_mut(n);
            let (rlo, _rhi) = rhs.split_at(n);
            let ghost lo0 = lo@;
            let c = add_same_len_in_place(lo, rlo);
            proof {
                lo1 = lo@;
                assert(lo0 =~= l0.take(n as int));
                assert(rlo@ =~= r0.take(n as int));
                assert(to_nat(lo1) + (if c { pow_base(n as nat) as int } else { 0 }) == to_nat(
                    l0.take(n as int),
                ) + to_nat(r0.take(n as int)));
            }
            c
        };
        proof {
            assert(buffer@ =~= lo1 + l0.skip(n as int));
            lemma_to_nat_split(l0, n as int);
            lemma_to_nat_split(r0, n as int);
            assert(r0.take(n as int) =~= r0.subrange(0, n as int));
        }
        if rhs.len() > n {
            buffer.ensure_capacity(rhs.len());
            let (_rlo, rhi) = rhs.split_at(n);
            buffer.extend(rhi);
            proof {
                assert(l0.skip(n as int) =~= Seq::<Word>::empty());
            }
        }
        let ghost t = buffer@.skip(n as int);
        proof {
            assert(buffer@ =~= lo1 + t);
            if rhs.len() > n {
                assert(t =~= r0.skip(n as int));
                assert(l0.skip(n as int) =~= Seq::<Word>::empty());
                assert(to_nat(l0.skip(n as int)) == 0);
            } else {
                assert(t =~= l0.skip(n as int));
                assert(r0.skip(n as int) =~= Seq::<Word>::empty());
                assert(to_nat(r0.skip(n as int)) == 0);
            }
            lemma_concat_value(lo1, t);
            let p = pow_base(n as nat) as int;
            assert(p * to_nat(l0.skip(n as int)) + p * to_nat(r0.skip(n as int)) == p * to_nat(t))
                by (nonlinear_arith)
                requires
                    to_nat(l0.skip(n as int)) == 0 || to_nat(r0.skip(n as int)) == 0,
                    to_nat(t) == to_nat(l0.skip(n as int)) + to_nat(r0.skip(n as int)),
            ;
            assert(to_nat(l0) + to_nat(r0) == to_nat(lo1) + (if overflow { p } else { 0 }) + p
                * to_nat(t));
            assert(to_nat(buffer@) == to_nat(lo1) + p * to_nat(t));
        }
        if overflow {
            let ghost t1: Seq<Word>;
            let o2 = {
                let s = buffer.as_mut_slice();
                let (_lo, hi) = s.split_at_mut(n);
                let ghost hi0 = hi@;
                let o = add_one_in_place(hi);
                proof {
                    t1 = hi@;
                    assert(hi0 =~= t);
                }
                o
            };
            proof {
                assert(buffer@ =~= lo1 + t1);
                lemma_concat_value(lo1, t1);
                let p = pow_base(n as nat) as int;
                lemma_pow_base_add(n as nat, t.len());
                assert(p * (to_nat(t1) + (if o2 { pow_base(t.len()) as int } else { 0 })) == p
                    * to_nat(t) + p) by (nonlinear_arith)
                    requires
                        to_nat(t1) + (if o2 { pow_base(t.len()) as int } else { 0 }) == to_nat(t)
                            + 1,
                ;
                let ob: int = if o2 { pow_base(t.len()) as int } else { 0 };
                assert(p * (to_nat(t1) + ob) == p * to_nat(t1) + p * ob) by (nonlinear_arith);
                assert(p * (if o2 { pow_base(t.len()) as int } else { 0 }) == (if o2 {
                    pow_base(n as nat + t.len()) as int
                } else {
                    0
                }));
                assert(to_nat(l0) + to_nat(r0) == to_nat(buffer@) + (if o2 {
                    pow_base(n as nat + t.len()) as int
                } else {
                    0
                }));
            }
            if o2 {
                let ghost b2 = buffer@;
                buffer.push_may_reallocate(1);
                proof {
                    crate::value::lemma_to_nat_push(b2, 1);
                    assert(b2.len() == n + t.len());
                }
            }
        }
        UBig::from_buffer(buffer)
    }

    /// `self + rhs`.
    pub fn add(&self, rhs: &UBig) -> (r: UBig)
        requires
            fits(self@ + rhs@),
        ensures
            r@ == self@ + rhs@,
    {
        let a = self.as_words();
        let b = rhs.as_words();
        proof {
            UBig::lemma_fits_len(a@, self@ + rhs@);
            UBig::lemma_fits_len(b@, self@ + rhs@);
        }
        if a.len() <= 1 && b.len() <= 1 {
            UBig::add_word(word_of_short(a), word_of_short(b))
        } else if b.len() <= 1 {
            UBig::add_large_word(self.clone().into_buffer(), word_of_short(b))
        } else if a.len() <= 1 {
            UBig::add_large_word(rhs.clone().into_buffer(), word_of_short(a))
        } else if a.len() >= b.len() {
            UBig::add_large(self.clone().into_buffer(), b)
        } else {
            UBig::add_large(rhs.clone().into_buffer(), a)
        }
    }

    /// `self += rhs`.
    pub fn add_assign(&mut self, rhs: &UBig)
        requires
            fits(old(self)@ + rhs@),
        ensures
            final(self)@ == old(self)@ + rhs@,
    {
        *self = self.add(rhs);
    }

    /// Subtract two `Word`s.
    pub fn sub_word(a: Word, b: Word) -> (r: UBig)
        requires
            a >= b,
        ensures
            r@ == a - b,
    {
        UBig::from_word(a - b)
    }

    /// Subtract a `Word` from a large number.
    pub fn sub_large_word(lhs: Buffer, rhs: Word) -> (r: UBig)
        requires
            lhs.wf(),
            lhs@.len() >= 1,
            to_nat(lhs@) >= rhs,
            fits(to_nat(lhs@)),
        ensures
            r@ == to_nat(lhs@) - rhs,
    {
        let mut lhs = lhs;
        let ghost l0 = lhs@;
        let borrow = sub_word_in_place(lhs.as_mut_slice(), rhs);
        proof {
            lemma_to_nat_bound(lhs@);
            assert(!borrow);
        }
        UBig::from_buffer(lhs)
    }

    /// Subtract a large number from a large number.
    pub fn sub_large(lhs: Buffer, rhs: &[Word]) -> (r: UBig)
        requires
            lhs.wf(),
            is_normalized(rhs@),
            to_nat(lhs@) >= to_nat(rhs@),
            fits(to_nat(lhs@)),
        ensures
            r@ == to_nat(lhs@) - to_nat(rhs@),
    {
        let mut lhs = lhs;
        proof {
            lemma_normalized_shorter(rhs@, lhs@);
        }
        let borrow = sub_in_place(lhs.as_mut_slice(), rhs);
        proof {
            lemma_to_nat_bound(lhs@);
            assert(!borrow);
        }
        UBig::from_buffer(lhs)
    }

    /// Subtract a large number (`rhs`, taken by value) from a large number given by its words.
    pub fn sub_large_ref_val(lhs: &[Word], rhs: Buffer) -> (r: UBig)
        requires
            rhs.wf(),
            is_normalized(rhs@),
            lhs@.len() <= MAX_CAPACITY,
            to_nat(lhs@) >= to_nat(rhs@),
            fits(to_nat(lhs@)),
        ensures
            r@ == to_nat(lhs@) - to_nat(rhs@),
    {
        let mut rhs = rhs;
        let ghost l0 = lhs@;
        let ghost r0 = rhs@;
        let n = rhs.len();
        proof {
            lemma_normalized_shorter(r0, l0);
        }
        let (llo, lhi) = lhs.split_at(n);
        let borrow = sub_same_len_in_place_swap(llo, rhs.as_mut_slice());
        let ghost r1 = rhs@;
        rhs.ensure_capacity(lhs.len());
        rhs.extend(lhi);
        proof {
            assert(llo@ =~= l0.take(n as int));
            assert(lhi@ =~= l0.skip(n as int));
            lemma_to_nat_split(l0, n as int);
            assert(rhs@ =~= r1 + lhi@);
            lemma_concat_value(r1, lhi@);
        }
        if borrow {
            let ghost t1: Seq<Word>;
            let b2 = {
                let s = rhs.as_mut_slice();
                let (_lo, hi) = s.split_at_mut(n);
                let ghost hi0 = hi@;
                let b = sub_one_in_place(hi);
                proof {
                    t1 = hi@;
                    assert(hi0 =~= lhi@);
                }
                b
            };
            proof {
                assert(rhs@ =~= r1 + t1);
                lemma_concat_value(r1, t1);
                lemma_to_nat_bound(r1);
                lemma_to_nat_bound(t1);
                let p = pow_base(n as nat) as int;
                lemma_pow_base_add(n as nat, t1.len());
                crate::value::lemma_pow_base_pos(n as nat);
                let bb: int = if b2 { pow_base(t1.len()) as int } else { 0 };
                assert(to_nat(t1) == to_nat(lhi@) - 1 + bb);
                if b2 {
                    // The total would be negative.
                    assert(to_nat(lhi@) == 0);
                    assert(p * to_nat(lhi@) == 0) by (nonlinear_arith)
                        requires
                            to_nat(lhi@) == 0,
                    ;
                    assert(false);
                }
                assert(p * to_nat(t1) == p * to_nat(lhi@) - p) by (nonlinear_arith)
                    requires
                        to_nat(t1) == to_nat(lhi@) - 1,
                ;
            }
        }
        UBig::from_buffer(rhs)
    }

    /// `self - rhs`.
    pub fn sub(&self, rhs: &UBig) -> (r: UBig)
        requires
            self@ >= rhs@,
        ensures
            r@ == self@ - rhs@,
    {
        let a = self.as_words();
        let b = rhs.as_words();
        proof {
            lemma_normalized_shorter(b@, a@);
            UBig::lemma_words_fit(a@);
        }
        if a.len() <= 1 {
            UBig::sub_word(word_of_short(a), word_of_short(b))
        } else if b.len() <= 1 {
            UBig::sub_large_word(self.clone().into_buffer(), word_of_short(b))
        } else {
            UBig::sub_large(self.clone().into_buffer(), b)
        }
    }

    /// `self -= rhs`.
    pub fn sub_assign(&mut self, rhs: &UBig)
        requires
            old(self)@ >= rhs@,
        ensures
            final(self)@ == old(self)@ - rhs@,
    {
        *self = self.sub(rhs);
    }
}

} // verus!
