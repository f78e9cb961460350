//! Addition and subtraction of word sequences in place.

use crate::primitive::{word_base, SignedWord, Word};
use crate::sign::Sign;
use crate::value::{
    lemma_pow_base_add, lemma_pow_base_mono, lemma_pow_base_pos, lemma_pow_base_step,
    lemma_to_nat_bound, lemma_to_nat_normalized_lower, lemma_to_nat_split,
    lemma_to_nat_take_next, lemma_to_nat_take_zero_tail, lemma_to_nat_top_less,
    lemma_to_nat_update, pow_base, to_nat,
};
use vstd::prelude::*;

verus! {

/// `s*p + cout*(B*p) == a*p + b*p + cin*p` given `s + cout*B == a + b + cin`.
pub proof fn lemma_add_step(a: int, b: int, cin: int, s: int, cout: int, p: int)
    by (nonlinear_arith)
    requires
        s + cout * word_base() == a + b + cin,
    ensures
        s * p + cout * (word_base() * p) == a * p + b * p + cin * p,
{
}

/// `s*p - bout*(B*p) == a*p - b*p - bin*p` given `s - bout*B == a - b - bin`.
pub proof fn lemma_sub_step(a: int, b: int, bin: int, s: int, bout: int, p: int)
    by (nonlinear_arith)
    requires
        s - bout * word_base() == a - b - bin,
    ensures
        s * p - bout * (word_base() * p) == a * p - b * p - bin * p,
{
}

/// Add `a + b + carry`.
///
/// Returns (result, overflow).
pub fn add_with_carry(a: Word, b: Word, carry: bool) -> (r: (Word, bool))
    ensures
        r.0 + (if r.1 { word_base() } else { 0 }) == a + b + (if carry { 1int } else { 0 }),
{
    let c: Word = if carry { 1 } else { 0 };
    if a <= Word::MAX - b {
        let s = a + b;
        if s <= Word::MAX - c {
            (s + c, false)
        } else {
            (0, true)
        }
    } else {
        let s = a - (Word::MAX - b) - 1;
        (s + c, true)
    }
}

/// Subtract `a - b - borrow`.
///
/// Returns (result, overflow).
pub fn sub_with_borrow(a: Word, b: Word, borrow: bool) -> (r: (Word, bool))
    ensures
        r.0 - (if r.1 { word_base() } else { 0 }) == a - b - (if borrow { 1int } else { 0 }),
{
    let c: Word = if borrow { 1 } else { 0 };
    if a >= b {
        let d = a - b;
        if d >= c {
            (d - c, false)
        } else {
            (Word::MAX, true)
        }
    } else {
        let d = Word::MAX - (b - a) + 1;
        (d - c, true)
    }
}

/// Add one to a word sequence.
///
/// Returns overflow.
pub fn add_one_in_place(words: &mut [Word]) -> (overflow: bool)
    ensures
        final(words)@.len() == old(words)@.len(),
        to_nat(final(words)@) + (if overflow { pow_base(old(words)@.len()) } else { 0 })
            == to_nat(old(words)@) + 1,
{
    let ghost w0 = words@;
    let n = words.len();
    let mut i: usize = 0;
    while i < n
        invariant
            0 <= i <= n,
            n == words@.len(),
            words@.len() == w0.len(),
            w0 == old(words)@,
            to_nat(words@) + pow_base(i as nat) == to_nat(w0) + 1,
        decreases n - i,
    {
        let w = words[i];
        if w == Word::MAX {
            proof {
                lemma_to_nat_update(words@, i as int, 0);
                lemma_pow_base_step(i as nat);
            }
            words[i] = 0;
            i += 1;
        } else {
            proof {
                lemma_to_nat_update(words@, i as int, (w + 1) as Word);
                lemma_add_step(w as int, 1, 0, (w + 1) as int, 0, pow_base(i as nat) as int);
            }
            words[i] = w + 1;
            return false;
        }
    }
    true
}

/// Subtract one from a word sequence.
///
/// Returns borrow.
pub fn sub_one_in_place(words: &mut [Word]) -> (borrow: bool)
    ensures
        final(words)@.len() == old(words)@.len(),
        to_nat(final(words)@) == to_nat(old(words)@) - 1 + (if borrow {
            pow_base(old(words)@.len())
        } else {
            0
        }),
{
    let ghost w0 = words@;
    let n = words.len();
    let mut i: usize = 0;
    while i < n
        invariant
            0 <= i <= n,
            n == words@.len(),
            words@.len() == w0.len(),
            w0 == old(words)@,
            to_nat(words@) == to_nat(w0) - 1 + pow_base(i as nat),
        decreases n - i,
    {
        let w = words[i];
        if w == 0 {
            proof {
                lemma_to_nat_update(words@, i as int, Word::MAX);
                lemma_pow_base_step(i as nat);
            }
            words[i] = Word::MAX;
            i += 1;
        } else {
            proof {
                lemma_to_nat_update(words@, i as int, (w - 1) as Word);
                lemma_sub_step(w as int, 1, 0, (w - 1) as int, 0, pow_base(i as nat) as int);
            }
            words[i] = w - 1;
            return false;
        }
    }
    true
}

/// Add a word to a non-empty word sequence.
///
/// Returns overflow.
pub fn add_word_in_place(words: &mut [Word], rhs: Word) -> (overflow: bool)
    requires
        old(words)@.len() > 0,
    ensures
        final(words)@.len() == old(words)@.len(),
        to_nat(final(words)@) + (if overflow { pow_base(old(words)@.len()) } else { 0 })
            == to_nat(old(words)@) + rhs,
{
    let ghost w0 = words@;
    let (a, overflow) = add_with_carry(words[0], rhs, false);
    proof {
        lemma_to_nat_update(words@, 0, a);
        lemma_add_step(w0[0] as int, rhs as int, 0, a as int, if overflow { 1 } else { 0 }, 1);
    }
    words[0] = a;
    if overflow {
        let ghost w1 = words@;
        let (lo, hi) = words.split_at_mut(1);
        let o = add_one_in_place(hi);
        proof {
            lemma_to_nat_split(w1, 1);
            lemma_to_nat_split(words@, 1);
            assert(words@.take(1) =~= lo@);
            assert(words@.skip(1) =~= hi@);
            assert(w1.take(1) =~= lo@);
            lemma_pow_base_step(0);
            lemma_pow_base_step((w0.len() - 1) as nat);
            vstd::arithmetic::mul::lemma_mul_is_distributive_add(
                word_base() as int,
                to_nat(w1.skip(1)) as int,
                1,
            );
            assert(w1.skip(1).len() == w0.len() - 1);
            if o {
                vstd::arithmetic::mul::lemma_mul_is_distributive_add(
                    word_base() as int,
                    to_nat(hi@) as int,
                    pow_base((w0.len() - 1) as nat) as int,
                );
            }
        }
        o
    } else {
        false
    }
}

/// Subtract a word from a non-empty word sequence.
///
/// Returns borrow.
pub fn sub_word_in_place(words: &mut [Word], rhs: Word) -> (borrow: bool)
    requires
        old(words)@.len() > 0,
    ensures
        final(words)@.len() == old(words)@.len(),
        to_nat(final(words)@) == to_nat(old(words)@) - rhs + (if borrow {
            pow_base(old(words)@.len())
        } else {
            0
        }),
{
    let ghost w0 = words@;
    let (a, borrow) = sub_with_borrow(words[0], rhs, false);
    proof {
        lemma_to_nat_update(words@, 0, a);
        lemma_sub_step(w0[0] as int, rhs as int, 0, a as int, if borrow { 1 } else { 0 }, 1);
    }
    words[0] = a;
    if borrow {
        let ghost w1 = words@;
        let (lo, hi) = words.split_at_mut(1);
        let b = sub_one_in_place(hi);
        proof {
            lemma_to_nat_split(w1, 1);
            lemma_to_nat_split(words@, 1);
            assert(words@.take(1) =~= lo@);
            assert(words@.skip(1) =~= hi@);
            assert(w1.take(1) =~= lo@);
            lemma_pow_base_step(0);
            lemma_pow_base_step((w0.len() - 1) as nat);
            assert(w1.skip(1).len() == w0.len() - 1);
            let t = to_nat(w1.skip(1)) - 1 + (if b { pow_base((w0.len() - 1) as nat) } else { 0 });
            vstd::arithmetic::mul::lemma_mul_is_distributive_add(
                word_base() as int,
                to_nat(w1.skip(1)) as int - 1,
                if b { pow_base((w0.len() - 1) as nat) as int } else { 0 },
            );
            vstd::arithmetic::mul::lemma_mul_is_distributive_sub(
                word_base() as int,
                to_nat(w1.skip(1)) as int,
                1,
            );
        }
        b
    } else {
        false
    }
}

} // verus!

verus! {

/// Add a word sequence of same length in place.
///
/// Returns overflow.
pub fn add_same_len_in_place(words: &mut [Word], rhs: &[Word]) -> (carry: bool)
    requires
        old(words)@.len() == rhs@.len(),
    ensures
        final(words)@.len() == old(words)@.len(),
        to_nat(final(words)@) + (if carry { pow_base(rhs@.len()) } else { 0 }) == to_nat(
            old(words)@,
        ) + to_nat(rhs@),
{
    let ghost w0 = words@;
    let n = words.len();
    let mut carry = false;
    let mut i: usize = 0;
    while i < n
        invariant
            0 <= i <= n,
            n == words@.len(),
            n == rhs@.len(),
            to_nat(words@) + (if carry { pow_base(i as nat) } else { 0 }) == to_nat(w0) + to_nat(
                rhs@.take(i as int),
            ),
        decreases n - i,
    {
        let a = words[i];
        let b = rhs[i];
        let (s, c) = add_with_carry(a, b, carry);
        proof {
            let p = pow_base(i as nat);
            lemma_to_nat_update(words@, i as int, s);
            lemma_to_nat_take_next(rhs@, i as int);
            lemma_pow_base_step(i as nat);
            let cin: int = if carry { 1 } else { 0 };
            let cout: int = if c { 1 } else { 0 };
            lemma_add_step(a as int, b as int, cin, s as int, cout, p as int);
            assert(cin * p == (if carry { p } else { 0 }));
            assert(cout * (word_base() * p) == (if c { pow_base((i + 1) as nat) } else { 0 }));
        }
        words[i] = s;
        carry = c;
        i += 1;
    }
    assert(rhs@.take(n as int) =~= rhs@);
    carry
}

/// lhs -= rhs
///
/// Returns borrow.
pub fn sub_same_len_in_place(lhs: &mut [Word], rhs: &[Word]) -> (borrow: bool)
    requires
        old(lhs)@.len() == rhs@.len(),
    ensures
        final(lhs)@.len() == old(lhs)@.len(),
        to_nat(final(lhs)@) == to_nat(old(lhs)@) - to_nat(rhs@) + (if borrow {
            pow_base(rhs@.len())
        } else {
            0
        }),
{
    let ghost w0 = lhs@;
    let n = lhs.len();
    let mut borrow = false;
    let mut i: usize = 0;
    while i < n
        invariant
            0 <= i <= n,
            n == lhs@.len(),
            n == rhs@.len(),
            to_nat(lhs@) == to_nat(w0) - to_nat(rhs@.take(i as int)) + (if borrow {
                pow_base(i as nat)
            } else {
                0
            }),
        decreases n - i,
    {
        let a = lhs[i];
        let b = rhs[i];
        let (s, c) = sub_with_borrow(a, b, borrow);
        proof {
            let p = pow_base(i as nat);
            lemma_to_nat_update(lhs@, i as int, s);
            lemma_to_nat_take_next(rhs@, i as int);
            lemma_pow_base_step(i as nat);
            let bin: int = if borrow { 1 } else { 0 };
            let bout: int = if c { 1 } else { 0 };
            lemma_sub_step(a as int, b as int, bin, s as int, bout, p as int);
            assert(bin * p == (if borrow { p } else { 0 }));
            assert(bout * (word_base() * p) == (if c { pow_base((i + 1) as nat) } else { 0 }));
        }
        lhs[i] = s;
        borrow = c;
        i += 1;
    }
    assert(rhs@.take(n as int) =~= rhs@);
    borrow
}

/// rhs = lhs - rhs
///
/// Returns borrow.
pub fn sub_same_len_in_place_swap(lhs: &[Word], rhs: &mut [Word]) -> (borrow: bool)
    requires
        lhs@.len() == old(rhs)@.len(),
    ensures
        final(rhs)@.len() == old(rhs)@.len(),
        to_nat(final(rhs)@) == to_nat(lhs@) - to_nat(old(rhs)@) + (if borrow {
            pow_base(lhs@.len())
        } else {
            0
        }),
{
    let ghost w0 = rhs@;
    let n = rhs.len();
    let mut borrow = false;
    let mut i: usize = 0;
    while i < n
        invariant
            0 <= i <= n,
            n == lhs@.len(),
            n == rhs@.len(),
            n == w0.len(),
            forall|j: int| i <= j < n ==> rhs@[j] == w0[j],
            to_nat(rhs@) == to_nat(w0) + to_nat(lhs@.take(i as int)) - 2 * to_nat(w0.take(
                i as int,
            )) + (if borrow { pow_base(i as nat) } else { 0 }),
        decreases n - i,
    {
        let a = lhs[i];
        let b = rhs[i];
        let (s, c) = sub_with_borrow(a, b, borrow);
        proof {
            let p = pow_base(i as nat);
            lemma_to_nat_update(rhs@, i as int, s);
            lemma_to_nat_take_next(lhs@, i as int);
            lemma_to_nat_take_next(w0, i as int);
            lemma_pow_base_step(i as nat);
            let bin: int = if borrow { 1 } else { 0 };
            let bout: int = if c { 1 } else { 0 };
            lemma_sub_step(a as int, b as int, bin, s as int, bout, p as int);
            assert(bin * p == (if borrow { p } else { 0 }));
            assert(bout * (word_base() * p) == (if c { pow_base((i + 1) as nat) } else { 0 }));
        }
        rhs[i] = s;
        borrow = c;
        i += 1;
    }
    assert(lhs@.take(n as int) =~= lhs@);
    assert(w0.take(n as int) =~= w0);
    borrow
}

/// lhs += rhs
///
/// Returns overflow.
pub fn add_in_place(lhs: &mut [Word], rhs: &[Word]) -> (overflow: bool)
    requires
        old(lhs)@.len() >= rhs@.len(),
    ensures
        final(lhs)@.len() == old(lhs)@.len(),
        to_nat(final(lhs)@) + (if overflow { pow_base(old(lhs)@.len()) } else { 0 }) == to_nat(
            old(lhs)@,
        ) + to_nat(rhs@),
{
    let ghost w0 = lhs@;
    let m = rhs.len();
    let (lo, hi) = lhs.split_at_mut(m);
    let ghost lo0 = lo@;
    let ghost hi0 = hi@;
    let carry = add_same_len_in_place(lo, rhs);
    let overflow = if carry {
        add_one_in_place(hi)
    } else {
        false
    };
    proof {
        let pm = pow_base(m as nat);
        let ph = pow_base(hi0.len());
        lemma_to_nat_split(w0, m as int);
        lemma_to_nat_split(lhs@, m as int);
        assert(w0.take(m as int) =~= lo0);
        assert(w0.skip(m as int) =~= hi0);
        assert(lhs@.take(m as int) =~= lo@);
        assert(lhs@.skip(m as int) =~= hi@);
        lemma_pow_base_add(m as nat, hi0.len());
        assert(m + hi0.len() == w0.len());
        if carry {
            let o: int = if overflow { ph as int } else { 0 };
            assert(to_nat(hi@) + o == to_nat(hi0) + 1);
            assert(pm * (to_nat(hi@) + o) == pm * to_nat(hi0) + pm) by (nonlinear_arith)
                requires
                    to_nat(hi@) + o == to_nat(hi0) + 1,
            ;
            assert(pm * (to_nat(hi@) + o) == pm * to_nat(hi@) + pm * o) by (nonlinear_arith);
            assert(pm * o == (if overflow { pow_base(w0.len()) as int } else { 0 })) by (
            nonlinear_arith)
                requires
                    o == (if overflow { ph as int } else { 0 }),
                    pow_base(w0.len()) == pm * ph,
            ;
        } else {
            assert(hi@ == hi0);
        }
    }
    overflow
}

/// lhs -= rhs
///
/// Returns borrow.
pub fn sub_in_place(lhs: &mut [Word], rhs: &[Word]) -> (borrow: bool)
    requires
        old(lhs)@.len() >= rhs@.len(),
    ensures
        final(lhs)@.len() == old(lhs)@.len(),
        to_nat(final(lhs)@) == to_nat(old(lhs)@) - to_nat(rhs@) + (if borrow {
            pow_base(old(lhs)@.len())
        } else {
            0
        }),
{
    let ghost w0 = lhs@;
    let m = rhs.len();
    let (lo, hi) = lhs.split_at_mut(m);
    let ghost lo0 = lo@;
    let ghost hi0 = hi@;
    let borrow = sub_same_len_in_place(lo, rhs);
    let b = if borrow {
        sub_one_in_place(hi)
    } else {
        false
    };
    proof {
        let pm = pow_base(m as nat);
        let ph = pow_base(hi0.len());
        lemma_to_nat_split(w0, m as int);
        lemma_to_nat_split(lhs@, m as int);
        assert(w0.take(m as int) =~= lo0);
        assert(w0.skip(m as int) =~= hi0);
        assert(lhs@.take(m as int) =~= lo@);
        assert(lhs@.skip(m as int) =~= hi@);
        lemma_pow_base_add(m as nat, hi0.len());
        assert(m + hi0.len() == w0.len());
        if borrow {
            let o: int = if b { ph as int } else { 0 };
            assert(to_nat(hi@) == to_nat(hi0) - 1 + o);
            assert(pm * to_nat(hi@) == pm * to_nat(hi0) - pm + pm * o) by (nonlinear_arith)
                requires
                    to_nat(hi@) == to_nat(hi0) - 1 + o,
            ;
            assert(pm * o == (if b { pow_base(w0.len()) as int } else { 0 })) by (
            nonlinear_arith)
                requires
                    o == (if b { ph as int } else { 0 }),
                    pow_base(w0.len()) == pm * ph,
            ;
        } else {
            assert(hi@ == hi0);
        }
    }
    b
}

} // verus!

verus! {

/// Two sequences that agree on positions `n..k` differ in their first `k` words as much as
/// in their first `n` words.
pub proof fn lemma_to_nat_common_top(x: Seq<Word>, y: Seq<Word>, n: int, k: int)
    requires
        0 <= n <= k,
        k <= x.len(),
        k <= y.len(),
        forall|j: int| n <= j < k ==> x[j] == y[j],
    ensures
        to_nat(x.take(k)) - to_nat(y.take(k)) == to_nat(x.take(n)) - to_nat(y.take(n)),
{
    lemma_to_nat_split(x.take(k), n);
    lemma_to_nat_split(y.take(k), n);
    assert(x.take(k).take(n) =~= x.take(n));
    assert(y.take(k).take(n) =~= y.take(n));
    assert(x.take(k).skip(n) =~= y.take(k).skip(n));
}

/// Copies `src` into `dst`.
pub fn copy_words(dst: &mut [Word], src: &[Word])
    requires
        old(dst)@.len() == src@.len(),
    ensures
        final(dst)@ == src@,
{
    let n = src.len();
    let mut i: usize = 0;
    while i < n
        invariant
            0 <= i <= n,
            n == src@.len(),
            n == dst@.len(),
            forall|j: int| 0 <= j < i ==> dst@[j] == src@[j],
        decreases n - i,
    {
        dst[i] = src[i];
        i += 1;
    }
    assert(dst@ =~= src@);
}

/// (sign, lhs) = lhs - rhs
#[verifier::rlimit(40)]
#[verifier::spinoff_prover]
pub fn sub_in_place_with_sign(lhs: &mut [Word], rhs: &[Word]) -> (sign: Sign)
    requires
        old(lhs)@.len() >= rhs@.len(),
    ensures
        final(lhs)@.len() == old(lhs)@.len(),
        sign == Sign::Positive ==> to_nat(old(lhs)@) >= to_nat(rhs@) && to_nat(final(lhs)@)
            == to_nat(old(lhs)@) - to_nat(rhs@),
        sign == Sign::Negative ==> to_nat(old(lhs)@) < to_nat(rhs@) && to_nat(final(lhs)@)
            == to_nat(rhs@) - to_nat(old(lhs)@),
{
    let ghost w0 = lhs@;
    let mut lhs_len = lhs.len();
    while lhs_len != 0 && lhs[lhs_len - 1] == 0
        invariant
            lhs_len <= lhs@.len(),
            lhs@ == w0,
            forall|j: int| lhs_len <= j < w0.len() ==> w0[j] == 0,
        decreases lhs_len,
    {
        lhs_len -= 1;
    }
    let mut rhs_len = rhs.len();
    while rhs_len != 0 && rhs[rhs_len - 1] == 0
        invariant
            rhs_len <= rhs@.len(),
            forall|j: int| rhs_len <= j < rhs@.len() ==> rhs@[j] == 0,
        decreases rhs_len,
    {
        rhs_len -= 1;
    }
    proof {
        lemma_to_nat_take_zero_tail(w0, lhs_len as int);
        lemma_to_nat_take_zero_tail(rhs@, rhs_len as int);
    }
    let ghost lv = to_nat(w0.take(lhs_len as int));
    let ghost rv = to_nat(rhs@.take(rhs_len as int));
    if lhs_len > rhs_len {
        let (lo, hi) = lhs.split_at_mut(lhs_len);
        let ghost lo0 = lo@;
        let ghost hi0 = hi@;
        let (r, _r_hi) = rhs.split_at(rhs_len);
        let overflow = sub_in_place(lo, r);
        proof {
            assert(lo0 =~= w0.take(lhs_len as int));
            assert(r@ =~= rhs@.take(rhs_len as int));
            assert(lo0.last() == w0[lhs_len - 1]);
            lemma_to_nat_normalized_lower(lo0);
            lemma_to_nat_bound(r@);
            lemma_pow_base_mono(rhs_len as nat, (lhs_len - 1) as nat);
            lemma_to_nat_bound(lo@);
            assert(!overflow);
            assert(hi@ == hi0);
            assert(lhs@ =~= lo@ + hi@);
            assert forall|j: int| lhs_len <= j < lhs@.len() implies lhs@[j] == 0 by {
                assert(lhs@[j] == hi0[j - lhs_len]);
                assert(hi0[j - lhs_len] == w0[j]);
            }
            lemma_to_nat_take_zero_tail(lhs@, lhs_len as int);
            assert(lhs@.take(lhs_len as int) =~= lo@);
        }
        Sign::Positive
    } else if lhs_len < rhs_len {
        let ghost l1 = lhs@;
        let (lo, rest) = lhs.split_at_mut(rhs_len);
        let ghost lo0 = lo@;
        let ghost rest0 = rest@;
        let (a, b) = lo.split_at_mut(lhs_len);
        let ghost a0 = a@;
        let ghost b0 = b@;
        let (r1, _r2) = rhs.split_at(rhs_len);
        let (rlo, rhi) = r1.split_at(lhs_len);
        let borrow = sub_same_len_in_place_swap(rlo, a);
        copy_words(b, rhi);
        let ghost bc = b@;
        let mut underflow = false;
        if borrow {
            underflow = sub_one_in_place(b);
        }
        proof {
            let k = (rhs_len - lhs_len) as nat;
            let pl = pow_base(lhs_len as nat);
            assert(a0 =~= w0.take(lhs_len as int));
            assert(r1@ =~= rhs@.take(rhs_len as int));
            assert(rhi@.len() == k);
            assert(rhi@.last() == rhs@[rhs_len - 1]);
            lemma_to_nat_normalized_lower(rhi@);
            lemma_pow_base_pos((k - 1) as nat);
            lemma_to_nat_split(r1@, lhs_len as int);
            assert(r1@.take(lhs_len as int) =~= rlo@);
            assert(r1@.skip(lhs_len as int) =~= rhi@);
            // rv == to_nat(rlo) + pl * to_nat(rhi)
            lemma_to_nat_bound(a@);
            lemma_to_nat_bound(a0);
            lemma_to_nat_bound(rlo@);
            lemma_to_nat_bound(b@);
            assert(!underflow);
            assert(to_nat(b@) == to_nat(rhi@) - (if borrow { 1int } else { 0 }));
            assert(to_nat(a@) == to_nat(rlo@) - lv + (if borrow { pl as int } else { 0 }));
            assert(lo@ =~= a@ + b@);
            lemma_to_nat_split(lo@, lhs_len as int);
            assert(lo@.take(lhs_len as int) =~= a@);
            assert(lo@.skip(lhs_len as int) =~= b@);
            assert(pl * to_nat(b@) == pl * to_nat(rhi@) - (if borrow { pl as int } else { 0 }))
                by (nonlinear_arith)
                requires
                    to_nat(b@) == to_nat(rhi@) - (if borrow { 1int } else { 0 }),
            ;
            assert(to_nat(lo@) == rv - lv);
            assert(rest@ == rest0);
            assert(lhs@ =~= lo@ + rest@);
            assert forall|j: int| rhs_len <= j < lhs@.len() implies lhs@[j] == 0 by {
                assert(lhs@[j] == rest0[j - rhs_len]);
                assert(rest0[j - rhs_len] == w0[j]);
            }
            lemma_to_nat_take_zero_tail(lhs@, rhs_len as int);
            assert(lhs@.take(rhs_len as int) =~= lo@);
            // lv < rv
            lemma_pow_base_mono(lhs_len as nat, (rhs_len - 1) as nat);
            assert(r1@.last() == rhs@[rhs_len - 1]);
            lemma_to_nat_normalized_lower(r1@);
            lemma_to_nat_bound(w0.take(lhs_len as int));
        }
        Sign::Negative
    } else {
        let mut n = lhs_len;
        while n != 0
            invariant
                n <= lhs_len,
                lhs_len == rhs_len,
                lhs_len <= w0.len(),
                rhs_len <= rhs@.len(),
                lhs@.len() == w0.len(),
                w0 == old(lhs)@,
                forall|j: int| 0 <= j < n ==> lhs@[j] == w0[j],
                forall|j: int| n <= j < w0.len() ==> lhs@[j] == 0,
                forall|j: int| n <= j < lhs_len ==> w0[j] == rhs@[j],
                lv == to_nat(w0.take(lhs_len as int)),
                rv == to_nat(rhs@.take(rhs_len as int)),
                to_nat(w0) == lv,
                to_nat(rhs@) == rv,
            decreases n,
        {
            let a = lhs[n - 1];
            let b = rhs[n - 1];
            if a > b {
                let ghost l1 = lhs@;
                let (lo, hi) = lhs.split_at_mut(n);
                let ghost lo0 = lo@;
                let ghost hi0 = hi@;
                let (r, _r_hi) = rhs.split_at(n);
                let overflow = sub_same_len_in_place(lo, r);
                proof {
                    assert(lo0 =~= w0.take(n as int));
                    assert(r@ =~= rhs@.take(n as int));
                    lemma_to_nat_common_top(w0, rhs@, n as int, lhs_len as int);
                    lemma_to_nat_top_less(r@, lo0);
                    lemma_to_nat_bound(lo@);
                    assert(!overflow);
                    assert(hi@ == hi0);
                    assert(lhs@ =~= lo@ + hi@);
                    assert forall|j: int| n <= j < lhs@.len() implies lhs@[j] == 0 by {
                        assert(lhs@[j] == hi0[j - n]);
                        assert(hi0[j - n] == l1[j]);
                    }
                    lemma_to_nat_take_zero_tail(lhs@, n as int);
                    assert(lhs@.take(n as int) =~= lo@);
                }
                return Sign::Positive;
            } else if a < b {
                let ghost l1 = lhs@;
                let (lo, hi) = lhs.split_at_mut(n);
                let ghost lo0 = lo@;
                let ghost hi0 = hi@;
                let (r, _r_hi) = rhs.split_at(n);
                let overflow = sub_same_len_in_place_swap(r, lo);
                proof {
                    assert(lo0 =~= w0.take(n as int));
                    assert(r@ =~= rhs@.take(n as int));
                    lemma_to_nat_common_top(w0, rhs@, n as int, lhs_len as int);
                    lemma_to_nat_top_less(lo0, r@);
                    lemma_to_nat_bound(lo@);
                    assert(!overflow);
                    assert(hi@ == hi0);
                    assert(lhs@ =~= lo@ + hi@);
                    assert forall|j: int| n <= j < lhs@.len() implies lhs@[j] == 0 by {
                        assert(lhs@[j] == hi0[j - n]);
                        assert(hi0[j - n] == l1[j]);
                    }
                    lemma_to_nat_take_zero_tail(lhs@, n as int);
                    assert(lhs@.take(n as int) =~= lo@);
                }
                return Sign::Negative;
            } else {
                n -= 1;
                lhs[n] = 0;
            }
        }
        proof {
            lemma_to_nat_common_top(w0, rhs@, 0, lhs_len as int);
            assert(w0.take(0) =~= Seq::<Word>::empty());
            assert(rhs@.take(0) =~= Seq::<Word>::empty());
            lemma_to_nat_take_zero_tail(lhs@, 0);
            assert(lhs@.take(0) =~= Seq::<Word>::empty());
        }
        Sign::Positive
    }
}

} // verus!

verus! {

/// Add a signed word to a word sequence.
///
/// Returns overflow.
pub fn add_signed_word_in_place(words: &mut [Word], rhs: SignedWord) -> (overflow: SignedWord)
    ensures
        final(words)@.len() == old(words)@.len(),
        to_nat(final(words)@) + overflow * pow_base(old(words)@.len()) == to_nat(old(words)@)
            + rhs,
        -1 <= overflow <= 1 || (old(words)@.len() == 0 && overflow == rhs),
{
    if rhs == 0 || words.len() == 0 {
        proof {
            if words@.len() == 0 {
                assert(to_nat(words@) == 0);
            }
            assert(pow_base(0) == 1);
        }
        return rhs;
    }
    let (sign, u) = crate::primitive::signed_to_sign_magnitude(rhs);
    match sign {
        Sign::Positive => {
            let o = add_word_in_place(words, u);
            let r: SignedWord = if o {
                1
            } else {
                0
            };
            proof {
                let p = pow_base(old(words)@.len());
                assert(r * p == (if o { p } else { 0 }));
                assert(to_nat(words@) + (if o { p } else { 0 }) == to_nat(old(words)@) + u);
                assert(u == rhs);
                assert(to_nat(words@) + r * p == to_nat(old(words)@) + rhs);
            }
            return r;
        },
        Sign::Negative => {
            proof {
                assert(sign.factor() == -1);
                assert(u as int == -rhs) by (nonlinear_arith)
                    requires
                        (-1int) * (u as int) == rhs,
                ;
            }
            let b = sub_word_in_place(words, u);
            let r: SignedWord = if b {
                -1
            } else {
                0
            };
            proof {
                let p = pow_base(old(words)@.len());
                assert(r * p == (if b { -p } else { 0 })) by (nonlinear_arith)
                    requires
                        r == (if b { -1int } else { 0 }),
                ;
            }
            r
        },
    }
}

/// words += sign * rhs
///
/// Returns overflow.
pub fn add_signed_same_len_in_place(words: &mut [Word], sign: Sign, rhs: &[Word]) -> (overflow:
    SignedWord)
    requires
        old(words)@.len() == rhs@.len(),
    ensures
        final(words)@.len() == old(words)@.len(),
        -1 <= overflow <= 1,
        to_nat(final(words)@) + overflow * pow_base(old(words)@.len()) == to_nat(old(words)@)
            + sign.factor() * to_nat(rhs@),
{
    match sign {
        Sign::Positive => {
            proof {
                assert(sign.factor() == 1);
                assert(sign.factor() * to_nat(rhs@) == to_nat(rhs@)) by (nonlinear_arith)
                    requires
                        sign.factor() == 1,
                ;
            }
            let c = add_same_len_in_place(words, rhs);
            let r: SignedWord = if c {
                1
            } else {
                0
            };
            proof {
                let p = pow_base(old(words)@.len());
                assert(r * p == (if c { p } else { 0 }));
            }
            return r;
        },
        Sign::Negative => {
            proof {
                assert(sign.factor() == -1);
                assert(sign.factor() * to_nat(rhs@) == -to_nat(rhs@)) by (nonlinear_arith)
                    requires
                        sign.factor() == -1,
                ;
            }
            let b = sub_same_len_in_place(words, rhs);
            let r: SignedWord = if b {
                -1
            } else {
                0
            };
            proof {
                let p = pow_base(old(words)@.len());
                assert(r * p == (if b { -p } else { 0 })) by (nonlinear_arith)
                    requires
                        r == (if b { -1int } else { 0 }),
                ;
            }
            r
        },
    }
}

/// words += sign * rhs
///
/// Returns overflow.
pub fn add_signed_in_place(words: &mut [Word], sign: Sign, rhs: &[Word]) -> (overflow:
    SignedWord)
    requires
        old(words)@.len() >= rhs@.len(),
    ensures
        final(words)@.len() == old(words)@.len(),
        -1 <= overflow <= 1,
        to_nat(final(words)@) + overflow * pow_base(old(words)@.len()) == to_nat(old(words)@)
            + sign.factor() * to_nat(rhs@),
{
    match sign {
        Sign::Positive => {
            proof {
                assert(sign.factor() == 1);
                assert(sign.factor() * to_nat(rhs@) == to_nat(rhs@)) by (nonlinear_arith)
                    requires
                        sign.factor() == 1,
                ;
            }
            let c = add_in_place(words, rhs);
            let r: SignedWord = if c {
                1
            } else {
                0
            };
            proof {
                let p = pow_base(old(words)@.len());
                assert(r * p == (if c { p } else { 0 }));
            }
            return r;
        },
        Sign::Negative => {
            proof {
                assert(sign.factor() == -1);
                assert(sign.factor() * to_nat(rhs@) == -to_nat(rhs@)) by (nonlinear_arith)
                    requires
                        sign.factor() == -1,
                ;
            }
            let b = sub_in_place(words, rhs);
            let r: SignedWord = if b {
                -1
            } else {
                0
            };
            proof {
                let p = pow_base(old(words)@.len());
                assert(r * p == (if b { -p } else { 0 })) by (nonlinear_arith)
                    requires
                        r == (if b { -1int } else { 0 }),
                ;
            }
            r
        },
    }
}

} // verus!
