//! Multiplication of word sequences.

use crate::add::{add_with_carry, add_word_in_place, sub_with_borrow, sub_word_in_place};
use crate::primitive::{
    double_word, extend_word, lemma_mul_word_bound, split_double_word, word_base, SignedWord, Word,
};
use crate::sign::Sign;
use crate::value::{
    idx, lemma_pow_base_add, lemma_pow_base_step, lemma_to_nat_split, lemma_to_nat_splice,
    lemma_to_nat_take_next, lemma_to_nat_update, pow_base, to_nat,
};
use vstd::prelude::*;

verus! {

proof fn lemma_mul_carry_step(t: int, a: int, m: int, c0: int, carry: int, lo: int, hi: int, p: int)
    by (nonlinear_arith)
    requires
        lo + hi * word_base() == a * m + carry,
    ensures
        (t * m + c0 - carry * p) + lo * p + hi * (word_base() * p) == (t + a * p) * m + c0,
{
}

proof fn lemma_mac_step(w: int, a: int, carry: int, mult: int, b: int, lo: int, hi: int, p: int, t: int, w0: int)
    by (nonlinear_arith)
    requires
        lo + hi * word_base() == a + carry + mult * b,
        w + carry * p == w0 + mult * t,
    ensures
        (w - a * p + lo * p) + hi * (word_base() * p) == w0 + mult * (t + b * p),
{
}

proof fn lemma_msc_step(w: int, a: int, borrow: int, mult: int, b: int, lo: int, bout: int, p: int, t: int, w0: int)
    by (nonlinear_arith)
    requires
        lo - bout * word_base() == a - borrow - mult * b,
        w == w0 - mult * t + borrow * p,
    ensures
        w - a * p + lo * p == w0 - mult * (t + b * p) + bout * (word_base() * p),
{
}

/// Multiply a word sequence by a `Word` in place with carry in.
///
/// Returns carry.
pub fn mul_word_in_place_with_carry(words: &mut [Word], rhs: Word, carry: Word) -> (r: Word)
    ensures
        final(words)@.len() == old(words)@.len(),
        to_nat(final(words)@) + r * pow_base(old(words)@.len()) == to_nat(old(words)@) * rhs
            + carry,
{
    let ghost w0 = words@;
    let n = words.len();
    let mut c = carry;
    let mut i: usize = 0;
    proof {
        assert(words@.take(0) =~= Seq::<Word>::empty());
        assert(w0.take(0) =~= Seq::<Word>::empty());
        assert(pow_base(0) == 1);
        assert(to_nat(words@.take(0)) == 0);
        assert(c * pow_base(0) == c);
        assert(0 * rhs == 0);
    }
    while i < n
        invariant
            0 <= i <= n,
            n == words@.len(),
            n == w0.len(),
            forall|j: int| idx(i) <= j < idx(n) ==> words@[j] == w0[j],
            to_nat(words@.take(idx(i))) + c * pow_base(i as nat) == to_nat(w0.take(idx(i))) * rhs
                + carry,
        decreases n - i,
    {
        let a = words[i];
        proof {
            lemma_mul_word_bound(a, rhs);
        }
        let (v_lo, v_hi) = split_double_word(extend_word(a) * extend_word(rhs) + extend_word(c));
        proof {
            lemma_to_nat_take_next(w0, idx(i));
            let ghost before = words@;
            let after = before.update(idx(i), v_lo);
            assert(after.take(idx(i)) =~= before.take(idx(i)));
            lemma_to_nat_take_next(after, idx(i));
            lemma_pow_base_step(i as nat);
            lemma_mul_carry_step(
                to_nat(w0.take(idx(i))) as int,
                a as int,
                rhs as int,
                carry as int,
                c as int,
                v_lo as int,
                v_hi as int,
                pow_base(i as nat) as int,
            );
        }
        words[i] = v_lo;
        c = v_hi;
        i += 1;
    }
    proof {
        assert(words@.take(idx(n)) =~= words@);
        assert(w0.take(idx(n)) =~= w0);
    }
    c
}

/// Multiply a word sequence by a `Word` in place.
///
/// Returns carry.
pub fn mul_word_in_place(words: &mut [Word], rhs: Word) -> (r: Word)
    ensures
        final(words)@.len() == old(words)@.len(),
        to_nat(final(words)@) + r * pow_base(old(words)@.len()) == to_nat(old(words)@) * rhs,
{
    mul_word_in_place_with_carry(words, rhs, 0)
}

/// words += mult * rhs
///
/// Returns carry.
pub fn add_mul_word_same_len_in_place(words: &mut [Word], mult: Word, rhs: &[Word]) -> (r: Word)
    requires
        old(words)@.len() == rhs@.len(),
    ensures
        final(words)@.len() == old(words)@.len(),
        to_nat(final(words)@) + r * pow_base(rhs@.len()) == to_nat(old(words)@) + mult * to_nat(
            rhs@,
        ),
{
    let ghost w0 = words@;
    let n = words.len();
    let mut carry: Word = 0;
    let mut i: usize = 0;
    proof {
        assert(rhs@.take(0) =~= Seq::<Word>::empty());
        assert(pow_base(0) == 1);
        assert(to_nat(rhs@.take(0)) == 0);
        assert(mult * 0 == 0);
    }
    while i < n
        invariant
            0 <= i <= n,
            n == words@.len(),
            n == rhs@.len(),
            to_nat(words@) + carry * pow_base(i as nat) == to_nat(w0) + mult * to_nat(
                rhs@.take(idx(i)),
            ),
        decreases n - i,
    {
        let a = words[i];
        let b = rhs[i];
        proof {
            lemma_mul_word_bound(mult, b);
        }
        let (v_lo, v_hi) = split_double_word(
            extend_word(a) + extend_word(carry) + extend_word(mult) * extend_word(b),
        );
        proof {
            lemma_to_nat_update(words@, idx(i), v_lo);
            lemma_to_nat_take_next(rhs@, idx(i));
            lemma_pow_base_step(i as nat);
            lemma_mac_step(
                to_nat(words@) as int,
                a as int,
                carry as int,
                mult as int,
                b as int,
                v_lo as int,
                v_hi as int,
                pow_base(i as nat) as int,
                to_nat(rhs@.take(idx(i))) as int,
                to_nat(w0) as int,
            );
        }
        words[i] = v_lo;
        carry = v_hi;
        i += 1;
    }
    proof {
        assert(rhs@.take(idx(n)) =~= rhs@);
    }
    carry
}

/// words -= mult * rhs
///
/// Returns borrow.
pub fn sub_mul_word_same_len_in_place(words: &mut [Word], mult: Word, rhs: &[Word]) -> (r: Word)
    requires
        old(words)@.len() == rhs@.len(),
    ensures
        final(words)@.len() == old(words)@.len(),
        to_nat(final(words)@) == to_nat(old(words)@) - mult * to_nat(rhs@) + r * pow_base(
            rhs@.len(),
        ),
{
    let ghost w0 = words@;
    let n = words.len();
    // carry is in -Word::MAX..0
    // carry_plus_max = carry + Word::MAX
    let mut carry_plus_max: Word = Word::MAX;
    let mut i: usize = 0;
    proof {
        assert(rhs@.take(0) =~= Seq::<Word>::empty());
        assert(pow_base(0) == 1);
        assert(to_nat(rhs@.take(0)) == 0);
        assert(mult * 0 == 0);
    }
    while i < n
        invariant
            0 <= i <= n,
            n == words@.len(),
            n == rhs@.len(),
            to_nat(words@) == to_nat(w0) - mult * to_nat(rhs@.take(idx(i))) + (Word::MAX
                - carry_plus_max) * pow_base(i as nat),
        decreases n - i,
    {
        let a = words[i];
        let b = rhs[i];
        proof {
            lemma_mul_word_bound(mult, b);
        }
        // Compute val = a - mult * b + carry_plus_max - MAX + (MAX << BITS)
        // val >= 0 - MAX * MAX - MAX + MAX*(MAX+1) = 0
        // val <= MAX - 0 + MAX - MAX + (MAX<<BITS) = DoubleWord::MAX
        let v = extend_word(a) + extend_word(carry_plus_max) + (double_word(0, Word::MAX)
            - extend_word(Word::MAX)) - extend_word(mult) * extend_word(b);
        let (v_lo, v_hi) = split_double_word(v);
        proof {
            lemma_to_nat_update(words@, idx(i), v_lo);
            lemma_to_nat_take_next(rhs@, idx(i));
            lemma_pow_base_step(i as nat);
            lemma_msc_step(
                to_nat(words@) as int,
                a as int,
                (Word::MAX - carry_plus_max) as int,
                mult as int,
                b as int,
                v_lo as int,
                (Word::MAX - v_hi) as int,
                pow_base(i as nat) as int,
                to_nat(rhs@.take(idx(i))) as int,
                to_nat(w0) as int,
            );
        }
        words[i] = v_lo;
        carry_plus_max = v_hi;
        i += 1;
    }
    proof {
        assert(rhs@.take(idx(n)) =~= rhs@);
    }
    Word::MAX - carry_plus_max
}

} // verus!

verus! {

/// words += mult * rhs
///
/// Returns carry.
pub fn add_mul_word_in_place(words: &mut [Word], mult: Word, rhs: &[Word]) -> (r: Word)
    requires
        old(words)@.len() >= rhs@.len(),
    ensures
        final(words)@.len() == old(words)@.len(),
        to_nat(final(words)@) + r * pow_base(old(words)@.len()) == to_nat(old(words)@) + mult
            * to_nat(rhs@),
{
    let ghost w0 = words@;
    let n = rhs.len();
    let (lo, hi) = words.split_at_mut(n);
    let ghost lo0 = lo@;
    let ghost hi0 = hi@;
    let mut carry = add_mul_word_same_len_in_place(lo, mult, rhs);
    let ghost c1 = carry;
    if hi.len() > 0 {
        let o = add_word_in_place(hi, carry);
        carry = if o {
            1
        } else {
            0
        };
    }
    proof {
        let pn = pow_base(n as nat);
        let ph = pow_base(hi0.len());
        lemma_to_nat_split(w0, n as int);
        lemma_to_nat_split(words@, n as int);
        assert(w0.take(n as int) =~= lo0);
        assert(w0.skip(n as int) =~= hi0);
        assert(words@.take(n as int) =~= lo@);
        assert(words@.skip(n as int) =~= hi@);
        lemma_pow_base_add(n as nat, hi0.len());
        assert(n + hi0.len() == w0.len());
        if hi0.len() > 0 {
            let o: int = carry as int;
            assert(to_nat(hi@) + o * ph == to_nat(hi0) + c1);
            assert(pn * (to_nat(hi@) + o * ph) == pn * to_nat(hi0) + pn * c1) by (
            nonlinear_arith)
                requires
                    to_nat(hi@) + o * ph == to_nat(hi0) + c1,
            ;
            assert(pn * (to_nat(hi@) + o * ph) == pn * to_nat(hi@) + o * (pn * ph)) by (
            nonlinear_arith);
            assert(c1 * pn == pn * c1) by (nonlinear_arith);
        } else {
            assert(hi@ == hi0);
            assert(hi0.len() == 0);
            assert(to_nat(hi@) == 0);
            assert(w0.len() == n);
            assert(pn * 0 == 0) by (nonlinear_arith);
        }
    }
    carry
}

/// words -= mult * rhs
///
/// Returns borrow.
pub fn sub_mul_word_in_place(words: &mut [Word], mult: Word, rhs: &[Word]) -> (r: Word)
    requires
        old(words)@.len() >= rhs@.len(),
    ensures
        final(words)@.len() == old(words)@.len(),
        to_nat(final(words)@) == to_nat(old(words)@) - mult * to_nat(rhs@) + r * pow_base(
            old(words)@.len(),
        ),
{
    let ghost w0 = words@;
    let n = rhs.len();
    let (lo, hi) = words.split_at_mut(n);
    let ghost lo0 = lo@;
    let ghost hi0 = hi@;
    let mut borrow = sub_mul_word_same_len_in_place(lo, mult, rhs);
    let ghost b1 = borrow;
    if hi.len() > 0 {
        let o = sub_word_in_place(hi, borrow);
        borrow = if o {
            1
        } else {
            0
        };
    }
    proof {
        let pn = pow_base(n as nat);
        let ph = pow_base(hi0.len());
        lemma_to_nat_split(w0, n as int);
        lemma_to_nat_split(words@, n as int);
        assert(w0.take(n as int) =~= lo0);
        assert(w0.skip(n as int) =~= hi0);
        assert(words@.take(n as int) =~= lo@);
        assert(words@.skip(n as int) =~= hi@);
        lemma_pow_base_add(n as nat, hi0.len());
        assert(n + hi0.len() == w0.len());
        if hi0.len() > 0 {
            let o: int = borrow as int;
            assert(to_nat(hi@) == to_nat(hi0) - b1 + o * ph);
            assert(pn * to_nat(hi@) == pn * to_nat(hi0) - pn * b1 + o * (pn * ph)) by (
            nonlinear_arith)
                requires
                    to_nat(hi@) == to_nat(hi0) - b1 + o * ph,
            ;
            assert(b1 * pn == pn * b1) by (nonlinear_arith);
        } else {
            assert(hi@ == hi0);
            assert(hi0.len() == 0);
            assert(to_nat(hi@) == 0);
            assert(w0.len() == n);
            assert(pn * 0 == 0) by (nonlinear_arith);
        }
    }
    borrow
}

proof fn lemma_mul_chunk_step(
    c0: int,
    a: int,
    ti: int,
    m: int,
    pi: int,
    palen: int,
    pia: int,
    cb: int,
    c1: int,
    c2: int,
    x: int,
    xn: int,
    cw: int,
    old_w: int,
    s: int,
    cn: int,
    carry: int,
)
    requires
        cb + carry * pia == c0 + a * ti,
        c1 + pi * x == cb + pi * xn,
        xn + cw * palen == x + m * a,
        c2 + old_w * pia == c1 + s * pia,
        s + cn * word_base() == old_w + cw + carry,
        pia == pi * palen,
    ensures
        c2 + cn * (word_base() * pia) == c0 + a * (ti + m * pi),
{
    assert(pi * xn == pi * x + pi * (m * a) - pi * (cw * palen)) by (nonlinear_arith)
        requires
            xn == x + m * a - cw * palen,
    ;
    assert(pi * (cw * palen) == cw * pia) by (nonlinear_arith)
        requires
            pia == pi * palen,
    ;
    assert(pi * (m * a) == a * (m * pi)) by (nonlinear_arith);
    assert(a * (ti + m * pi) == a * ti + a * (m * pi)) by (nonlinear_arith);
    assert(s * pia - old_w * pia == cw * pia + carry * pia - cn * (word_base() * pia)) by (
    nonlinear_arith)
        requires
            s - old_w == cw + carry - cn * word_base(),
    ;
}

proof fn lemma_mul_chunk_sub_step(
    c0: int,
    a: int,
    ti: int,
    m: int,
    pi: int,
    palen: int,
    pia: int,
    cb: int,
    c1: int,
    c2: int,
    x: int,
    xn: int,
    bw: int,
    old_w: int,
    s: int,
    bn: int,
    borrow: int,
)
    requires
        cb == c0 - a * ti + borrow * pia,
        c1 + pi * x == cb + pi * xn,
        xn == x - m * a + bw * palen,
        c2 + old_w * pia == c1 + s * pia,
        s - bn * word_base() == old_w - bw - borrow,
        pia == pi * palen,
    ensures
        c2 == c0 - a * (ti + m * pi) + bn * (word_base() * pia),
{
    assert(pi * xn == pi * x - pi * (m * a) + pi * (bw * palen)) by (nonlinear_arith)
        requires
            xn == x - m * a + bw * palen,
    ;
    assert(pi * (bw * palen) == bw * pia) by (nonlinear_arith)
        requires
            pia == pi * palen,
    ;
    assert(pi * (m * a) == a * (m * pi)) by (nonlinear_arith);
    assert(a * (ti + m * pi) == a * ti + a * (m * pi)) by (nonlinear_arith);
    assert(s * pia - old_w * pia == bn * (word_base() * pia) - bw * pia - borrow * pia) by (
    nonlinear_arith)
        requires
            s - old_w == bn * word_base() - bw - borrow,
    ;
}

/// c += a * b
/// Simple method: O(a.len() * b.len()).
///
/// Returns carry.
pub fn add_mul_chunk(c: &mut [Word], a: &[Word], b: &[Word]) -> (carry: bool)
    requires
        old(c)@.len() == a@.len() + b@.len(),
    ensures
        final(c)@.len() == old(c)@.len(),
        to_nat(final(c)@) + (if carry { pow_base(old(c)@.len()) } else { 0 }) == to_nat(old(c)@)
            + to_nat(a@) * to_nat(b@),
{
    let ghost c0 = c@;
    let alen = a.len();
    let blen = b.len();
    let clen = c.len();
    let mut carry = false;
    let mut i: usize = 0;
    proof {
        assert(b@.take(0) =~= Seq::<Word>::empty());
        assert(to_nat(b@.take(0)) == 0);
        assert(to_nat(a@) * 0 == 0) by (nonlinear_arith);
    }
    while i < blen
        invariant
            0 <= i <= blen,
            alen == a@.len(),
            blen == b@.len(),
            c@.len() == alen + blen,
            clen == c@.len(),
            c0.len() == alen + blen,
            to_nat(c@) + (if carry { pow_base((i + alen) as nat) } else { 0 }) == to_nat(c0)
                + to_nat(a@) * to_nat(b@.take(idx(i))),
        decreases blen - i,
    {
        let m = b[i];
        let ghost cb = c@;
        let (lo, rest) = c.split_at_mut(i);
        let (mid, hi) = rest.split_at_mut(alen);
        let ghost mid0 = mid@;
        let cw = add_mul_word_same_len_in_place(mid, m, a);
        let ghost mid1 = mid@;
        proof {
            assert(c@ =~= cb.take(idx(i)) + mid1 + cb.skip(idx(i) + alen));
            assert(mid0 =~= cb.subrange(idx(i), idx(i) + alen));
            lemma_to_nat_splice(cb, idx(i), alen as int, mid1);
        }
        let ghost c1 = c@;
        let old_w = c[i + alen];
        let (s, cn) = add_with_carry(old_w, cw, carry);
        proof {
            lemma_to_nat_update(c1, idx(i) + alen, s);
            lemma_to_nat_take_next(b@, idx(i));
            lemma_pow_base_add(i as nat, alen as nat);
            lemma_pow_base_step((i + alen) as nat);
            assert((i + 1 + alen) as nat == (i + alen) as nat + 1);
            lemma_mul_chunk_step(
                to_nat(c0) as int,
                to_nat(a@) as int,
                to_nat(b@.take(idx(i))) as int,
                m as int,
                pow_base(i as nat) as int,
                pow_base(alen as nat) as int,
                pow_base((i + alen) as nat) as int,
                to_nat(cb) as int,
                to_nat(c1) as int,
                to_nat(c1.update(idx(i) + alen, s)) as int,
                to_nat(mid0) as int,
                to_nat(mid1) as int,
                cw as int,
                old_w as int,
                s as int,
                if cn { 1 } else { 0 },
                if carry { 1 } else { 0 },
            );
            let pia = pow_base((i + alen) as nat);
            assert((if carry { 1int } else { 0 }) * pia == (if carry { pia as int } else { 0 }));
            assert((if cn { 1int } else { 0 }) * (word_base() * pia) == (if cn {
                pow_base((i + 1 + alen) as nat) as int
            } else {
                0
            }));
        }
        c[i + alen] = s;
        carry = cn;
        i += 1;
    }
    proof {
        assert(b@.take(idx(blen)) =~= b@);
    }
    carry
}

/// c -= a * b
/// Simple method: O(a.len() * b.len()).
///
/// Returns borrow.
pub fn sub_mul_chunk(c: &mut [Word], a: &[Word], b: &[Word]) -> (borrow: bool)
    requires
        old(c)@.len() == a@.len() + b@.len(),
    ensures
        final(c)@.len() == old(c)@.len(),
        to_nat(final(c)@) == to_nat(old(c)@) - to_nat(a@) * to_nat(b@) + (if borrow {
            pow_base(old(c)@.len())
        } else {
            0
        }),
{
    let ghost c0 = c@;
    let alen = a.len();
    let blen = b.len();
    let clen = c.len();
    let mut borrow = false;
    let mut i: usize = 0;
    proof {
        assert(b@.take(0) =~= Seq::<Word>::empty());
        assert(to_nat(b@.take(0)) == 0);
        assert(to_nat(a@) * 0 == 0) by (nonlinear_arith);
    }
    while i < blen
        invariant
            0 <= i <= blen,
            alen == a@.len(),
            blen == b@.len(),
            c@.len() == alen + blen,
            clen == c@.len(),
            c0.len() == alen + blen,
            to_nat(c@) == to_nat(c0) - to_nat(a@) * to_nat(b@.take(idx(i))) + (if borrow {
                pow_base((i + alen) as nat)
            } else {
                0
            }),
        decreases blen - i,
    {
        let m = b[i];
        let ghost cb = c@;
        let (lo, rest) = c.split_at_mut(i);
        let (mid, hi) = rest.split_at_mut(alen);
        let ghost mid0 = mid@;
        let bw = sub_mul_word_same_len_in_place(mid, m, a);
        let ghost mid1 = mid@;
        proof {
            assert(c@ =~= cb.take(idx(i)) + mid1 + cb.skip(idx(i) + alen));
            assert(mid0 =~= cb.subrange(idx(i), idx(i) + alen));
            lemma_to_nat_splice(cb, idx(i), alen as int, mid1);
        }
        let ghost c1 = c@;
        let old_w = c[i + alen];
        let (s, bn) = sub_with_borrow(old_w, bw, borrow);
        proof {
            lemma_to_nat_update(c1, idx(i) + alen, s);
            lemma_to_nat_take_next(b@, idx(i));
            lemma_pow_base_add(i as nat, alen as nat);
            lemma_pow_base_step((i + alen) as nat);
            assert((i + 1 + alen) as nat == (i + alen) as nat + 1);
            let pia = pow_base((i + alen) as nat);
            assert((if borrow { 1int } else { 0 }) * pia == (if borrow { pia as int } else { 0 }));
            lemma_mul_chunk_sub_step(
                to_nat(c0) as int,
                to_nat(a@) as int,
                to_nat(b@.take(idx(i))) as int,
                m as int,
                pow_base(i as nat) as int,
                pow_base(alen as nat) as int,
                pia as int,
                to_nat(cb) as int,
                to_nat(c1) as int,
                to_nat(c1.update(idx(i) + alen, s)) as int,
                to_nat(mid0) as int,
                to_nat(mid1) as int,
                bw as int,
                old_w as int,
                s as int,
                if bn { 1 } else { 0 },
                if borrow { 1 } else { 0 },
            );
            assert((if bn { 1int } else { 0 }) * (word_base() * pia) == (if bn {
                pow_base((i + 1 + alen) as nat) as int
            } else {
                0
            }));
        }
        c[i + alen] = s;
        borrow = bn;
        i += 1;
    }
    proof {
        assert(b@.take(idx(blen)) =~= b@);
    }
    borrow
}

/// c += sign * a * b
/// Simple method: O(a.len() * b.len()).
///
/// Returns carry.
pub fn add_signed_mul_chunk(c: &mut [Word], sign: Sign, a: &[Word], b: &[Word]) -> (r:
    SignedWord)
    requires
        old(c)@.len() == a@.len() + b@.len(),
    ensures
        final(c)@.len() == old(c)@.len(),
        -1 <= r <= 1,
        to_nat(final(c)@) + r * pow_base(old(c)@.len()) == to_nat(old(c)@) + sign.factor() * (
        to_nat(a@) * to_nat(b@)),
{
    let ghost p = pow_base(c@.len());
    let ghost ab = to_nat(a@) * to_nat(b@);
    match sign {
        Sign::Positive => {
            let carry = add_mul_chunk(c, a, b);
            let r: SignedWord = if carry {
                1
            } else {
                0
            };
            proof {
                assert(r * p == (if carry { p } else { 0 }));
                assert(sign.factor() * ab == ab) by (nonlinear_arith)
                    requires
                        sign.factor() == 1,
                ;
            }
            r
        },
        Sign::Negative => {
            let borrow = sub_mul_chunk(c, a, b);
            let r: SignedWord = if borrow {
                -1
            } else {
                0
            };
            proof {
                assert(r * p == (if borrow { -p } else { 0 })) by (nonlinear_arith)
                    requires
                        r == (if borrow { -1int } else { 0 }),
                ;
                assert(sign.factor() * ab == -ab) by (nonlinear_arith)
                    requires
                        sign.factor() == -1,
                ;
            }
            r
        },
    }
}

} // verus!
