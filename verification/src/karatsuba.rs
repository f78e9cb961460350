//! Multiplication of long word sequences: the simple method in chunks, Karatsuba, and the
//! splitting of unbalanced products into products of equal lengths.

use crate::add::{add_signed_in_place, add_signed_word_in_place, copy_words, sub_in_place_with_sign};
use crate::mul::add_signed_mul_chunk;
use crate::primitive::SignedWord;
use crate::primitive::Word;
use crate::sign::Sign;
use crate::toom_3::{
    add_signed_mul_same_len, lemma_toom_3_temp_len_bound, lemma_toom_3_temp_len_mono, toom_3_temp_len,
};
use crate::value::{lemma_pow_base_add, lemma_pow_base_pos, lemma_to_nat_bound, lemma_to_nat_split, lemma_to_nat_splice, pow_base, to_nat};
use vstd::prelude::*;

verus! {

/// If the smaller length is at most this, the simple method is used.
pub const MAX_LEN_SIMPLE: usize = 24;

/// The longer factor is split into chunks of `MUL_SIMPLE_CHUNK..2 * MUL_SIMPLE_CHUNK` words
/// for memory locality.
pub const MUL_SIMPLE_CHUNK: usize = 1024;

/// If the smaller length is at most this, Karatsuba multiplication is used.
pub const MAX_LEN_KARATSUBA: usize = 192;

/// Updating the words `start..end` of `cb` to `w1` changes the value by `B^start` times the
/// change of the window.
pub proof fn lemma_window(cb: Seq<Word>, c1: Seq<Word>, start: int, end: int, w1: Seq<Word>, r: int, t: int)
    requires
        0 <= start <= end <= cb.len(),
        w1.len() == end - start,
        c1 == cb.take(start) + w1 + cb.skip(end),
        to_nat(w1) + r * pow_base((end - start) as nat) == to_nat(cb.subrange(start, end)) + t,
    ensures
        to_nat(c1) + r * pow_base(end as nat) == to_nat(cb) + pow_base(start as nat) * t,
{
    lemma_to_nat_splice(cb, start, end - start, w1);
    lemma_pow_base_add(start as nat, (end - start) as nat);
    assert(start as nat + (end - start) as nat == end as nat);
    let ps = pow_base(start as nat) as int;
    let pw = pow_base((end - start) as nat) as int;
    let v1 = to_nat(w1) as int;
    let v0 = to_nat(cb.subrange(start, end)) as int;
    assert(ps * v1 + r * (ps * pw) == ps * v0 + ps * t) by (nonlinear_arith)
        requires
            v1 + r * pw == v0 + t,
    ;
}

/// `a * b < B^(la + lb)` for sequences of lengths `la` and `lb`.
pub proof fn lemma_product_bound(a: Seq<Word>, b: Seq<Word>)
    ensures
        to_nat(a) * to_nat(b) < pow_base(a.len() + b.len()),
        to_nat(a) * to_nat(b) >= 0,
{
    lemma_to_nat_bound(a);
    lemma_to_nat_bound(b);
    lemma_pow_base_add(a.len(), b.len());
    let x = to_nat(a) as int;
    let y = to_nat(b) as int;
    let px = pow_base(a.len()) as int;
    let py = pow_base(b.len()) as int;
    assert(x * y < px * py) by (nonlinear_arith)
        requires
            0 <= x < px,
            0 <= y < py,
    ;
    assert(x * y >= 0) by (nonlinear_arith)
        requires
            0 <= x,
            0 <= y,
    ;
}

/// A carry out of a window is between -1 and 1 when the window and the added value are both
/// below the window's range.
pub proof fn lemma_carry_bound(cv: int, r: int, pl: int, c0: int, t: int)
    requires
        0 <= cv < pl,
        0 <= c0 < pl,
        -pl < t < pl,
        cv + r * pl == c0 + t,
    ensures
        -1 <= r <= 1,
{
    if r >= 2 {
        assert(r * pl >= 2 * pl) by (nonlinear_arith)
            requires
                r >= 2,
                pl > 0,
        ;
    }
    if r <= -2 {
        assert(r * pl <= -2 * pl) by (nonlinear_arith)
            requires
                r <= -2,
                pl > 0,
        ;
    }
}

/// Adds the signed word `x` at position `start` of `c`, propagating the carry up to `end`.
///
/// Returns the carry out at `end`.
pub fn add_signed_word_at(c: &mut [Word], start: usize, end: usize, x: SignedWord) -> (r: SignedWord)
    requires
        start <= end <= old(c)@.len(),
    ensures
        final(c)@.len() == old(c)@.len(),
        to_nat(final(c)@) + r * pow_base(end as nat) == to_nat(old(c)@) + pow_base(start as nat) * x,
        start < end ==> -1 <= r <= 1,
        start == end ==> r == x,
{
    let ghost cb = c@;
    let ghost w1: Seq<Word>;
    let r = {
        let (_lo, rest) = c.split_at_mut(start);
        let (w, _hi) = rest.split_at_mut(end - start);
        let ghost w0 = w@;
        let r = add_signed_word_in_place(w, x);
        proof {
            w1 = w@;
            assert(w0 =~= cb.subrange(start as int, end as int));
            if start == end {
                assert(w0 =~= Seq::<Word>::empty());
                assert(w1 =~= Seq::<Word>::empty());
                assert(to_nat(w0) == 0);
                assert(to_nat(w1) == 0);
                assert(pow_base(0) == 1);
                assert(to_nat(w1) + r * pow_base(w0.len()) == to_nat(w0) + x);
                assert(r * pow_base(0) == r) by (nonlinear_arith)
                    requires
                        pow_base(0) == 1,
                ;
                assert(r == x);
            }
        }
        r
    };
    proof {
        assert(c@ =~= cb.take(start as int) + w1 + cb.skip(end as int));
        lemma_window(cb, c@, start as int, end as int, w1, r as int, x as int);
    }
    r
}

/// Adds `sign * rhs` at position `start` of `c`, propagating the carry up to `end`.
///
/// Returns the carry out at `end`.
pub fn add_signed_at(c: &mut [Word], start: usize, end: usize, sign: Sign, rhs: &[Word]) -> (r:
    SignedWord)
    requires
        start <= end <= old(c)@.len(),
        rhs@.len() <= end - start,
    ensures
        final(c)@.len() == old(c)@.len(),
        -1 <= r <= 1,
        to_nat(final(c)@) + r * pow_base(end as nat) == to_nat(old(c)@) + pow_base(start as nat)
            * (sign.factor() * to_nat(rhs@)),
{
    let ghost cb = c@;
    let ghost w1: Seq<Word>;
    let r = {
        let (_lo, rest) = c.split_at_mut(start);
        let (w, _hi) = rest.split_at_mut(end - start);
        let ghost w0 = w@;
        let r = add_signed_in_place(w, sign, rhs);
        proof {
            w1 = w@;
            assert(w0 =~= cb.subrange(start as int, end as int));
        }
        r
    };
    proof {
        assert(c@ =~= cb.take(start as int) + w1 + cb.skip(end as int));
        lemma_window(cb, c@, start as int, end as int, w1, r as int, sign.factor() * to_nat(rhs@));
    }
    r
}

/// Adds `sign * a * b` at position `start` of `c`, by the simple method.
///
/// Returns the carry out at `start + a.len() + b.len()`.
fn add_signed_mul_chunk_at(c: &mut [Word], start: usize, sign: Sign, a: &[Word], b: &[Word]) -> (r:
    SignedWord)
    requires
        start + a@.len() + b@.len() <= old(c)@.len(),
    ensures
        final(c)@.len() == old(c)@.len(),
        -1 <= r <= 1,
        to_nat(final(c)@) + r * pow_base((start + a@.len() + b@.len()) as nat) == to_nat(old(c)@)
            + pow_base(start as nat) * (sign.factor() * (to_nat(a@) * to_nat(b@))),
{
    let ghost cb = c@;
    let ghost w1: Seq<Word>;
    let clen = c.len();
    let end = start + a.len() + b.len();
    let r = {
        let (_lo, rest) = c.split_at_mut(start);
        let (w, _hi) = rest.split_at_mut(end - start);
        let ghost w0 = w@;
        let r = add_signed_mul_chunk(w, sign, a, b);
        proof {
            w1 = w@;
            assert(w0 =~= cb.subrange(start as int, end as int));
        }
        r
    };
    proof {
        assert(c@ =~= cb.take(start as int) + w1 + cb.skip(end as int));
        lemma_window(
            cb,
            c@,
            start as int,
            end as int,
            w1,
            r as int,
            sign.factor() * (to_nat(a@) * to_nat(b@)),
        );
    }
    r
}

/// One step over a chunk `a_lo` of the longer factor: the invariant of the chunked loops.
///
/// `poff`, `pcar`, `pnext` and `pend` are the powers of `B` at the offset, at the pending
/// carry, at the next offset and at the end of the window.
proof fn lemma_chunk_step(
    cv: int,
    cv1: int,
    cv2: int,
    c0: int,
    s: int,
    ab: int,
    cn: int,
    cn1: int,
    r: int,
    poff: int,
    pch: int,
    pcar: int,
    pnext: int,
    pend: int,
    av: int,
    alo: int,
    ahi: int,
    bv: int,
)
    requires
        cv + cn * pcar == c0 + s * (ab - poff * av * bv),
        cv1 + cn1 * pend == cv + pcar * cn,
        cv2 + r * pend == cv1 + poff * (s * (alo * bv)),
        av == alo + pch * ahi,
        pnext == poff * pch,
        0 <= poff * av * bv <= ab,
        poff >= 0,
        pch >= 0,
        alo >= 0,
        ahi >= 0,
        bv >= 0,
    ensures
        cv2 + (cn1 + r) * pend == c0 + s * (ab - pnext * ahi * bv),
        0 <= pnext * ahi * bv <= ab,
{
    assert(poff * av * bv == poff * alo * bv + pnext * ahi * bv) by (nonlinear_arith)
        requires
            av == alo + pch * ahi,
            pnext == poff * pch,
    ;
    assert(poff * alo * bv >= 0) by (nonlinear_arith)
        requires
            poff >= 0,
            alo >= 0,
            bv >= 0,
    ;
    assert(pnext * ahi * bv >= 0) by (nonlinear_arith)
        requires
            poff >= 0,
            pch >= 0,
            ahi >= 0,
            bv >= 0,
            pnext == poff * pch,
    ;
    assert(pcar * cn == cn * pcar) by (nonlinear_arith);
    assert(poff * (s * (alo * bv)) == s * (poff * alo * bv)) by (nonlinear_arith);
    assert((cn1 + r) * pend == cn1 * pend + r * pend) by (nonlinear_arith);
    assert(s * (ab - poff * av * bv) + s * (poff * alo * bv) == s * (ab - pnext * ahi * bv)) by (
    nonlinear_arith)
        requires
            poff * av * bv == poff * alo * bv + pnext * ahi * bv,
    ;
}

/// c += sign * a * b
/// Simple method: O(a.len() * b.len()).
///
/// Returns carry.
pub fn add_signed_mul_simple(c: &mut [Word], sign: Sign, a: &[Word], b: &[Word]) -> (r: SignedWord)
    requires
        a@.len() >= b@.len(),
        b@.len() <= MUL_SIMPLE_CHUNK,
        old(c)@.len() == a@.len() + b@.len(),
    ensures
        final(c)@.len() == old(c)@.len(),
        -1 <= r <= 1,
        to_nat(final(c)@) + r * pow_base(old(c)@.len()) == to_nat(old(c)@) + sign.factor() * (
        to_nat(a@) * to_nat(b@)),
{
    let ghost c0 = c@;
    let ghost s = sign.factor();
    let ghost ab: int = (to_nat(a@) * to_nat(b@)) as int;
    let n = b.len();
    let total = c.len();
    let mut a_rest: &[Word] = a;
    let mut off: usize = 0;
    let mut carry_n: SignedWord = 0;
    proof {
        assert(pow_base(0) == 1);
        assert(1 * to_nat(a@) * to_nat(b@) == ab) by (nonlinear_arith)
            requires
                ab == to_nat(a@) * to_nat(b@),
        ;
    }
    while a_rest.len() >= 2 * MUL_SIMPLE_CHUNK
        invariant
            n == b@.len(),
            total == c@.len(),
            total == c0.len(),
            off + a_rest@.len() + n == total,
            a_rest@.len() >= n,
            n <= MUL_SIMPLE_CHUNK,
            s == sign.factor(),
            ab == to_nat(a@) * to_nat(b@),
            -2 <= carry_n <= 2,
            to_nat(c@) + carry_n * pow_base((off + n) as nat) == to_nat(c0) + s * (ab - pow_base(
                off as nat,
            ) * to_nat(a_rest@) * to_nat(b@)),
            0 <= pow_base(off as nat) * to_nat(a_rest@) * to_nat(b@) <= ab,
        decreases a_rest@.len(),
    {
        let ghost cv = to_nat(c@) as int;
        let cn1 = add_signed_word_at(c, off + n, off + MUL_SIMPLE_CHUNK + n, carry_n);
        let ghost cv1 = to_nat(c@) as int;
        let (a_lo, a_hi) = a_rest.split_at(MUL_SIMPLE_CHUNK);
        let r = add_signed_mul_chunk_at(c, off, sign, a_lo, b);
        proof {
            lemma_to_nat_split(a_rest@, MUL_SIMPLE_CHUNK as int);
            assert(a_lo@ =~= a_rest@.take(MUL_SIMPLE_CHUNK as int));
            assert(a_hi@ =~= a_rest@.skip(MUL_SIMPLE_CHUNK as int));
            lemma_pow_base_add(off as nat, MUL_SIMPLE_CHUNK as nat);
            lemma_pow_base_pos(off as nat);
            lemma_pow_base_pos(MUL_SIMPLE_CHUNK as nat);
            assert((off + MUL_SIMPLE_CHUNK) as nat == off as nat + MUL_SIMPLE_CHUNK as nat);
            lemma_chunk_step(
                cv,
                cv1,
                to_nat(c@) as int,
                to_nat(c0) as int,
                s,
                ab,
                carry_n as int,
                cn1 as int,
                r as int,
                pow_base(off as nat) as int,
                pow_base(MUL_SIMPLE_CHUNK as nat) as int,
                pow_base((off + n) as nat) as int,
                pow_base((off + MUL_SIMPLE_CHUNK) as nat) as int,
                pow_base((off + MUL_SIMPLE_CHUNK + n) as nat) as int,
                to_nat(a_rest@) as int,
                to_nat(a_lo@) as int,
                to_nat(a_hi@) as int,
                to_nat(b@) as int,
            );
        }
        carry_n = cn1 + r;
        a_rest = a_hi;
        off += MUL_SIMPLE_CHUNK;
    }
    let ghost cv = to_nat(c@) as int;
    let k = add_signed_word_at(c, off + n, total, carry_n);
    let ghost cv1 = to_nat(c@) as int;
    let r = add_signed_mul_chunk_at(c, off, sign, a_rest, b);
    proof {
        assert(a_rest@.skip(a_rest@.len() as int) =~= Seq::<Word>::empty());
        assert(pow_base(0) == 1);
        lemma_pow_base_pos(off as nat);
        lemma_pow_base_pos(a_rest@.len());
        lemma_pow_base_add(off as nat, a_rest@.len());
        lemma_chunk_step(
            cv,
            cv1,
            to_nat(c@) as int,
            to_nat(c0) as int,
            s,
            ab,
            carry_n as int,
            k as int,
            r as int,
            pow_base(off as nat) as int,
            pow_base(a_rest@.len()) as int,
            pow_base((off + n) as nat) as int,
            pow_base((off + a_rest@.len()) as nat) as int,
            pow_base(total as nat) as int,
            to_nat(a_rest@) as int,
            to_nat(a_rest@) as int,
            0,
            to_nat(b@) as int,
        );
        assert(pow_base((off + a_rest@.len()) as nat) * 0 * to_nat(b@) == 0) by (nonlinear_arith);
        lemma_to_nat_bound(c@);
        lemma_to_nat_bound(c0);
        lemma_product_bound(a@, b@);
        assert(-pow_base(total as nat) < s * ab < pow_base(total as nat)) by (nonlinear_arith)
            requires
                s == 1 || s == -1,
                0 <= ab < pow_base(total as nat),
        ;
        lemma_carry_bound(
            to_nat(c@) as int,
            k + r,
            pow_base(total as nat) as int,
            to_nat(c0) as int,
            s * ab,
        );
    }
    k + r
}

/// Temporary space needed by Karatsuba multiplication when the smaller factor has `n` words.
pub open spec fn karatsuba_temp_len(n: nat) -> nat
    decreases n,
{
    if n <= MAX_LEN_SIMPLE {
        0
    } else {
        2 * ((n + 1) / 2) + karatsuba_temp_len((n + 1) / 2)
    }
}

/// The temporary space needed grows with the length.
pub proof fn lemma_karatsuba_temp_len_mono(k: nat, m: nat)
    requires
        k <= m,
    ensures
        karatsuba_temp_len(k) <= karatsuba_temp_len(m),
    decreases m,
{
    if k > MAX_LEN_SIMPLE {
        lemma_karatsuba_temp_len_mono((k + 1) / 2, (m + 1) / 2);
    }
}

/// The value computed by one Karatsuba step.
proof fn lemma_karatsuba_value(
    c0: int,
    c1: int,
    c2: int,
    c3: int,
    c4: int,
    c5: int,
    c6: int,
    c7: int,
    k0: int,
    k1: int,
    k2: int,
    k3: int,
    k4: int,
    k5: int,
    k6: int,
    s: int,
    g: int,
    alo: int,
    ahi: int,
    blo: int,
    bhi: int,
    ad: int,
    bd: int,
    pm: int,
    p2: int,
    p3: int,
    pn: int,
)
    requires
        p2 == pm * pm,
        p3 == pm * p2,
        c1 + k0 * p2 == c0 + 1 * (s * (alo * blo)),
        c2 + k1 * p3 == c1 + pm * (s * (alo * blo)),
        c3 + k2 * pn == c2 + p2 * (s * (ahi * bhi)),
        c4 + k3 * p3 == c3 + pm * (s * (ahi * bhi)),
        c5 + k4 * p3 == c4 + pm * (g * (ad * bd)),
        g * (ad * bd) == -(s * ((alo - ahi) * (blo - bhi))),
        c6 + k5 * p3 == c5 + p2 * k0,
        c7 + k6 * pn == c6 + p3 * (k1 + k3 + k4 + k5),
    ensures
        c7 + (k2 + k6) * pn == c0 + s * ((alo + pm * ahi) * (blo + pm * bhi)),
{
    assert(p3 * (k1 + k3 + k4 + k5) == k1 * p3 + k3 * p3 + k4 * p3 + k5 * p3) by (nonlinear_arith);
    assert(p2 * k0 == k0 * p2) by (nonlinear_arith);
    assert((k2 + k6) * pn == k2 * pn + k6 * pn) by (nonlinear_arith);
    let l = alo * blo;
    let h = ahi * bhi;
    let d = (alo - ahi) * (blo - bhi);
    let x = alo * bhi;
    let y = ahi * blo;
    assert(c7 + (k2 + k6) * pn == c0 + s * l + pm * (s * l) + p2 * (s * h) + pm * (s * h) + pm
        * (-(s * d)));
    assert((alo + pm * ahi) * (blo + pm * bhi) == alo * (blo + pm * bhi) + (pm * ahi) * (blo + pm
        * bhi)) by (nonlinear_arith);
    assert(alo * (blo + pm * bhi) == l + pm * x) by (nonlinear_arith)
        requires
            l == alo * blo,
            x == alo * bhi,
    ;
    assert((pm * ahi) * (blo + pm * bhi) == pm * y + p2 * h) by (nonlinear_arith)
        requires
            p2 == pm * pm,
            h == ahi * bhi,
            y == ahi * blo,
    ;
    assert(d == l - x - y + h) by (nonlinear_arith)
        requires
            d == (alo - ahi) * (blo - bhi),
            l == alo * blo,
            h == ahi * bhi,
            x == alo * bhi,
            y == ahi * blo,
    ;
    lemma_karatsuba_collect(s, pm, p2, l, h, d, x, y);
}

/// Collecting the terms of one Karatsuba step.
proof fn lemma_karatsuba_collect(s: int, pm: int, p2: int, l: int, h: int, d: int, x: int, y: int)
    requires
        d == l - x - y + h,
    ensures
        s * l + pm * (s * l) + p2 * (s * h) + pm * (s * h) + pm * (-(s * d)) == s * (l + pm * x
            + pm * y + p2 * h),
{
    assert(pm * (s * l) + pm * (s * h) + pm * (-(s * d)) == pm * (s * (l + h - d))) by (
    nonlinear_arith);
    assert(s * (l + h - d) == s * x + s * y) by (nonlinear_arith)
        requires
            d == l - x - y + h,
    ;
    assert(pm * (s * x + s * y) == s * (pm * x) + s * (pm * y)) by (nonlinear_arith);
    assert(p2 * (s * h) == s * (p2 * h)) by (nonlinear_arith);
    assert(s * l + s * (pm * x) + s * (pm * y) + s * (p2 * h) == s * (l + pm * x + pm * y + p2
        * h)) by (nonlinear_arith);
}

/// The carry of `c += sign * a * b` is determined by the equation, and it is between -1 and 1.
pub proof fn lemma_mul_carry_bound(cb: Seq<Word>, c1: Seq<Word>, r: int, s: int, a: Seq<Word>, b: Seq<Word>)
    requires
        cb.len() == a.len() + b.len(),
        c1.len() == cb.len(),
        s == 1 || s == -1,
        to_nat(c1) + r * pow_base(cb.len()) == to_nat(cb) + s * (to_nat(a) * to_nat(b)),
    ensures
        -1 <= r <= 1,
{
    lemma_to_nat_bound(c1);
    lemma_to_nat_bound(cb);
    lemma_product_bound(a, b);
    let ab = to_nat(a) * to_nat(b);
    let p = pow_base(cb.len()) as int;
    assert(-p < s * ab < p) by (nonlinear_arith)
        requires
            s == 1 || s == -1,
            0 <= ab < p,
    ;
    lemma_carry_bound(to_nat(c1) as int, r, p, to_nat(cb) as int, s * ab);
}

/// c = a * b
/// Karatsuba method: O(n^1.59).
pub fn mul_karatsuba(c: &mut [Word], a: &[Word], b: &[Word], temp: &mut [Word])
    requires
        a@.len() >= b@.len(),
        b@.len() <= MAX_LEN_KARATSUBA,
        old(c)@.len() == a@.len() + b@.len(),
        old(temp)@.len() >= karatsuba_temp_len(b@.len()),
    ensures
        final(c)@.len() == old(c)@.len(),
        final(temp)@.len() == old(temp)@.len(),
        to_nat(final(c)@) == to_nat(a@) * to_nat(b@),
    decreases 8 * b@.len() + 9,
{
    let n = c.len();
    let mut i: usize = 0;
    while i < n
        invariant
            0 <= i <= n,
            n == c@.len(),
            forall|j: int| 0 <= j < i ==> c@[j] == 0,
        decreases n - i,
    {
        c[i] = 0;
        i += 1;
    }
    let ghost cz = c@;
    proof {
        assert(cz =~= crate::value::zeros(n as nat));
        crate::value::lemma_to_nat_zeros(n as nat);
    }
    let overflow = add_signed_mul_karatsuba(c, Sign::Positive, a, b, temp);
    proof {
        let ab = to_nat(a@) * to_nat(b@);
        lemma_product_bound(a@, b@);
        lemma_to_nat_bound(c@);
        let p = pow_base(n as nat) as int;
        assert(1 * ab == ab);
        if overflow > 0 {
            assert(overflow * p >= p) by (nonlinear_arith)
                requires
                    overflow >= 1,
                    p > 0,
            ;
        } else if overflow < 0 {
            assert(overflow * p <= -p) by (nonlinear_arith)
                requires
                    overflow <= -1,
                    p > 0,
            ;
        }
        assert(overflow == 0);
        assert(overflow * p == 0);
    }
}

/// c += sign * a * b
/// Karatsuba method: O(a.len() * b.len()^0.59).
///
/// Returns carry.
pub fn add_signed_mul_karatsuba(
    c: &mut [Word],
    sign: Sign,
    a: &[Word],
    b: &[Word],
    temp: &mut [Word],
) -> (r: SignedWord)
    requires
        a@.len() >= b@.len(),
        b@.len() <= MAX_LEN_KARATSUBA,
        old(c)@.len() == a@.len() + b@.len(),
        old(temp)@.len() >= karatsuba_temp_len(b@.len()),
    ensures
        final(c)@.len() == old(c)@.len(),
        final(temp)@.len() == old(temp)@.len(),
        -1 <= r <= 1,
        to_nat(final(c)@) + r * pow_base(old(c)@.len()) == to_nat(old(c)@) + sign.factor() * (
        to_nat(a@) * to_nat(b@)),
    decreases 8 * b@.len() + 8,
{
    add_signed_mul_split_into_same_len(c, sign, a, b, temp)
}

/// c += sign * a * b
///
/// Splits into multiplies of equal length, and one final short multiply.
///
/// Returns carry.
pub fn add_signed_mul_split_into_same_len(
    c: &mut [Word],
    sign: Sign,
    a: &[Word],
    b: &[Word],
    temp: &mut [Word],
) -> (r: SignedWord)
    requires
        a@.len() >= b@.len(),
        old(c)@.len() == a@.len() + b@.len(),
        old(temp)@.len() >= toom_3_temp_len(b@.len()),
    ensures
        final(c)@.len() == old(c)@.len(),
        final(temp)@.len() == old(temp)@.len(),
        -1 <= r <= 1,
        to_nat(final(c)@) + r * pow_base(old(c)@.len()) == to_nat(old(c)@) + sign.factor() * (
        to_nat(a@) * to_nat(b@)),
    decreases 8 * b@.len() + 7,
{
    let ghost c0 = c@;
    let ghost s = sign.factor();
    let ghost ab: int = (to_nat(a@) * to_nat(b@)) as int;
    let ghost m0 = b@.len();
    let ghost t0 = temp@.len();
    let total = c.len();
    let mut x: &[Word] = a;
    let mut y: &[Word] = b;
    let mut off: usize = 0;
    let mut carry: SignedWord = 0;
    proof {
        assert(pow_base(0) == 1);
        assert(1 * to_nat(a@) * to_nat(b@) == ab) by (nonlinear_arith)
            requires
                ab == to_nat(a@) * to_nat(b@),
        ;
        lemma_product_bound(a@, b@);
    }
    while y.len() > MAX_LEN_SIMPLE
        invariant
            total == c@.len(),
            total == c0.len(),
            off + x@.len() + y@.len() == total,
            x@.len() >= y@.len(),
            y@.len() <= m0,
            m0 == b@.len(),
            t0 == temp@.len(),
            t0 >= toom_3_temp_len(m0),
            s == sign.factor(),
            ab == to_nat(a@) * to_nat(b@),
            0 <= ab < pow_base(total as nat),
            -1 <= carry <= 1,
            to_nat(c@) + carry * pow_base(total as nat) == to_nat(c0) + s * (ab - pow_base(
                off as nat,
            ) * to_nat(x@) * to_nat(y@)),
            0 <= pow_base(off as nat) * to_nat(x@) * to_nat(y@) <= ab,
        decreases y@.len(),
    {
        let n = y.len();
        let mut carry_n: SignedWord = 0;
        proof {
            assert(carry_n * pow_base((off + n) as nat) == 0);
        }
        while x.len() >= n
            invariant
                total == c@.len(),
                total == c0.len(),
                off + x@.len() + n == total,
                n == y@.len(),
                n > MAX_LEN_SIMPLE,
                n <= m0,
                m0 == b@.len(),
                t0 == temp@.len(),
                t0 >= toom_3_temp_len(m0),
                s == sign.factor(),
                ab == to_nat(a@) * to_nat(b@),
                -1 <= carry <= 1,
                -2 <= carry_n <= 2,
                to_nat(c@) + carry * pow_base(total as nat) + carry_n * pow_base((off + n) as nat)
                    == to_nat(c0) + s * (ab - pow_base(off as nat) * to_nat(x@) * to_nat(y@)),
                0 <= pow_base(off as nat) * to_nat(x@) * to_nat(y@) <= ab,
            decreases x@.len(),
        {
            let ghost cv = to_nat(c@) + carry * pow_base(total as nat);
            let cn1 = add_signed_word_at(c, off + n, off + 2 * n, carry_n);
            let ghost cv1 = to_nat(c@) + carry * pow_base(total as nat);
            let (x_lo, x_hi) = x.split_at(n);
            let ghost cb = c@;
            let ghost w1: Seq<Word>;
            let r = {
                let (_lo, rest) = c.split_at_mut(off);
                let (w, _hi) = rest.split_at_mut(2 * n);
                let ghost w0 = w@;
                proof {
                    lemma_toom_3_temp_len_mono(n as nat, m0);
                }
                let r = add_signed_mul_same_len(w, sign, x_lo, y, temp);
                proof {
                    w1 = w@;
                    assert(w0 =~= cb.subrange(off as int, off + 2 * n));
                }
                r
            };
            proof {
                assert(c@ =~= cb.take(off as int) + w1 + cb.skip(off + 2 * n));
                lemma_window(
                    cb,
                    c@,
                    off as int,
                    off + 2 * n,
                    w1,
                    r as int,
                    s * (to_nat(x_lo@) * to_nat(y@)),
                );
                lemma_to_nat_split(x@, n as int);
                assert(x_lo@ =~= x@.take(n as int));
                assert(x_hi@ =~= x@.skip(n as int));
                lemma_pow_base_add(off as nat, n as nat);
                lemma_pow_base_pos(off as nat);
                lemma_pow_base_pos(n as nat);
                assert((off + n) as nat == off as nat + n as nat);
                lemma_chunk_step(
                    cv,
                    cv1,
                    to_nat(c@) + carry * pow_base(total as nat),
                    to_nat(c0) as int,
                    s,
                    ab,
                    carry_n as int,
                    cn1 as int,
                    r as int,
                    pow_base(off as nat) as int,
                    pow_base(n as nat) as int,
                    pow_base((off + n) as nat) as int,
                    pow_base((off + n) as nat) as int,
                    pow_base((off + 2 * n) as nat) as int,
                    to_nat(x@) as int,
                    to_nat(x_lo@) as int,
                    to_nat(x_hi@) as int,
                    to_nat(y@) as int,
                );
            }
            carry_n = cn1 + r;
            x = x_hi;
            off += n;
        }
        let ghost cv = to_nat(c@);
        let k = add_signed_word_at(c, off + n, total, carry_n);
        proof {
            lemma_to_nat_bound(c@);
            lemma_to_nat_bound(c0);
            let p = pow_base(total as nat) as int;
            let rest = ab - pow_base(off as nat) * to_nat(x@) * to_nat(y@);
            assert(-p < s * rest < p) by (nonlinear_arith)
                requires
                    s == 1 || s == -1,
                    0 <= rest < p,
            ;
            assert((carry + k) * p == carry * p + k * p) by (nonlinear_arith);
            assert(pow_base((off + n) as nat) * carry_n == carry_n * pow_base((off + n) as nat))
                by (nonlinear_arith);
            lemma_carry_bound(to_nat(c@) as int, carry + k, p, to_nat(c0) as int, s * rest);
            let pf = pow_base(off as nat) as int;
            assert(pf * to_nat(x@) * to_nat(y@) == pf * to_nat(y@) * to_nat(x@)) by (
            nonlinear_arith);
        }
        carry = carry + k;
        let t = x;
        x = y;
        y = t;
    }
    let ghost cv = to_nat(c@);
    let ghost cb = c@;
    let ghost w1: Seq<Word>;
    let r = {
        let (_lo, w) = c.split_at_mut(off);
        let ghost w0 = w@;
        let r = add_signed_mul_simple(w, sign, x, y);
        proof {
            w1 = w@;
            assert(w0 =~= cb.subrange(off as int, total as int));
        }
        r
    };
    proof {
        assert(cb.skip(total as int) =~= Seq::<Word>::empty());
        assert(c@ =~= cb.take(off as int) + w1 + cb.skip(total as int));
        lemma_window(cb, c@, off as int, total as int, w1, r as int, s * (to_nat(x@) * to_nat(y@)));
        let p = pow_base(total as nat) as int;
        let pf = pow_base(off as nat) as int;
        assert(pf * (s * (to_nat(x@) * to_nat(y@))) == s * (pf * to_nat(x@) * to_nat(y@))) by (
        nonlinear_arith);
        assert((carry + r) * p == carry * p + r * p) by (nonlinear_arith);
        lemma_mul_carry_bound(c0, c@, carry + r, s, a@, b@);
    }
    carry + r
}

/// c += sign * a * b
/// Karatsuba method: O(n^1.59).
///
/// Returns carry.
#[verifier::rlimit(60)]
pub fn add_signed_mul_karatsuba_same_len(
    c: &mut [Word],
    sign: Sign,
    a: &[Word],
    b: &[Word],
    temp: &mut [Word],
) -> (r: SignedWord)
    requires
        a@.len() == b@.len(),
        a@.len() <= MAX_LEN_KARATSUBA,
        old(c)@.len() == 2 * a@.len(),
        old(temp)@.len() >= karatsuba_temp_len(a@.len()),
    ensures
        final(c)@.len() == old(c)@.len(),
        final(temp)@.len() == old(temp)@.len(),
        -1 <= r <= 1,
        to_nat(final(c)@) + r * pow_base(old(c)@.len()) == to_nat(old(c)@) + sign.factor() * (
        to_nat(a@) * to_nat(b@)),
    decreases 8 * a@.len() + 4,
{
    let n = a.len();
    let _c_len = c.len();
    if n <= MAX_LEN_SIMPLE {
        return add_signed_mul_simple(c, sign, a, b);
    }
    let ghost c0 = c@;
    let ghost s = sign.factor();
    let mid = (n + 1) / 2;
    let h = n - mid;
    let (a_lo, a_hi) = a.split_at(mid);
    let (b_lo, b_hi) = b.split_at(mid);
    let (my_temp, temp) = temp.split_at_mut(2 * mid);
    proof {
        lemma_karatsuba_temp_len_mono(h as nat, mid as nat);
    }
    // Result = a_lo * b_lo + a_hi * b_hi * Word^(2mid)
    //        + (a_lo * b_lo + a_hi * b_hi - (a_lo-a_hi)*(b_lo-b_hi)) * Word^mid

    // c_0 += a_lo * b_lo
    // c_1 += a_lo * b_lo
    mul_karatsuba(my_temp, a_lo, b_lo, temp);
    let carry_c0 = add_signed_at(c, 0, 2 * mid, sign, my_temp);
    let ghost cv1 = to_nat(c@);
    let k1 = add_signed_at(c, mid, 3 * mid, sign, my_temp);
    let ghost cv2 = to_nat(c@);
    let ghost lv = to_nat(my_temp@);

    // c_2 += a_hi * b_hi
    // c_1 += a_hi * b_hi
    let ghost hv: int;
    let ghost cv3: int;
    let (k2, k3) = {
        let (c_hi, _rest) = my_temp.split_at_mut(2 * h);
        mul_karatsuba(c_hi, a_hi, b_hi, temp);
        let k2 = add_signed_at(c, 2 * mid, 2 * n, sign, c_hi);
        proof {
            cv3 = to_nat(c@) as int;
        }
        let k3 = add_signed_at(c, mid, 3 * mid, sign, c_hi);
        proof {
            hv = to_nat(c_hi@) as int;
        }
        (k2, k3)
    };
    let ghost cv4 = to_nat(c@);

    // c_1 -= (a_lo - a_hi) * (b_lo - b_hi)
    let ghost g: int;
    let ghost ad: int;
    let ghost bd: int;
    let k4 = {
        let (a_diff, b_diff) = my_temp.split_at_mut(mid);
        copy_words(a_diff, a_lo);
        let sa = sub_in_place_with_sign(a_diff, a_hi);
        copy_words(b_diff, b_lo);
        let sb = sub_in_place_with_sign(b_diff, b_hi);
        let diff_sign = sa.mul(sb);
        let prod_sign = sign.negate().mul(diff_sign);
        let ghost cb = c@;
        let ghost w1: Seq<Word>;
        let k4 = {
            let (_lo, rest) = c.split_at_mut(mid);
            let (w, _hi) = rest.split_at_mut(2 * mid);
            let ghost w0 = w@;
            let k4 = add_signed_mul_karatsuba(w, prod_sign, a_diff, b_diff, temp);
            proof {
                w1 = w@;
                assert(w0 =~= cb.subrange(mid as int, 3 * mid));
            }
            k4
        };
        proof {
            assert(c@ =~= cb.take(mid as int) + w1 + cb.skip(3 * mid));
            g = prod_sign.factor();
            ad = to_nat(a_diff@) as int;
            bd = to_nat(b_diff@) as int;
            lemma_window(cb, c@, mid as int, 3 * mid, w1, k4 as int, g * (ad * bd));
            assert(sa.factor() * ad == to_nat(a_lo@) - to_nat(a_hi@));
            assert(sb.factor() * bd == to_nat(b_lo@) - to_nat(b_hi@));
            let fa = sa.factor();
            let fb = sb.factor();
            assert(g == -s * (fa * fb));
            assert(g * (ad * bd) == -(s * ((fa * ad) * (fb * bd)))) by (nonlinear_arith)
                requires
                    g == -s * (fa * fb),
            ;
        }
        k4
    };
    let ghost cv5 = to_nat(c@);

    // Propagate carries.
    let k5 = add_signed_word_at(c, 2 * mid, 3 * mid, carry_c0);
    let ghost cv6 = to_nat(c@);
    let carry_c1 = k1 + k3 + k4 + k5;
    let k6 = add_signed_word_at(c, 3 * mid, 2 * n, carry_c1);
    proof {
        lemma_to_nat_split(a@, mid as int);
        lemma_to_nat_split(b@, mid as int);
        assert(a_lo@ =~= a@.take(mid as int));
        assert(a_hi@ =~= a@.skip(mid as int));
        assert(b_lo@ =~= b@.take(mid as int));
        assert(b_hi@ =~= b@.skip(mid as int));
        lemma_pow_base_add(mid as nat, mid as nat);
        lemma_pow_base_add(mid as nat, (2 * mid) as nat);
        assert(pow_base(0) == 1);
        lemma_karatsuba_value(
            to_nat(c0) as int,
            cv1 as int,
            cv2 as int,
            cv3,
            cv4 as int,
            cv5 as int,
            cv6 as int,
            to_nat(c@) as int,
            carry_c0 as int,
            k1 as int,
            k2 as int,
            k3 as int,
            k4 as int,
            k5 as int,
            k6 as int,
            s,
            g,
            to_nat(a_lo@) as int,
            to_nat(a_hi@) as int,
            to_nat(b_lo@) as int,
            to_nat(b_hi@) as int,
            ad,
            bd,
            pow_base(mid as nat) as int,
            pow_base((2 * mid) as nat) as int,
            pow_base((3 * mid) as nat) as int,
            pow_base((2 * n) as nat) as int,
        );
        lemma_mul_carry_bound(c0, c@, k2 + k6, s, a@, b@);
    }
    k2 + k6
}

/// The ceiling of the logarithm base 2: the number of halvings, rounding up, down to one.
pub open spec fn ceil_log2(n: nat) -> nat
    decreases n,
{
    if n <= 1 {
        0
    } else {
        1 + ceil_log2((n + 1) / 2)
    }
}

/// A number is at most two to the power of its ceiling logarithm.
pub proof fn lemma_ceil_log2_covers(n: nat)
    ensures
        n <= vstd::arithmetic::power2::pow2(ceil_log2(n)),
    decreases n,
{
    vstd::arithmetic::power2::lemma2_to64();
    if n > 1 {
        lemma_ceil_log2_covers((n + 1) / 2);
        vstd::arithmetic::power2::lemma_pow2_unfold(ceil_log2(n));
    }
}

/// A number of at most `2^k` has a ceiling logarithm of at most `k`.
pub proof fn lemma_ceil_log2_le(n: nat, k: nat)
    requires
        n <= vstd::arithmetic::power2::pow2(k),
    ensures
        ceil_log2(n) <= k,
    decreases n,
{
    vstd::arithmetic::power2::lemma2_to64();
    if n > 1 {
        if k == 0 {
            assert(false);
        }
        vstd::arithmetic::power2::lemma_pow2_unfold(k);
        lemma_ceil_log2_le((n + 1) / 2, (k - 1) as nat);
    }
}

/// The temporary space of Karatsuba multiplication is at most `2n + 2 ceil(log2 n)` words.
pub proof fn lemma_karatsuba_temp_len_log_bound(n: nat)
    ensures
        karatsuba_temp_len(n) <= 2 * n + 2 * ceil_log2(n),
    decreases n,
{
    if n > MAX_LEN_SIMPLE {
        lemma_karatsuba_temp_len_log_bound((n + 1) / 2);
    }
}

/// The temporary space of Karatsuba multiplication is at most three times the length.
pub proof fn lemma_karatsuba_temp_len_bound(n: nat)
    ensures
        karatsuba_temp_len(n) <= 3 * n,
    decreases n,
{
    if n > MAX_LEN_SIMPLE {
        lemma_karatsuba_temp_len_bound((n + 1) / 2);
    }
}

/// Temporary buffer required for multiplication.
/// n is the length of the smaller factor in words.
pub fn allocate_temp_mul_buffer(n: usize) -> (r: Vec<Word>)
    requires
        n <= usize::MAX / 6,
    ensures
        r@.len() == toom_3_temp_len(n as nat),
        r@.len() <= 4 * n + 13 * ceil_log2(n as nat),
{
    let mut temp_len: usize = 0;
    let mut m = n;
    proof {
        lemma_toom_3_temp_len_bound(n as nat);
        crate::toom_3::lemma_toom_3_temp_len_log_bound(n as nat);
    }
    while m > MAX_LEN_KARATSUBA
        invariant
            m <= n,
            n <= usize::MAX / 6,
            temp_len + toom_3_temp_len(m as nat) == toom_3_temp_len(n as nat),
            toom_3_temp_len(n as nat) <= 6 * n,
        decreases m,
    {
        let n3 = (m + 2) / 3;
        temp_len += 8 * n3 + 8;
        m = n3 + 1;
    }
    while m > MAX_LEN_SIMPLE
        invariant
            m <= n,
            m <= MAX_LEN_KARATSUBA,
            n <= usize::MAX / 6,
            temp_len + karatsuba_temp_len(m as nat) == toom_3_temp_len(n as nat),
            toom_3_temp_len(n as nat) <= 6 * n,
        decreases m,
    {
        let mid = (m + 1) / 2;
        temp_len += 2 * mid;
        m = mid;
    }
    vec![0; temp_len]
}

/// c += sign * a * b
/// Toom-Cook-3 method. O(a.len() * b.len()^0.47).
///
/// Returns carry.
pub fn add_signed_mul_toom_3(
    c: &mut [Word],
    sign: Sign,
    a: &[Word],
    b: &[Word],
    temp: &mut [Word],
) -> (r: SignedWord)
    requires
        a@.len() >= b@.len(),
        old(c)@.len() == a@.len() + b@.len(),
        old(temp)@.len() >= toom_3_temp_len(b@.len()),
    ensures
        final(c)@.len() == old(c)@.len(),
        final(temp)@.len() == old(temp)@.len(),
        -1 <= r <= 1,
        to_nat(final(c)@) + r * pow_base(old(c)@.len()) == to_nat(old(c)@) + sign.factor() * (
        to_nat(a@) * to_nat(b@)),
{
    add_signed_mul_split_into_same_len(c, sign, a, b, temp)
}

/// c += sign * a * b
///
/// Returns carry.
pub fn add_signed_mul(c: &mut [Word], sign: Sign, a: &[Word], b: &[Word], temp: &mut [Word]) -> (r:
    SignedWord)
    requires
        old(c)@.len() == a@.len() + b@.len(),
        old(temp)@.len() >= toom_3_temp_len(if a@.len() < b@.len() {
            a@.len()
        } else {
            b@.len()
        }),
    ensures
        final(c)@.len() == old(c)@.len(),
        final(temp)@.len() == old(temp)@.len(),
        -1 <= r <= 1,
        to_nat(final(c)@) + r * pow_base(old(c)@.len()) == to_nat(old(c)@) + sign.factor() * (
        to_nat(a@) * to_nat(b@)),
{
    let (a, b) = if a.len() < b.len() {
        proof {
            assert(to_nat(b@) * to_nat(a@) == to_nat(a@) * to_nat(b@)) by (nonlinear_arith);
        }
        (b, a)
    } else {
        (a, b)
    };
    if b.len() <= MAX_LEN_SIMPLE {
        add_signed_mul_simple(c, sign, a, b)
    } else if b.len() <= MAX_LEN_KARATSUBA {
        add_signed_mul_karatsuba(c, sign, a, b, temp)
    } else {
        add_signed_mul_toom_3(c, sign, a, b, temp)
    }
}

} // verus!
