//! Binary greatest common divisor on words and on word slices.

use crate::bits::is_trailing_zeros;
use crate::gcd_spec::{
    lemma_divides_le, lemma_gcd_comm, lemma_gcd_divides, lemma_gcd_mod, lemma_gcd_odd_parts,
    lemma_gcd_pow2, lemma_gcd_sub, lemma_gcd_zero, spec_gcd,
};
use crate::ibig::abs;
use crate::primitive::{SignedWord, Word};
use crate::buffer::MAX_LEN;
use crate::value::{
    is_normalized, lemma_pow_base_mono, lemma_pow_base_pos, lemma_to_nat_normalized_lower, lemma_to_nat_bound, lemma_to_nat_drop_last_zero, lemma_to_nat_single,
    lemma_to_nat_split, pow_base, to_nat,
};
use vstd::arithmetic::power2::{lemma_pow2_pos, pow2};
use vstd::prelude::*;

verus! {

/// A non-zero word is `2^t` times its odd part `w >> t`, where `t` counts its trailing zeros.
pub proof fn lemma_word_odd_part(w: Word, t: u32)
    requires
        w != 0,
        t == w.trailing_zeros(),
    ensures
        t < 64,
        (w >> t) as nat % 2 == 1,
        w as nat == pow2(t as nat) * (w >> t) as nat,
        (w >> t) > 0,
{
    crate::bits::lemma_trailing_zeros_words(seq![w], 0, t as nat);
    lemma_to_nat_single(w);
    assert(is_trailing_zeros(w as nat, t as nat));
    lemma_pow2_pos(t as nat);
    vstd::bits::lemma_u64_shr_is_div(w, t as u64);
    vstd::arithmetic::div_mod::lemma_fundamental_div_mod(w as int, pow2(t as nat) as int);
    assert(w >> t == w >> (t as u64));
}

/// Removing the factors of two of one odd-coprime side keeps the gcd: `gcd(2^t x, b) == gcd(x, b)`.
proof fn lemma_gcd_drop_twos(w: Word, t: u32, b: nat)
    requires
        w != 0,
        t == w.trailing_zeros(),
        b % 2 == 1,
    ensures
        spec_gcd((w >> t) as nat, b) == spec_gcd(w as nat, b),
        (w >> t) as nat % 2 == 1,
        (w >> t) <= w,
{
    lemma_word_odd_part(w, t);
    lemma_gcd_pow2(t as nat, (w >> t) as nat, b);
    vstd::bits::lemma_u64_shr_is_div(w, t as u64);
    assert(w >> t == w >> (t as u64));
    vstd::arithmetic::div_mod::lemma_div_is_ordered_by_denominator(w as int, 1, pow2(t as nat) as int);
}

/// Greatest common divisor of two non-zero words, by the binary algorithm.
///
/// When one operand is much shorter than the other, one division step comes first.
pub fn gcd_word_by_word(a: Word, b: Word) -> (r: Word)
    requires
        a > 0,
        b > 0,
    ensures
        r == spec_gcd(a as nat, b as nat),
{
    let ghost (a0, b0) = (a as nat, b as nat);
    // find common factors of 2
    let za = a.trailing_zeros();
    let zb = b.trailing_zeros();
    let shift = if za < zb {
        za
    } else {
        zb
    };
    proof {
        lemma_word_odd_part(a, za);
        lemma_word_odd_part(b, zb);
    }
    let mut a = a >> za;
    let mut b = b >> zb;
    let ghost g = spec_gcd(a0, b0);
    proof {
        lemma_gcd_odd_parts(za as nat, a as nat, zb as nat, b as nat);
        lemma_gcd_divides(a0, b0);
        lemma_divides_le(g, a0);
    }
    // now g == 2^shift * gcd(a, b), with a and b odd

    // reduce by division if the difference between operands is large
    let la = a.leading_zeros();
    let lb = b.leading_zeros();
    if la > lb.wrapping_add(4) {
        let r = b % a;
        proof {
            lemma_gcd_mod(b as nat, a as nat);
            lemma_gcd_comm(b as nat, a as nat);
            lemma_gcd_comm((b % a) as nat, a as nat);
        }
        if r == 0 {
            proof {
                lemma_gcd_zero(a as nat);
                lemma_shl_exact(a, shift, g);
            }
            return a << shift;
        } else {
            let t = r.trailing_zeros();
            proof {
                lemma_gcd_drop_twos(r, t, a as nat);
                lemma_gcd_comm((r >> t) as nat, a as nat);
                lemma_gcd_comm(r as nat, a as nat);
            }
            b = r >> t;
        }
    } else if lb > la.wrapping_add(4) {
        let r = a % b;
        proof {
            lemma_gcd_mod(a as nat, b as nat);
        }
        if r == 0 {
            proof {
                lemma_gcd_zero(b as nat);
                lemma_shl_exact(b, shift, g);
            }
            return b << shift;
        } else {
            let t = r.trailing_zeros();
            proof {
                lemma_gcd_drop_twos(r, t, b as nat);
            }
            a = r >> t;
        }
    }
    // the binary GCD algorithm

    while a != b
        invariant
            a > 0,
            b > 0,
            a as nat % 2 == 1,
            b as nat % 2 == 1,
            g == pow2(shift as nat) * spec_gcd(a as nat, b as nat),
            g <= a0,
            shift < 64,
        decreases a + b,
    {
        if a > b {
            proof {
                lemma_gcd_sub(a as nat, b as nat);
            }
            a = a - b;
            let t = a.trailing_zeros();
            proof {
                lemma_gcd_drop_twos(a, t, b as nat);
            }
            a = a >> t;
        } else {
            proof {
                lemma_gcd_comm(a as nat, b as nat);
                lemma_gcd_sub(b as nat, a as nat);
                lemma_gcd_comm(a as nat, (b - a) as nat);
            }
            b = b - a;
            let t = b.trailing_zeros();
            proof {
                lemma_gcd_drop_twos(b, t, a as nat);
                lemma_gcd_comm((b >> t) as nat, a as nat);
                lemma_gcd_comm(b as nat, a as nat);
            }
            b = b >> t;
        }
    }
    proof {
        lemma_gcd_zero(a as nat);
        vstd::arithmetic::div_mod::lemma_mod_self_0(a as int);
        lemma_gcd_comm(a as nat, a as nat);
        lemma_shl_exact(a, shift, g);
    }
    a << shift
}

/// One step of the extended Euclidean algorithm on a pair of coefficients of alternating sign.
///
/// With `|x| lr + |lx| r == c`, the next coefficient `lx - q x` keeps the alternation, and
/// while the next remainder is non-zero it is at most `c / 2`.
proof fn lemma_coeff_step(lr: int, r: int, q: int, nr: int, lx: int, x: int, c: int)
    requires
        r > 0,
        q >= 1,
        nr == lr - q * r,
        0 <= nr < r,
        abs(x) * lr + abs(lx) * r == c,
        x * lx <= 0,
    ensures
        abs(lx - q * x) * r + abs(x) * nr == c,
        (lx - q * x) * x <= 0,
        abs(lx - q * x) == abs(lx) + q * abs(x),
        nr > 0 ==> 2 * abs(lx - q * x) <= c,
{
    let ax = abs(x) as int;
    let alx = abs(lx) as int;
    let nx = lx - q * x;
    if x >= 0 && lx <= 0 {
        assert(q * x >= 0) by (nonlinear_arith)
            requires
                q >= 1,
                x >= 0,
        ;
        assert(nx * x <= 0) by (nonlinear_arith)
            requires
                nx <= 0,
                x >= 0,
        ;
    } else {
        assert(x <= 0 && lx >= 0) by (nonlinear_arith)
            requires
                x * lx <= 0,
                !(x >= 0 && lx <= 0),
        ;
        assert(q * x <= 0) by (nonlinear_arith)
            requires
                q >= 1,
                x <= 0,
        ;
        assert(nx * x <= 0) by (nonlinear_arith)
            requires
                nx >= 0,
                x <= 0,
        ;
    }
    assert(abs(nx) == alx + q * ax) by (nonlinear_arith)
        requires
            ax == abs(x),
            alx == abs(lx),
            nx == lx - q * x,
            (x >= 0 && lx <= 0) || (x <= 0 && lx >= 0),
            q >= 1,
    ;
    let anx = abs(nx) as int;
    assert(anx * r + ax * nr == c) by (nonlinear_arith)
        requires
            anx == alx + q * ax,
            nr == lr - q * r,
            ax * lr + alx * r == c,
    ;
    if nr > 0 {
        assert(2 * anx <= c) by (nonlinear_arith)
            requires
                anx * r + ax * nr == c,
                ax >= 0,
                nr > 0,
                r >= 2,
                anx >= 0,
        ;
    }
}

/// A step keeps a Bézout identity: combining two of them by the quotient.
proof fn lemma_bezout_step(a: int, b: int, q: int, lx: int, x: int, ly: int, y: int, lr: int, r: int)
    requires
        lx * a + ly * b == lr,
        x * a + y * b == r,
    ensures
        (lx - q * x) * a + (ly - q * y) * b == lr - q * r,
{
    assert((lx - q * x) * a == lx * a - q * (x * a)) by (nonlinear_arith);
    assert((ly - q * y) * b == ly * b - q * (y * b)) by (nonlinear_arith);
    assert(q * (x * a) + q * (y * b) == q * (x * a + y * b)) by (nonlinear_arith);
}

/// Extended greatest common divisor of two words, by the Euclidean algorithm.
///
/// Returns `(g, s, t)` with `g == gcd(a, b)` and `s a + t b == g`.
/// If `bonly` is set (it asks `a >= b`), only `t` is computed and `s` is left at 1, which is
/// what a modular inverse needs: `t b == g` modulo `a`.
pub fn xgcd_word_by_word(a: Word, b: Word, bonly: bool) -> (res: (Word, SignedWord, SignedWord))
    requires
        bonly ==> a >= b,
    ensures
        res.0 == spec_gcd(a as nat, b as nat),
        !bonly || b == 1 ==> res.1 * a + res.2 * b == res.0,
        bonly && b != 1 ==> res.1 == 1,
        a > 0 ==> (res.2 * b - res.0) % (a as int) == 0,
        a > 0 && b > 0 ==> abs(res.1 as int) <= b && abs(res.2 as int) <= a,
    decreases (if b > a {
        1int
    } else {
        0int
    }),
{
    if b > a {
        let (r, s, t) = xgcd_word_by_word(b, a, false);
        proof {
            lemma_gcd_comm(a as nat, b as nat);
            if a > 0 {
                assert(s * b - r == -(t * a));
                vstd::arithmetic::div_mod::lemma_mod_multiples_basic(-t, a as int);
                assert(-t * a == -(t * a)) by (nonlinear_arith);
            }
        }
        return (r, t, s);
    }
    if b == 1 {
        // this shortcut also avoids an overflow when a == Word::MAX and b == 1
        proof {
            vstd::arithmetic::div_mod::lemma_mod_self_0(1);
            lemma_gcd_zero(1);
            assert(0 * (a as int) == 0);
            assert(1 * (b as int) == 1);
            if a > 0 {
                vstd::arithmetic::div_mod::lemma_mod_self_0(a as int);
                vstd::arithmetic::div_mod::lemma_small_mod(0, a as nat);
            }
        }
        return (1, 0, 1);
    }
    let mut last_r: Word = a;
    let mut r: Word = b;
    let mut last_s: SignedWord = 1;
    let mut s: SignedWord = 0;
    let mut last_t: SignedWord = 0;
    let mut t: SignedWord = 1;
    let ghost mut gls: int = 1;
    let ghost mut gs: int = 0;
    while r > 0
        invariant_except_break
            r <= last_r,
            gs * a + t * b == r,
            abs(gs) * last_r + abs(gls) * r == b,
            gs * gls <= 0,
            abs(t as int) * last_r + abs(last_t as int) * r == a,
            t * last_t <= 0,
            abs(t as int) >= 1,
            !bonly ==> s == gs,
        invariant
            a >= b,
            b != 1,
            gls * a + last_t * b == last_r,
            spec_gcd(last_r as nat, r as nat) == spec_gcd(a as nat, b as nat),
            !bonly ==> last_s == gls,
            bonly ==> last_s == 1,
            b > 0 ==> abs(last_t as int) <= a && abs(gls) <= b && last_r > 0,
        ensures
            r == 0,
        decreases r,
    {
        let quo = last_r / r;
        proof {
            vstd::arithmetic::div_mod::lemma_fundamental_div_mod(last_r as int, r as int);
            vstd::arithmetic::div_mod::lemma_mod_bound(last_r as int, r as int);
            vstd::arithmetic::div_mod::lemma_div_is_ordered(r as int, last_r as int, r as int);
            vstd::arithmetic::div_mod::lemma_div_by_self(r as int);
            assert(quo * r == r * quo) by (nonlinear_arith);
            assert(abs(t as int) <= a && abs(gs) <= b) by (nonlinear_arith)
                requires
                    abs(t as int) * last_r + abs(last_t as int) * r == a,
                    abs(gs) * last_r + abs(gls) * r == b,
                    last_r >= 1,
            ;
        }
        let new_r = last_r - quo * r;
        if new_r == 0 {
            // the last step only moves the current pair down
            proof {
                assert(spec_gcd(r as nat, 0) == r);
            }
            last_r = r;
            r = 0;
            if !bonly {
                last_s = s;
            }
            last_t = t;
            proof {
                gls = gs;
            }
            break;
        }
        proof {
            lemma_coeff_step(last_r as int, r as int, quo as int, new_r as int, last_t as int, t as int, a as int);
            lemma_coeff_step(last_r as int, r as int, quo as int, new_r as int, gls, gs, b as int);
            lemma_bezout_step(a as int, b as int, quo as int, gls, gs, last_t as int, t as int, last_r as int, r as int);
            assert(quo * abs(t as int) >= quo) by (nonlinear_arith)
                requires
                    abs(t as int) >= 1,
                    quo >= 1,
            ;
            assert(abs(quo * (t as int)) == quo * abs(t as int)) by (nonlinear_arith)
                requires
                    quo >= 1,
            ;
            assert(abs(quo * gs) == quo * abs(gs)) by (nonlinear_arith)
                requires
                    quo >= 1,
            ;
        }
        last_r = r;
        r = new_r;
        if !bonly {
            let new_s = last_s - quo as SignedWord * s;
            last_s = s;
            s = new_s;
        }
        let new_t = last_t - quo as SignedWord * t;
        last_t = t;
        t = new_t;
        proof {
            let ngs = gls - quo * gs;
            gls = gs;
            gs = ngs;
        }
    }
    proof {
        if a > 0 {
            assert(last_t * b - last_r == -(gls * a));
            vstd::arithmetic::div_mod::lemma_mod_multiples_basic(-gls, a as int);
            assert(-gls * a == -(gls * a)) by (nonlinear_arith);
        }
    }
    (last_r, last_s, last_t)
}

/// Value of the words `s[lo..hi]`.
pub open spec fn window(s: Seq<Word>, lo: int, hi: int) -> nat {
    to_nat(s.subrange(lo, hi))
}

/// Mutable view of `words[lo..hi]`; what is written through it lands in that range.
pub fn window_mut(words: &mut [Word], lo: usize, hi: usize) -> (w: &mut [Word])
    requires
        lo <= hi <= old(words)@.len(),
    ensures
        w@ == old(words)@.subrange(lo as int, hi as int),
        final(words)@ == old(words)@.subrange(0, lo as int) + final(w)@ + old(words)@.subrange(
            hi as int,
            old(words)@.len() as int,
        ),
{
    let (_, tail) = words.split_at_mut(lo);
    let (mid, _) = tail.split_at_mut(hi - lo);
    mid
}

/// Divides the non-zero window `words[lo..hi]` by its largest power of two, in place.
///
/// Returns the new window `(lo', hi')`, without leading zero words, and the number of
/// trailing zeros `z` of the old value: the new value is the old one over `2^z`, which is odd.
pub fn remove_factors_of_two(words: &mut [Word], lo: usize, hi: usize) -> (res: (usize, usize, usize))
    requires
        lo < hi <= old(words)@.len(),
        old(words)@.len() <= MAX_LEN,
        window(old(words)@, lo as int, hi as int) > 0,
    ensures
        final(words)@.len() == old(words)@.len(),
        lo <= res.0 < res.1 <= hi,
        is_trailing_zeros(window(old(words)@, lo as int, hi as int), res.2 as nat),
        window(final(words)@, res.0 as int, res.1 as int) == window(
            old(words)@,
            lo as int,
            hi as int,
        ) / pow2(res.2 as nat),
        final(words)@[res.1 - 1] != 0,
{
    let ghost w0 = words@;
    let ghost x = window(w0, lo as int, hi as int);
    let zeros = crate::bits::trailing_zeros_large(vstd::slice::slice_subrange(words, lo, hi));
    let k = zeros / 64;
    let ghost seg = w0.subrange(lo as int, hi as int);
    proof {
        crate::shift_ops::lemma_pow2_split(zeros as nat);
        lemma_pow_base_pos(k as nat);
        lemma_pow2_pos(zeros as nat);
        let pk = pow_base(k as nat) as int;
        let pr = pow2((zeros % 64) as nat) as int;
        // x >= 2^zeros, and x < B^(hi - lo), so k < hi - lo
        vstd::arithmetic::div_mod::lemma_fundamental_div_mod(x as int, pow2(zeros as nat) as int);
        assert(x >= pow2(zeros as nat)) by (nonlinear_arith)
            requires
                x == pow2(zeros as nat) * (x / pow2(zeros as nat)) + x % pow2(zeros as nat),
                x % pow2(zeros as nat) == 0,
                (x / pow2(zeros as nat)) % 2 == 1,
                pow2(zeros as nat) > 0,
        ;
        lemma_to_nat_bound(seg);
        if k >= hi - lo {
            crate::value::lemma_pow_base_mono((hi - lo) as nat, k as nat);
            assert(pk * pr >= pk) by (nonlinear_arith)
                requires
                    pr > 0,
                    pk > 0,
            ;
        }
        // the low k words are zero: x is a multiple of B^k
        lemma_to_nat_split(seg, k as int);
        let lowv = to_nat(seg.take(k as int)) as int;
        let highv = to_nat(seg.skip(k as int)) as int;
        lemma_to_nat_bound(seg.take(k as int));
        let q = x / pow2(zeros as nat);
        assert(x == pk * (pr * q)) by (nonlinear_arith)
            requires
                x == pow2(zeros as nat) * q,
                pow2(zeros as nat) == pk * pr,
        ;
        assert(lowv == pk * (pr * q - highv)) by (nonlinear_arith)
            requires
                x == lowv + pk * highv,
                x == pk * (pr * q),
        ;
        if pr * q - highv != 0 {
            assert(false) by (nonlinear_arith)
                requires
                    lowv == pk * (pr * q - highv),
                    0 <= lowv < pk,
                    pr * q - highv != 0,
            ;
        }
        assert(highv == pr * q);
        assert(w0.subrange((lo + k) as int, hi as int) =~= seg.skip(k as int));
    }
    let nlo = lo + k;
    let shift = (zeros % 64) as u32;
    let win = window_mut(words, nlo, hi);
    crate::shift::shr_in_place(win, shift);
    let ghost after = win@;
    let ghost w1 = words@;
    proof {
        assert(w1.subrange(nlo as int, hi as int) =~= after);
        let q = x / pow2(zeros as nat);
        let pr = pow2((zeros % 64) as nat) as int;
        assert(window(w1, nlo as int, hi as int) == q) by {
            vstd::arithmetic::div_mod::lemma_div_multiples_vanish(q as int, pr);
            assert(pr * q == q * pr) by (nonlinear_arith);
        }
        assert(q > 0) by {
            assert(q % 2 == 1);
        }
    }
    let mut nhi = hi;
    while words[nhi - 1] == 0
        invariant
            nlo < nhi <= hi,
            hi <= words@.len(),
            words@ == w1,
            window(w1, nlo as int, nhi as int) == x / pow2(zeros as nat),
            x / pow2(zeros as nat) > 0,
        decreases nhi,
    {
        proof {
            let sub = w1.subrange(nlo as int, nhi as int);
            lemma_to_nat_drop_last_zero(sub);
            assert(sub.drop_last() =~= w1.subrange(nlo as int, nhi - 1));
            if nhi - 1 == nlo {
                assert(w1.subrange(nlo as int, nlo as int).len() == 0);
            }
        }
        nhi = nhi - 1;
    }
    (nlo, nhi, zeros)
}

/// The result of comparing two numbers.
pub enum Order {
    Less,
    Equal,
    Greater,
}

/// Compares two normalized word sequences as numbers, first by length.
pub fn compare_normalized(lhs: &[Word], rhs: &[Word]) -> (r: Order)
    requires
        is_normalized(lhs@),
        is_normalized(rhs@),
    ensures
        (r is Less) == (to_nat(lhs@) < to_nat(rhs@)),
        (r is Equal) == (to_nat(lhs@) == to_nat(rhs@)),
        (r is Greater) == (to_nat(lhs@) > to_nat(rhs@)),
        r is Greater ==> lhs@.len() >= rhs@.len(),
        r is Less ==> lhs@.len() <= rhs@.len(),
{
    if lhs.len() < rhs.len() {
        proof {
            lemma_longer_is_larger(lhs@, rhs@);
        }
        Order::Less
    } else if lhs.len() > rhs.len() {
        proof {
            lemma_longer_is_larger(rhs@, lhs@);
        }
        Order::Greater
    } else {
        match crate::compare::cmp_same_len(lhs, rhs) {
            core::cmp::Ordering::Less => Order::Less,
            core::cmp::Ordering::Equal => Order::Equal,
            core::cmp::Ordering::Greater => Order::Greater,
        }
    }
}

/// A normalized sequence is larger than any shorter one.
proof fn lemma_longer_is_larger(a: Seq<Word>, b: Seq<Word>)
    requires
        a.len() < b.len(),
        is_normalized(b),
    ensures
        to_nat(a) < to_nat(b),
{
    lemma_to_nat_bound(a);
    lemma_to_nat_normalized_lower(b);
    lemma_pow_base_mono(a.len(), (b.len() - 1) as nat);
}

/// `x == 2^k * (x / 2^k)` when `x` has `k` trailing zeros.
pub proof fn lemma_odd_part(x: nat, k: nat)
    requires
        is_trailing_zeros(x, k),
    ensures
        x == pow2(k) * (x / pow2(k)),
        (x / pow2(k)) % 2 == 1,
{
    lemma_pow2_pos(k);
    vstd::arithmetic::div_mod::lemma_fundamental_div_mod(x as int, pow2(k) as int);
}

/// Greatest common divisor of two non-zero numbers given as words, by the binary algorithm.
///
/// The result is stored in the low words of `lhs`, and its length in words is returned.
/// `rhs` serves as scratch space.
pub fn gcd_in_place(lhs: &mut [Word], rhs: &mut [Word]) -> (len: usize)
    requires
        to_nat(old(lhs)@) > 0,
        to_nat(old(rhs)@) > 0,
        old(lhs)@.len() <= MAX_LEN,
        old(rhs)@.len() <= MAX_LEN,
    ensures
        final(lhs)@.len() == old(lhs)@.len(),
        final(rhs)@.len() == old(rhs)@.len(),
        1 <= len <= old(lhs)@.len(),
        final(lhs)@[len - 1] != 0,
        to_nat(final(lhs)@.take(len as int)) == spec_gcd(to_nat(old(lhs)@), to_nat(old(rhs)@)),
{
    let ghost x0 = to_nat(lhs@);
    let ghost y0 = to_nat(rhs@);
    let ghost g0 = spec_gcd(x0, y0);
    let ln = lhs.len();
    let rn = rhs.len();
    proof {
        assert(lhs@.subrange(0, ln as int) =~= lhs@);
        assert(rhs@.subrange(0, rn as int) =~= rhs@);
        lemma_gcd_divides(x0, y0);
        lemma_divides_le(g0, x0);
    }
    // find common factors of 2
    let (mut l0, mut l1, lhs_zeros) = remove_factors_of_two(lhs, 0, ln);
    let (mut r0, mut r1, rhs_zeros) = remove_factors_of_two(rhs, 0, rn);
    let init_zeros = crate::math::min_usize(lhs_zeros, rhs_zeros);
    let ghost go = spec_gcd(window(lhs@, l0 as int, l1 as int), window(rhs@, r0 as int, r1 as int));
    proof {
        lemma_odd_part(x0, lhs_zeros as nat);
        lemma_odd_part(y0, rhs_zeros as nat);
        lemma_gcd_odd_parts(
            lhs_zeros as nat,
            window(lhs@, l0 as int, l1 as int),
            rhs_zeros as nat,
            window(rhs@, r0 as int, r1 as int),
        );
    }
    // Binary algorithm on the windows lhs[l0..l1] and rhs[r0..r1], both odd and normalized.
    loop
        invariant_except_break
            window(lhs@, l0 as int, l1 as int) % 2 == 1,
            window(rhs@, r0 as int, r1 as int) % 2 == 1,
            spec_gcd(window(lhs@, l0 as int, l1 as int), window(rhs@, r0 as int, r1 as int))
                == go,
        invariant
            lhs@.len() == ln,
            rhs@.len() == rn,
            ln <= MAX_LEN,
            rn <= MAX_LEN,
            l0 < l1 <= ln,
            r0 < r1 <= rn,
            lhs@[l1 - 1] != 0,
            rhs@[r1 - 1] != 0,
            g0 == pow2(init_zeros as nat) * go,
            g0 <= x0,
            x0 == to_nat(old(lhs)@),
            x0 > 0,
            g0 == spec_gcd(x0, y0),
        ensures
            window(rhs@, r0 as int, r1 as int) == go,
        decreases window(lhs@, l0 as int, l1 as int) + window(rhs@, r0 as int, r1 as int),
    {
        let ghost lv = window(lhs@, l0 as int, l1 as int);
        let ghost rv = window(rhs@, r0 as int, r1 as int);
        proof {
            assert(lhs@.subrange(l0 as int, l1 as int).last() == lhs@[l1 - 1]);
            assert(rhs@.subrange(r0 as int, r1 as int).last() == rhs@[r1 - 1]);
        }
        let order = compare_normalized(
            vstd::slice::slice_subrange(lhs, l0, l1),
            vstd::slice::slice_subrange(rhs, r0, r1),
        );
        match order {
            Order::Equal => {
                proof {
                    assert(spec_gcd(lv, lv) == lv) by {
                        vstd::arithmetic::div_mod::lemma_mod_self_0(lv as int);
                        assert(spec_gcd(lv, 0) == lv);
                        assert(spec_gcd(lv, lv) == spec_gcd(lv, lv % lv));
                    }
                }
                break;
            },
            Order::Greater => {
                // lhs -= rhs
                let ghost before = lhs@;
                let win = window_mut(lhs, l0, l1);
                crate::add::sub_in_place(win, vstd::slice::slice_subrange(rhs, r0, r1));
                proof {
                    assert(lhs@.subrange(l0 as int, l1 as int) =~= win@);
                    lemma_to_nat_bound(win@);
                    lemma_gcd_sub(lv, rv);
                    assert(lhs@.len() == ln);
                }
                // remove the factors of 2
                let (a, b, z) = remove_factors_of_two(lhs, l0, l1);
                proof {
                    lemma_odd_part((lv - rv) as nat, z as nat);
                    lemma_gcd_pow2(z as nat, window(lhs@, a as int, b as int), rv);
                }
                l0 = a;
                l1 = b;
            },
            Order::Less => {
                // rhs -= lhs
                let win = window_mut(rhs, r0, r1);
                crate::add::sub_in_place(win, vstd::slice::slice_subrange(lhs, l0, l1));
                proof {
                    assert(rhs@.subrange(r0 as int, r1 as int) =~= win@);
                    lemma_to_nat_bound(win@);
                    lemma_gcd_comm(lv, rv);
                    lemma_gcd_sub(rv, lv);
                    assert(rhs@.len() == rn);
                }
                let (a, b, z) = remove_factors_of_two(rhs, r0, r1);
                proof {
                    lemma_odd_part((rv - lv) as nat, z as nat);
                    lemma_gcd_pow2(z as nat, window(rhs@, a as int, b as int), lv);
                    lemma_gcd_comm(window(rhs@, a as int, b as int), lv);
                }
                r0 = a;
                r1 = b;
            },
        }
        // delegate to the single word version when both numbers fit in a single word
        if l1 - l0 == 1 && r1 - r0 == 1 {
            let g = gcd_word_by_word(lhs[l0], rhs[r0]);
            proof {
                single_word_window(lhs@, l0 as int);
                single_word_window(rhs@, r0 as int);
            }
            rhs[r0] = g;
            proof {
                single_word_window(rhs@, r0 as int);
                lemma_pow2_pos(init_zeros as nat);
                lemma_gcd_divides(x0, y0);
                assert(go > 0) by (nonlinear_arith)
                    requires
                        g0 == pow2(init_zeros as nat) * go,
                        g0 > 0,
                ;
            }
            break;
        }
    }
    // move the result from rhs to the low words of lhs, shifted back by the common factors of 2
    let ghost o = go;
    let shift_words = init_zeros / 64;
    let m = r1 - r0;
    proof {
        let res = rhs@.subrange(r0 as int, r1 as int);
        lemma_to_nat_normalized_lower(res);
        lemma_to_nat_bound(old(lhs)@);
        result_fits(x0, g0, o, m as nat, init_zeros as nat, ln as nat);
    }
    let mut final_size = m + shift_words;
    let mut i: usize = 0;
    while i < shift_words
        invariant
            i <= shift_words < final_size <= ln,
            lhs@.len() == ln,
            forall|j: int| 0 <= j < i ==> lhs@[j] == 0,
        decreases shift_words - i,
    {
        lhs[i] = 0;
        i += 1;
    }
    let ghost zs = lhs@.take(shift_words as int);
    let win = window_mut(lhs, shift_words, final_size);
    crate::add::copy_words(win, vstd::slice::slice_subrange(rhs, r0, r1));
    let carry = crate::shift::shl_in_place(win, low_bits(init_zeros));
    let ghost shifted = win@;
    proof {
        assert(lhs@.take(shift_words as int) =~= zs);
        assert(lhs@.subrange(shift_words as int, final_size as int) =~= shifted);
    }
    proof {
        result_value(zs, shifted, carry, o, init_zeros as nat, x0, g0, ln as nat);
    }
    if carry > 0 {
        lhs[final_size] = carry;
        proof {
            assert(lhs@.take(final_size + 1) =~= zs + shifted.push(carry));
        }
        final_size += 1;
    } else {
        proof {
            assert(lhs@.take(final_size as int) =~= zs + shifted);
            assert(lhs@[final_size - 1] == (zs + shifted).last());
        }
    }
    final_size
}

/// A one-word window holds that word.
proof fn single_word_window(s: Seq<Word>, i: int)
    requires
        0 <= i < s.len(),
    ensures
        window(s, i, i + 1) == s[i] as nat,
{
    assert(s.subrange(i, i + 1) =~= seq![s[i]]);
    lemma_to_nat_single(s[i]);
}

/// The low six bits of a shift.
pub fn low_bits(z: usize) -> (r: u32)
    ensures
        r == z % 64,
        r < 64,
{
    (z % 64) as u32
}

/// The gcd `g = 2^z o`, with `o` of `m` normalized words, fits in `lhs` when shifted back.
pub proof fn result_fits(x0: nat, g0: nat, o: nat, m: nat, z: nat, ln: nat)
    requires
        g0 == pow2(z) * o,
        g0 <= x0,
        x0 < pow_base(ln),
        m >= 1,
        o >= pow_base((m - 1) as nat),
    ensures
        z / 64 + m <= ln,
{
    crate::shift_ops::lemma_pow2_split(z);
    let pw = pow_base(z / 64) as int;
    let pr = pow2(z % 64) as int;
    lemma_pow_base_pos(z / 64);
    lemma_pow_base_pos((m - 1) as nat);
    crate::value::lemma_pow_base_add(z / 64, (m - 1) as nat);
    assert(g0 >= pw * pow_base((m - 1) as nat)) by (nonlinear_arith)
        requires
            g0 == (pw * pr) * o,
            pr >= 1,
            pw > 0,
            o >= pow_base((m - 1) as nat),
    ;
    if z / 64 + m > ln {
        lemma_pow_base_mono(ln, z / 64 + (m - 1) as nat);
    }
}

/// The words `zs ++ shifted ++ [carry]` hold `2^z o` and fit in `lhs`.
pub proof fn result_value(
    zs: Seq<Word>,
    shifted: Seq<Word>,
    carry: Word,
    o: nat,
    z: nat,
    x0: nat,
    g0: nat,
    ln: nat,
)
    requires
        zs.len() == z / 64,
        forall|j: int| 0 <= j < zs.len() ==> zs[j] == 0,
        to_nat(shifted) + carry * pow_base(shifted.len()) == o * pow2(z % 64),
        g0 == pow2(z) * o,
        g0 <= x0,
        x0 < pow_base(ln),
        z / 64 + shifted.len() <= ln,
        shifted.len() >= 1,
        o >= pow_base((shifted.len() - 1) as nat),
    ensures
        to_nat(zs + shifted.push(carry)) == g0,
        carry == 0 ==> to_nat(zs + shifted) == g0,
        carry == 0 ==> (zs + shifted).last() != 0,
        carry > 0 ==> z / 64 + shifted.len() < ln,
{
    let m = shifted.len();
    let k = z / 64;
    crate::shift_ops::lemma_pow2_split(z);
    crate::value::lemma_to_nat_zero_iff(zs);
    crate::value::lemma_to_nat_append(zs, shifted.push(carry));
    crate::value::lemma_to_nat_append(zs, shifted);
    crate::value::lemma_to_nat_push(shifted, carry);
    let pw = pow_base(k) as int;
    let pr = pow2(z % 64) as int;
    assert(g0 == pw * (o * pr)) by (nonlinear_arith)
        requires
            g0 == (pw * pr) * o,
    ;
    if carry > 0 {
        lemma_pow_base_pos(k);
        lemma_pow_base_pos(m);
        crate::value::lemma_pow_base_add(k, m);
        assert(g0 >= pw * pow_base(m)) by (nonlinear_arith)
            requires
                g0 == pw * (o * pr),
                o * pr >= carry * pow_base(m),
                carry >= 1,
                pw > 0,
        ;
        if k + m >= ln {
            lemma_pow_base_mono(ln, k + m);
        }
    } else {
        // the value is at least B^(k + m - 1), so the top word is not zero
        lemma_pow_base_pos(k);
        lemma_pow2_pos(z % 64);
        crate::value::lemma_pow_base_add(k, (m - 1) as nat);
        assert(g0 >= pw * pow_base((m - 1) as nat)) by (nonlinear_arith)
            requires
                g0 == pw * (o * pr),
                o >= pow_base((m - 1) as nat),
                pr >= 1,
                pw > 0,
        ;
        let all = zs + shifted;
        if all.last() == 0 {
            crate::value::lemma_to_nat_drop_last_zero(all);
            lemma_to_nat_bound(all.drop_last());
        }
    }
}

/// `x << s` is exact when `2^s x` is a value that fits in a word.
proof fn lemma_shl_exact(x: Word, s: u32, g: nat)
    requires
        g == pow2(s as nat) * x,
        g <= u64::MAX,
        s < 64,
    ensures
        (x << s) == g,
{
    vstd::arithmetic::mul::lemma_mul_is_commutative(x as int, pow2(s as nat) as int);
    vstd::bits::lemma_u64_shl_is_mul(x, s as u64);
    assert(x << s == x << (s as u64));
}

} // verus!
