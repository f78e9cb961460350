//! Division of word sequences.

use crate::fast_divide::FastDivisorNormalized;
use crate::primitive::{double_word, extend_word, word_base, Word, WORD_BITS};
use crate::shift::shl_in_place;
use crate::add::{add_same_len_in_place, sub_same_len_in_place};
use crate::mul::sub_mul_word_same_len_in_place;
use crate::value::{idx, lemma_pow_base_step, lemma_to_nat_skip_next, pow_base, to_nat};
use vstd::arithmetic::power2::pow2;
use vstd::prelude::*;
use vstd::std_specs::bits::u64_leading_zeros;

verus! {

proof fn lemma_div_word_step(
    w: int,
    rem: int,
    q: int,
    r: int,
    d: int,
    tail_new: int,
    tail_old: int,
    c0: int,
    pk: int,
)
    requires
        q * d + r == w + rem * word_base(),
        tail_new * d + rem == tail_old + c0 * pk,
    ensures
        (q + word_base() * tail_new) * d + r == (w + word_base() * tail_old) + c0 * (word_base()
            * pk),
{
    assert((q + word_base() * tail_new) * d == q * d + word_base() * (tail_new * d)) by (
    nonlinear_arith);
    assert(word_base() * (tail_new * d) == word_base() * (tail_old + c0 * pk - rem)) by (
    nonlinear_arith)
        requires
            tail_new * d + rem == tail_old + c0 * pk,
    ;
    assert(word_base() * (tail_old + c0 * pk - rem) == word_base() * tail_old + c0 * (word_base()
        * pk) - rem * word_base()) by (nonlinear_arith);
}

/// words = words / rhs
///
/// rhs must be non-zero
///
/// Returns words % rhs.
pub fn div_by_word_in_place(words: &mut [Word], rhs: Word) -> (r: Word)
    requires
        rhs != 0,
    ensures
        final(words)@.len() == old(words)@.len(),
        to_nat(final(words)@) * rhs + r == to_nat(old(words)@),
        r < rhs,
{
    let ghost w0 = words@;
    if words.len() == 0 {
        proof {
            assert(to_nat(words@) == 0);
            assert(0 * rhs == 0);
        }
        return 0;
    }
    let shift = rhs.leading_zeros();
    proof {
        crate::math::lemma_leading_zeros_normalizes(rhs);
        vstd::bits::lemma_u64_shl_is_mul(rhs, shift as u64);
    }
    let mut rem = shl_in_place(words, shift);
    let ghost s0 = words@;
    let ghost c0 = rem;
    let d = rhs << shift;
    let fast_div_rhs_top = FastDivisorNormalized::new(d);
    let n = words.len();
    let mut i = n;
    proof {
        assert(words@.skip(idx(n)) =~= Seq::<Word>::empty());
        assert(s0.skip(idx(n)) =~= Seq::<Word>::empty());
        assert(to_nat(words@.skip(idx(n))) == 0);
        assert(to_nat(s0.skip(idx(n))) == 0);
        assert(pow_base(0) == 1);
        assert((n - n) as nat == 0);
        assert(0 * d == 0);
        vstd::arithmetic::power2::lemma_pow2_pos(shift as nat);
        vstd::arithmetic::mul::lemma_mul_increases(rhs as int, pow2(shift as nat) as int);
        vstd::arithmetic::mul::lemma_mul_is_commutative(rhs as int, pow2(shift as nat) as int);
    }
    while i > 0
        invariant
            i <= n,
            n == words@.len(),
            n == s0.len(),
            d == fast_div_rhs_top.spec_divisor(),
            fast_div_rhs_top.wf(),
            forall|j: int| 0 <= j < idx(i) ==> words@[j] == s0[j],
            rem < d,
            to_nat(words@.skip(idx(i))) * d + rem == to_nat(s0.skip(idx(i))) + c0 * pow_base(
                (n - i) as nat,
            ),
        decreases i,
    {
        i -= 1;
        let w = words[i];
        proof {
            assert(w + rem * word_base() < d * word_base()) by (nonlinear_arith)
                requires
                    w < word_base(),
                    rem < d,
            ;
        }
        let a = double_word(w, rem);
        let (q, r) = fast_div_rhs_top.div_rem(a);
        proof {
            vstd::arithmetic::div_mod::lemma_fundamental_div_mod(a as int, d as int);
            let before = words@;
            let after = before.update(idx(i), q);
            assert(after.skip(idx(i) + 1) =~= before.skip(idx(i) + 1));
            lemma_to_nat_skip_next(after, idx(i));
            lemma_to_nat_skip_next(s0, idx(i));
            assert(s0[idx(i)] == w);
            assert((n - i) as nat == (n - (i + 1)) as nat + 1);
            lemma_pow_base_step((n - (i + 1)) as nat);
            lemma_div_word_step(
                w as int,
                rem as int,
                q as int,
                r as int,
                d as int,
                to_nat(before.skip(idx(i) + 1)) as int,
                to_nat(s0.skip(idx(i) + 1)) as int,
                c0 as int,
                pow_base((n - (i + 1)) as nat) as int,
            );
            assert(q * d + r == a) by (nonlinear_arith)
                requires
                    q == a as int / (d as int),
                    r == a as int % (d as int),
                    a == (d as int) * (a as int / (d as int)) + a as int % (d as int),
            ;
        }
        words[i] = q;
        rem = r;
    }
    proof {
        assert(words@.skip(0) =~= words@);
        assert(s0.skip(0) =~= s0);
        let p = pow2(shift as nat) as int;
        let qv = to_nat(words@) as int;
        let ov = to_nat(w0) as int;
        // qv * rhs * p + rem == ov * p
        assert(qv * d == (qv * rhs) * p) by (nonlinear_arith)
            requires
                d == rhs * p,
        ;
        let t = ov - qv * rhs;
        assert(rem == t * p) by (nonlinear_arith)
            requires
                (qv * rhs) * p + rem == ov * p,
                t == ov - qv * rhs,
        ;
        assert(t < rhs) by (nonlinear_arith)
            requires
                rem == t * p,
                rem < d,
                d == rhs * p,
                p > 0,
        ;
        assert(t >= 0) by (nonlinear_arith)
            requires
                rem == t * p,
                rem >= 0,
                p > 0,
        ;
        vstd::bits::lemma_u64_shr_is_div(rem, shift as u64);
        vstd::arithmetic::div_mod::lemma_div_multiples_vanish(t, p);
        assert(t * p == p * t) by (nonlinear_arith);
    }
    rem >> shift
}

/// words % rhs
pub fn rem_by_word(words: &[Word], rhs: Word) -> (r: Word)
    requires
        rhs != 0,
    ensures
        r == to_nat(words@) % (rhs as nat),
{
    if words.len() == 0 {
        proof {
            assert(to_nat(words@) == 0);
            vstd::arithmetic::div_mod::lemma_small_mod(0, rhs as nat);
        }
        return 0;
    }
    let shift = rhs.leading_zeros();
    proof {
        crate::math::lemma_leading_zeros_normalizes(rhs);
        vstd::bits::lemma_u64_shl_is_mul(rhs, shift as u64);
        vstd::arithmetic::power2::lemma_pow2_pos(shift as nat);
        vstd::arithmetic::mul::lemma_mul_increases(rhs as int, pow2(shift as nat) as int);
        vstd::arithmetic::mul::lemma_mul_is_commutative(rhs as int, pow2(shift as nat) as int);
    }
    let d = rhs << shift;
    let fast_div_rhs = FastDivisorNormalized::new(d);
    let n = words.len();
    let mut rem: Word = 0;
    let mut i = n;
    let ghost mut quot: int = 0;
    proof {
        assert(words@.skip(idx(n)) =~= Seq::<Word>::empty());
        assert(to_nat(words@.skip(idx(n))) == 0);
        assert(0 * d == 0);
    }
    while i > 0
        invariant
            i <= n,
            n == words@.len(),
            d == fast_div_rhs.spec_divisor(),
            fast_div_rhs.wf(),
            d > 0,
            rem < d,
            to_nat(words@.skip(idx(i))) == quot * d + rem,
        decreases i,
    {
        i -= 1;
        let w = words[i];
        proof {
            assert(w + rem * word_base() < d * word_base()) by (nonlinear_arith)
                requires
                    w < word_base(),
                    rem < d,
            ;
        }
        let a = double_word(w, rem);
        let (q, r) = fast_div_rhs.div_rem(a);
        proof {
            vstd::arithmetic::div_mod::lemma_fundamental_div_mod(a as int, d as int);
            lemma_to_nat_skip_next(words@, idx(i));
            let x = to_nat(words@.skip(idx(i) + 1)) as int;
            assert(w + word_base() * x == (q + word_base() * quot) * d + r) by (nonlinear_arith)
                requires
                    x == quot * d + rem,
                    a == (d as int) * q + r,
                    a == w + rem * word_base(),
            ;
            quot = q + word_base() * quot;
        }
        rem = r;
    }
    let ghost r1 = rem;
    proof {
        assert(words@.skip(0) =~= words@);
        vstd::arithmetic::power2::lemma_pow2_strictly_increases(shift as nat, 64);
        vstd::arithmetic::power2::lemma2_to64_rest();
        assert(rem * pow2(shift as nat) < d * word_base()) by (nonlinear_arith)
            requires
                rem < d,
                pow2(shift as nat) < word_base(),
        ;
        vstd::bits::lemma_u64_shl_is_mul(1, shift as u64);
        vstd::bits::lemma_u64_pow2_no_overflow(shift as nat);
    }
    let a = extend_word(rem) * extend_word(1u64 << shift);
    let (_, rem) = fast_div_rhs.div_rem(a);
    proof {
        let p = pow2(shift as nat) as int;
        let ov = to_nat(words@) as int;
        vstd::arithmetic::div_mod::lemma_fundamental_div_mod(r1 as int, rhs as int);
        let k = r1 as int / (rhs as int);
        let t = r1 as int % (rhs as int);
        assert(a == k * d + t * p) by (nonlinear_arith)
            requires
                a == r1 * p,
                r1 == (rhs as int) * k + t,
                d == rhs * p,
        ;
        assert(0 <= t * p < d) by (nonlinear_arith)
            requires
                0 <= t < rhs,
                d == rhs * p,
                p > 0,
        ;
        vstd::arithmetic::div_mod::lemma_fundamental_div_mod_converse(a as int, d as int, k, t * p);
        vstd::bits::lemma_u64_shr_is_div(rem, shift as u64);
        vstd::arithmetic::div_mod::lemma_div_multiples_vanish(t, p);
        assert(t * p == p * t) by (nonlinear_arith);
        // ov == quot * d + r1 == (quot * p + k) * rhs + t
        assert(ov == (quot * p + k) * rhs + t) by (nonlinear_arith)
            requires
                ov == quot * d + r1,
                r1 == (rhs as int) * k + t,
                d == rhs * p,
        ;
        vstd::arithmetic::div_mod::lemma_fundamental_div_mod_converse(ov, rhs as int, quot * p + k, t);
    }
    rem >> shift
}

} // verus!

verus! {

/// The quotient estimate from the top two words is never too small.
proof fn lemma_estimate_not_small(
    x: int,
    r: int,
    lower1: int,
    lhs01: int,
    rlow1: int,
    rhs0: int,
    p1: int,
    q: int,
    qs: int,
)
    requires
        x == lower1 + lhs01 * p1,
        0 <= lower1 < p1,
        r == rlow1 + rhs0 * p1,
        rlow1 >= 0,
        rhs0 > 0,
        q == lhs01 / rhs0,
        qs >= 0,
        qs * r <= x,
    ensures
        qs <= q,
{
    assert(qs * rhs0 * p1 <= qs * r) by (nonlinear_arith)
        requires
            r == rlow1 + rhs0 * p1,
            rlow1 >= 0,
            qs >= 0,
    ;
    assert(qs * rhs0 * p1 < (lhs01 + 1) * p1) by (nonlinear_arith)
        requires
            qs * rhs0 * p1 <= qs * r,
            qs * r <= x,
            x == lower1 + lhs01 * p1,
            lower1 < p1,
    ;
    assert(qs * rhs0 <= lhs01) by (nonlinear_arith)
        requires
            qs * rhs0 * p1 < (lhs01 + 1) * p1,
            p1 > 0,
    ;
    vstd::arithmetic::div_mod::lemma_fundamental_div_mod(lhs01, rhs0);
    assert(qs <= q) by (nonlinear_arith)
        requires
            qs * rhs0 <= lhs01,
            lhs01 == rhs0 * q + lhs01 % rhs0,
            lhs01 % rhs0 < rhs0,
            rhs0 > 0,
    ;
}

/// If the estimate is too large for the top three words, it is too large.
proof fn lemma_estimate_too_large(
    x: int,
    r: int,
    lower2: int,
    top3: int,
    rlow2: int,
    t2: int,
    p2: int,
    q: int,
)
    requires
        x == lower2 + top3 * p2,
        0 <= lower2 < p2,
        r == rlow2 + t2 * p2,
        rlow2 >= 0,
        q >= 0,
        q * t2 > top3,
    ensures
        q * r > x,
{
    assert(q * r >= q * t2 * p2) by (nonlinear_arith)
        requires
            r == rlow2 + t2 * p2,
            rlow2 >= 0,
            q >= 0,
    ;
    assert(q * t2 * p2 >= (top3 + 1) * p2) by (nonlinear_arith)
        requires
            q * t2 > top3,
            p2 > 0,
    ;
    assert((top3 + 1) * p2 == top3 * p2 + p2) by (nonlinear_arith);
}

/// Top two words of a sequence.
proof fn lemma_to_nat_top2(s: Seq<Word>)
    requires
        s.len() >= 2,
    ensures
        to_nat(s) == to_nat(s.take(s.len() - 2)) + (s[s.len() - 2] + s[s.len() - 1]
            * word_base()) * pow_base((s.len() - 2) as nat),
{
    let k = s.len() - 2;
    crate::value::lemma_to_nat_split(s, k);
    lemma_to_nat_skip_next(s, k);
    lemma_to_nat_skip_next(s, k + 1);
    assert(s.skip(k + 2) =~= Seq::<Word>::empty());
    assert(to_nat(s.skip(k + 2)) == 0);
    let p = pow_base(k as nat) as int;
    let a = s[k] as int;
    let b = s[k + 1] as int;
    assert(p * (a + word_base() * (b + word_base() * 0)) == (a + b * word_base()) * p) by (
    nonlinear_arith);
}

/// Top three words of a sequence.
proof fn lemma_to_nat_top3(s: Seq<Word>)
    requires
        s.len() >= 3,
    ensures
        to_nat(s) == to_nat(s.take(s.len() - 3)) + (s[s.len() - 3] + (s[s.len() - 2]
            + s[s.len() - 1] * word_base()) * word_base()) * pow_base((s.len() - 3) as nat),
{
    let k = s.len() - 3;
    crate::value::lemma_to_nat_split(s, k);
    lemma_to_nat_skip_next(s, k);
    lemma_to_nat_skip_next(s, k + 1);
    lemma_to_nat_skip_next(s, k + 2);
    assert(s.skip(k + 3) =~= Seq::<Word>::empty());
    assert(to_nat(s.skip(k + 3)) == 0);
    let p = pow_base(k as nat) as int;
    let a = s[k] as int;
    let b = s[k + 1] as int;
    let c = s[k + 2] as int;
    assert(p * (a + word_base() * (b + word_base() * (c + word_base() * 0))) == (a + (b + c
        * word_base()) * word_base()) * p) by (nonlinear_arith);
}

} // verus!

verus! {

proof fn lemma_div_step_value(l: int, qv: int, r: int, pk1: int, low: int, x: int, q: int, seg: int)
    requires
        l == qv * r * (word_base() * pk1) + low + pk1 * x,
        x == q * r + seg,
    ensures
        l == (q + word_base() * qv) * r * pk1 + low + pk1 * seg,
{
    assert(qv * r * (word_base() * pk1) + pk1 * (q * r) == (q + word_base() * qv) * r * pk1) by (
    nonlinear_arith);
    assert(pk1 * x == pk1 * (q * r) + pk1 * seg) by (nonlinear_arith)
        requires
            x == q * r + seg,
    ;
}

/// `B^n <= 2 * rhs` for a normalized divisor of `n` words.
proof fn lemma_normalized_divisor(rhs: Seq<Word>)
    requires
        rhs.len() >= 1,
        rhs.last() >= 0x8000_0000_0000_0000,
    ensures
        pow_base(rhs.len()) <= 2 * to_nat(rhs),
        to_nat(rhs) < pow_base(rhs.len()),
        to_nat(rhs) > 0,
{
    let n1 = (rhs.len() - 1) as nat;
    let p = pow_base(n1) as int;
    crate::value::lemma_pow_base_pos(n1);
    crate::value::lemma_to_nat_bound(rhs);
    crate::value::lemma_pow_base_step(n1);
    assert(rhs.len() == n1 + 1);
    assert((rhs.last() as int) * p >= 0x8000_0000_0000_0000 * p) by (nonlinear_arith)
        requires
            rhs.last() >= 0x8000_0000_0000_0000,
            p > 0,
    ;
    assert(to_nat(rhs) >= (rhs.last() as int) * p);
}

/// An estimate of the next quotient word from the top three words of the dividend and the top
/// two words of the divisor. It is never smaller than the true quotient word `qs`.
fn estimate_quotient_word(
    lhs0: Word,
    lhs1: Word,
    lhs2: Word,
    rhs0: Word,
    rhs1: Word,
    fast_div_rhs_top: FastDivisorNormalized,
    Ghost(x): Ghost<int>,
    Ghost(rv): Ghost<int>,
    Ghost(lower3): Ghost<int>,
    Ghost(rlow2): Ghost<int>,
    Ghost(p2): Ghost<int>,
    Ghost(qs): Ghost<int>,
) -> (q: Word)
    requires
        fast_div_rhs_top.wf(),
        fast_div_rhs_top.spec_divisor() == rhs0,
        rhs0 >= 0x8000_0000_0000_0000,
        x == lower3 + (lhs2 + (lhs1 + lhs0 * word_base()) * word_base()) * p2,
        0 <= lower3 < p2,
        rv == rlow2 + (rhs1 + rhs0 * word_base()) * p2,
        rlow2 >= 0,
        rv > 0,
        0 <= qs,
        qs * rv <= x,
        qs < word_base(),
    ensures
        qs <= q,
{
    let lhs01 = double_word(lhs1, lhs0);
    if lhs0 < rhs0 {
        proof {
            assert(lhs01 < rhs0 * word_base()) by (nonlinear_arith)
                requires
                    lhs01 == lhs1 + lhs0 * word_base(),
                    lhs0 < rhs0,
                    lhs1 < word_base(),
            ;
        }
        let (q0, r0) = fast_div_rhs_top.div_rem(lhs01);
        let mut q = q0;
        let mut r = r0;
        proof {
            vstd::arithmetic::div_mod::lemma_fundamental_div_mod(lhs01 as int, rhs0 as int);
            let p1 = word_base() * p2;
            assert(x == (lower3 + lhs2 * p2) + lhs01 * p1) by (nonlinear_arith)
                requires
                    x == lower3 + (lhs2 + (lhs1 + lhs0 * word_base()) * word_base()) * p2,
                    lhs01 == lhs1 + lhs0 * word_base(),
                    p1 == word_base() * p2,
            ;
            assert(rv == (rlow2 + rhs1 * p2) + rhs0 * p1) by (nonlinear_arith)
                requires
                    rv == rlow2 + (rhs1 + rhs0 * word_base()) * p2,
                    p1 == word_base() * p2,
            ;
            assert((lhs2 + 1) * p2 <= word_base() * p2) by (nonlinear_arith)
                requires
                    lhs2 + 1 <= word_base(),
                    p2 > 0,
            ;
            assert((lhs2 + 1) * p2 == lhs2 * p2 + p2) by (nonlinear_arith);
            assert(lower3 + lhs2 * p2 < p1);
            assert(0 <= lower3 + lhs2 * p2) by (nonlinear_arith)
                requires
                    0 <= lower3,
                    p2 > 0,
            ;
            assert(rlow2 + rhs1 * p2 >= 0) by (nonlinear_arith)
                requires
                    rlow2 >= 0,
                    p2 > 0,
            ;
            lemma_estimate_not_small(
                x,
                rv,
                lower3 + lhs2 * p2,
                lhs01 as int,
                rlow2 + rhs1 * p2,
                rhs0 as int,
                p1,
                q as int,
                qs,
            );
            assert(q * rhs0 + r == lhs01) by (nonlinear_arith)
                requires
                    lhs01 == rhs0 * q + r,
            ;
        }
        proof {
            crate::primitive::lemma_mul_word_bound(q, rhs1);
        }
        while extend_word(q) * extend_word(rhs1) > double_word(lhs2, r)
            invariant_except_break
                q * rhs0 + r == lhs01,
            invariant
                qs <= q,
                0 <= qs,
                (q as nat) * (rhs1 as nat) <= 0xffff_ffff_ffff_fffe_0000_0000_0000_0001,
                x == lower3 + (lhs2 + (lhs1 + lhs0 * word_base()) * word_base()) * p2,
                0 <= lower3 < p2,
                rv == rlow2 + (rhs1 + rhs0 * word_base()) * p2,
                rlow2 >= 0,
                rv > 0,
                qs * rv <= x,
                lhs01 == lhs1 + lhs0 * word_base(),
            ensures
                qs <= q,
            decreases q,
        {
            proof {
                assert(q * (rhs1 + rhs0 * word_base()) > lhs2 + (lhs1 + lhs0 * word_base())
                    * word_base()) by (nonlinear_arith)
                    requires
                        q * rhs1 > lhs2 + r * word_base(),
                        q * rhs0 + r == lhs01,
                        lhs01 == lhs1 + lhs0 * word_base(),
                ;
                lemma_estimate_too_large(
                    x,
                    rv,
                    lower3,
                    lhs2 + (lhs1 + lhs0 * word_base()) * word_base(),
                    rlow2,
                    rhs1 + rhs0 * word_base(),
                    p2,
                    q as int,
                );
                assert(qs < q) by (nonlinear_arith)
                    requires
                        q * rv > x,
                        qs * rv <= x,
                        rv > 0,
                ;
            }
            q -= 1;
            proof {
                crate::primitive::lemma_mul_word_bound(q, rhs1);
            }
            match r.checked_add(rhs0) {
                None => break,
                Some(r2) => {
                    proof {
                        assert((q + 1) * rhs0 == q * rhs0 + rhs0) by (nonlinear_arith);
                    }
                    r = r2;
                },
            }
        }
        q
    } else {
        // In this case MAX is accurate (r is already overflown).
        Word::MAX
    }
}

/// seg -= q * rhs, where `seg` holds the low words of `x` and `lhs0` its top word;
/// `q` is decreased until it is the true quotient word `qs = x / rhs`.
///
/// Returns the true quotient word; `seg` then holds `x - qs * rhs`.
fn sub_mul_word_correcting(
    seg: &mut [Word],
    rhs: &[Word],
    q: Word,
    lhs0: Word,
    Ghost(x): Ghost<int>,
    Ghost(qs): Ghost<int>,
) -> (q_final: Word)
    requires
        old(seg)@.len() == rhs@.len(),
        x == to_nat(old(seg)@) + lhs0 * pow_base(rhs@.len()),
        to_nat(rhs@) > 0,
        to_nat(rhs@) < pow_base(rhs@.len()),
        0 <= qs <= q,
        qs * to_nat(rhs@) <= x,
        x < (qs + 1) * to_nat(rhs@),
    ensures
        final(seg)@.len() == old(seg)@.len(),
        q_final == qs,
        to_nat(final(seg)@) == x - qs * to_nat(rhs@),
{
    let ghost rv = to_nat(rhs@) as int;
    let ghost pn = pow_base(rhs@.len()) as int;
    let ghost seg0 = seg@;
    let mut q = q;
    let mut borrow = sub_mul_word_same_len_in_place(seg, q, rhs);
    proof {
        assert(x - q * rv == to_nat(seg@) + (lhs0 - borrow) * pn) by (nonlinear_arith)
            requires
                x == to_nat(seg0) + lhs0 * pn,
                to_nat(seg@) == to_nat(seg0) - q * rv + borrow * pn,
        ;
    }
    while borrow > lhs0
        invariant
            seg@.len() == rhs@.len(),
            rv == to_nat(rhs@),
            pn == pow_base(rhs@.len()),
            rv > 0,
            rv < pn,
            0 <= qs,
            qs <= q,
            qs * rv <= x,
            x - q * rv == to_nat(seg@) + (lhs0 - borrow) * pn,
        decreases q,
    {
        proof {
            crate::value::lemma_to_nat_bound(seg@);
            assert((lhs0 - borrow) * pn <= -pn) by (nonlinear_arith)
                requires
                    lhs0 - borrow <= -1,
                    pn > 0,
            ;
            assert(qs < q) by (nonlinear_arith)
                requires
                    x - q * rv < 0,
                    qs * rv <= x,
                    rv > 0,
            ;
        }
        let ghost s1 = to_nat(seg@) as int;
        q -= 1;
        let carry = add_same_len_in_place(seg, rhs);
        let ghost b1 = borrow as int;
        proof {
            assert(x - q * rv == x - (q + 1) * rv + rv) by (nonlinear_arith);
            let c: int = if carry { 1 } else { 0 };
            assert(to_nat(seg@) + c * pn == s1 + rv);
        }
        if carry {
            borrow -= 1;
        }
        proof {
            let c: int = if carry { 1 } else { 0 };
            assert(borrow == b1 - c);
            assert(x - q * rv == to_nat(seg@) + (lhs0 - borrow) * pn) by (nonlinear_arith)
                requires
                    x - q * rv == x - (q + 1) * rv + rv,
                    x - (q + 1) * rv == s1 + (lhs0 - b1) * pn,
                    to_nat(seg@) + c * pn == s1 + rv,
                    borrow == b1 - c,
            ;
        }
    }
    proof {
        crate::value::lemma_to_nat_bound(seg@);
        assert(q * rv <= x) by (nonlinear_arith)
            requires
                x - q * rv == to_nat(seg@) + (lhs0 - borrow) * pn,
                lhs0 - borrow >= 0,
                pn >= 0,
        ;
        assert(q <= qs) by (nonlinear_arith)
            requires
                q * rv <= x,
                x < (qs + 1) * rv,
                rv > 0,
        ;
        assert(x - q * rv < rv) by (nonlinear_arith)
            requires
                q == qs,
                x < (qs + 1) * rv,
        ;
        crate::value::lemma_pow_base_pos(rhs@.len());
        assert(lhs0 - borrow == 0) by (nonlinear_arith)
            requires
                pn > 0,
                x - q * rv < rv,
                rv < pn,
                x - q * rv == to_nat(seg@) + (lhs0 - borrow) * pn,
                lhs0 - borrow >= 0,
                to_nat(seg@) >= 0,
        ;
    }
    q
}

/// Division in place using the simple algorithm
/// (The Art of Computer Programming, algorithm 4.3.1D).
///
/// Divide lhs by rhs, replacing the top words of lhs by the quotient and the
/// bottom words of lhs by the remainder.
///
/// lhs = [lhs % rhs, lhs / rhs]
///
/// Returns carry in the quotient. It is at most 1 because rhs is normalized.
pub fn div_rem_in_place_simple(
    lhs: &mut [Word],
    rhs: &[Word],
    fast_div_rhs_top: FastDivisorNormalized,
) -> (quotient_carry: bool)
    requires
        rhs@.len() >= 2,
        old(lhs)@.len() >= rhs@.len(),
        rhs@.last() >= 0x8000_0000_0000_0000,
        fast_div_rhs_top.wf(),
        fast_div_rhs_top.spec_divisor() == rhs@.last(),
    ensures
        final(lhs)@.len() == old(lhs)@.len(),
        to_nat(final(lhs)@.take(rhs@.len() as int)) < to_nat(rhs@),
        to_nat(old(lhs)@) == (to_nat(final(lhs)@.skip(rhs@.len() as int)) + (if quotient_carry {
            pow_base((old(lhs)@.len() - rhs@.len()) as nat)
        } else {
            0
        })) * to_nat(rhs@) + to_nat(final(lhs)@.take(rhs@.len() as int)),
{
    let ghost l0 = lhs@;
    let ghost rv = to_nat(rhs@) as int;
    let n = rhs.len();
    let rhs0 = rhs[n - 1];
    let rhs1 = rhs[n - 2];
    let len = lhs.len();
    let (quotient_carry, mut lhs_len) = div_rem_top_window(lhs, rhs);
    proof {
        lemma_normalized_divisor(rhs@);
        lemma_to_nat_top2(rhs@);
        crate::value::lemma_to_nat_bound(rhs@.take(n - 2));
        crate::value::lemma_pow_base_pos((n - 2) as nat);
    }
    while lhs_len > n
        invariant
            n == rhs@.len(),
            n >= 2,
            len == lhs@.len(),
            len == l0.len(),
            n <= lhs_len <= len,
            rhs0 == rhs@[n - 1],
            rhs1 == rhs@[n - 2],
            rhs0 >= 0x8000_0000_0000_0000,
            fast_div_rhs_top.wf(),
            fast_div_rhs_top.spec_divisor() == rhs0,
            rv == to_nat(rhs@),
            rv > 0,
            rv < pow_base(n as nat),
            rv == to_nat(rhs@.take(n - 2)) + (rhs1 + rhs0 * word_base()) * pow_base(
                (n - 2) as nat,
            ),
            pow_base((n - 2) as nat) > 0,
            to_nat(lhs@.subrange(lhs_len - n, lhs_len as int)) < rv,
            to_nat(l0) == (to_nat(lhs@.skip(lhs_len as int)) + (if quotient_carry {
                pow_base((len - lhs_len) as nat)
            } else {
                0
            })) * rv * pow_base((lhs_len - n) as nat) + to_nat(lhs@.take(lhs_len as int)),
        decreases lhs_len,
    {
        let k = lhs_len;
        let lhs0 = lhs[k - 1];
        let lhs1 = lhs[k - 2];
        let lhs2 = lhs[k - 3];
        let ghost lb = lhs@;
        let ghost xs = lb.subrange(k - 1 - n, k as int);
        let ghost x = to_nat(xs) as int;
        let ghost qs = x / rv;
        proof {
            lemma_div_window_facts(lb, n as int, k as int, rv);
            lemma_to_nat_top3(xs);
            assert(xs[xs.len() - 1] == lhs0);
            assert(xs[xs.len() - 2] == lhs1);
            assert(xs[xs.len() - 3] == lhs2);
            assert((n + 1 - 3) as nat == (n - 2) as nat);
            crate::value::lemma_to_nat_bound(xs.take(xs.len() - 3));
        }
        let q_est = estimate_quotient_word(
            lhs0,
            lhs1,
            lhs2,
            rhs0,
            rhs1,
            fast_div_rhs_top,
            Ghost(x),
            Ghost(rv),
            Ghost(to_nat(xs.take(xs.len() - 3)) as int),
            Ghost(to_nat(rhs@.take(n - 2)) as int),
            Ghost(pow_base((n - 2) as nat) as int),
            Ghost(qs),
        );
        // Subtract a multiple of rhs.
        let (lo, rest) = lhs.split_at_mut(k - 1 - n);
        let (seg, top) = rest.split_at_mut(n);
        let ghost seg0 = seg@;
        proof {
            assert(seg0 =~= xs.drop_last());
            assert(xs.last() == lhs0);
            assert(x == to_nat(seg0) + lhs0 * pow_base(n as nat));
        }
        let q = sub_mul_word_correcting(seg, rhs, q_est, lhs0, Ghost(x), Ghost(qs));
        let ghost seg1 = seg@;
        proof {
            assert(x - qs * rv < rv) by (nonlinear_arith)
                requires
                    x < (qs + 1) * rv,
            ;
        }
        let ghost lmid = lhs@;
        proof {
            assert(lmid =~= lb.take(k - 1 - n) + seg1 + lb.skip(k - 1));
        }
        lhs_len -= 1;
        lhs[lhs_len] = q;
        proof {
            assert(lhs@ =~= lb.take(k - 1 - n) + seg1 + lb.skip(k - 1).update(0, q));
            lemma_div_step_bookkeeping(
                l0,
                lb,
                lhs@,
                seg1,
                n as int,
                k as int,
                len as int,
                rv,
                x,
                q,
                quotient_carry,
            );
        }
    }
    proof {
        assert(lhs@.subrange(0, n as int) =~= lhs@.take(n as int));
        assert(pow_base(0) == 1);
        assert((lhs_len - n) as nat == 0);
        let a = to_nat(lhs@.skip(n as int)) + (if quotient_carry {
            pow_base((len - n) as nat)
        } else {
            0
        });
        assert(a * rv * 1 == a * rv) by (nonlinear_arith);
    }
    quotient_carry
}

/// Facts about the `n + 1` words ending at `k`: their value `x` is below `rv * B`,
/// and `x / rv` is a word.
proof fn lemma_div_window_facts(lb: Seq<Word>, n: int, k: int, rv: int)
    requires
        2 <= n < k <= lb.len(),
        rv > 0,
        to_nat(lb.subrange(k - n, k)) < rv,
    ensures
        ({
            let x = to_nat(lb.subrange(k - 1 - n, k)) as int;
            &&& x < rv * word_base()
            &&& 0 <= x / rv < word_base()
            &&& (x / rv) * rv <= x
            &&& x < (x / rv + 1) * rv
        }),
{
    let xs = lb.subrange(k - 1 - n, k);
    let x = to_nat(xs) as int;
    crate::value::lemma_to_nat_skip_next(xs, 0);
    assert(xs.skip(1) =~= lb.subrange(k - n, k));
    assert(xs.skip(0) =~= xs);
    assert(x < rv * word_base()) by (nonlinear_arith)
        requires
            x == xs[0] + word_base() * to_nat(lb.subrange(k - n, k)),
            to_nat(lb.subrange(k - n, k)) < rv,
            xs[0] < word_base(),
    ;
    vstd::arithmetic::div_mod::lemma_fundamental_div_mod(x, rv);
    let qs = x / rv;
    assert(qs < word_base()) by (nonlinear_arith)
        requires
            x == rv * qs + x % rv,
            x % rv >= 0,
            x < rv * word_base(),
            rv > 0,
    ;
    assert(qs >= 0) by (nonlinear_arith)
        requires
            x >= 0,
            rv > 0,
            qs == x / rv,
    ;
    assert(qs * rv <= x) by (nonlinear_arith)
        requires
            x == rv * qs + x % rv,
            x % rv >= 0,
    ;
    assert(x < (qs + 1) * rv) by (nonlinear_arith)
        requires
            x == rv * qs + x % rv,
            x % rv < rv,
    ;
}

/// After one step of the division, the invariant holds with one more quotient word.
proof fn lemma_div_step_bookkeeping(
    l0: Seq<Word>,
    lb: Seq<Word>,
    la: Seq<Word>,
    seg1: Seq<Word>,
    n: int,
    k: int,
    len: int,
    rv: int,
    x: int,
    q: Word,
    quotient_carry: bool,
)
    requires
        2 <= n < k <= len,
        lb.len() == len,
        seg1.len() == n,
        x == to_nat(lb.subrange(k - 1 - n, k)),
        to_nat(seg1) == x - q * rv,
        to_nat(seg1) < rv,
        la == lb.take(k - 1 - n) + seg1 + lb.skip(k - 1).update(0, q),
        to_nat(l0) == (to_nat(lb.skip(k)) + (if quotient_carry {
            pow_base((len - k) as nat)
        } else {
            0
        })) * rv * pow_base((k - n) as nat) + to_nat(lb.take(k)),
    ensures
        la.len() == len,
        to_nat(la.subrange(k - 1 - n, k - 1)) < rv,
        to_nat(l0) == (to_nat(la.skip(k - 1)) + (if quotient_carry {
            pow_base((len - (k - 1)) as nat)
        } else {
            0
        })) * rv * pow_base((k - 1 - n) as nat) + to_nat(la.take(k - 1)),
{
    assert(la.subrange(k - 1 - n, k - 1) =~= seg1);
    assert(la.skip(k) =~= lb.skip(k));
    assert(la[k - 1] == q);
    crate::value::lemma_to_nat_skip_next(la, k - 1);
    crate::value::lemma_to_nat_split(la.take(k - 1), k - 1 - n);
    assert(la.take(k - 1).take(k - 1 - n) =~= lb.take(k - 1 - n));
    assert(la.take(k - 1).skip(k - 1 - n) =~= seg1);
    crate::value::lemma_to_nat_split(lb.take(k), k - 1 - n);
    assert(lb.take(k).take(k - 1 - n) =~= lb.take(k - 1 - n));
    assert(lb.take(k).skip(k - 1 - n) =~= lb.subrange(k - 1 - n, k));
    let c = if quotient_carry {
        pow_base((len - k) as nat) as int
    } else {
        0
    };
    let c2 = if quotient_carry {
        pow_base((len - (k - 1)) as nat) as int
    } else {
        0
    };
    crate::value::lemma_pow_base_step((len - k) as nat);
    crate::value::lemma_pow_base_step((k - 1 - n) as nat);
    assert((len - (k - 1)) as nat == (len - k) as nat + 1);
    assert((k - n) as nat == (k - 1 - n) as nat + 1);
    assert(c2 == word_base() * c);
    lemma_div_step_value(
        to_nat(l0) as int,
        to_nat(lb.skip(k)) + c,
        rv,
        pow_base((k - 1 - n) as nat) as int,
        to_nat(lb.take(k - 1 - n)) as int,
        x,
        q as int,
        to_nat(seg1) as int,
    );
    assert(q + word_base() * (to_nat(lb.skip(k)) + c) == q + word_base() * to_nat(lb.skip(k))
        + c2) by (nonlinear_arith)
        requires
            c2 == word_base() * c,
    ;
}

/// Subtracts `rhs` from the top `rhs.len()` words of `lhs` if they are at least `rhs`.
///
/// Returns whether it subtracted (the quotient carry) and `lhs.len()`.
fn div_rem_top_window(lhs: &mut [Word], rhs: &[Word]) -> (r: (bool, usize))
    requires
        rhs@.len() >= 1,
        old(lhs)@.len() >= rhs@.len(),
        rhs@.last() >= 0x8000_0000_0000_0000,
    ensures
        final(lhs)@.len() == old(lhs)@.len(),
        r.1 == old(lhs)@.len(),
        to_nat(final(lhs)@.subrange(r.1 - rhs@.len(), r.1 as int)) < to_nat(rhs@),
        to_nat(old(lhs)@) == (to_nat(final(lhs)@.skip(r.1 as int)) + (if r.0 {
            pow_base((old(lhs)@.len() - r.1) as nat)
        } else {
            0
        })) * to_nat(rhs@) * pow_base((r.1 - rhs@.len()) as nat) + to_nat(
            final(lhs)@.take(r.1 as int),
        ),
{
    let ghost l0 = lhs@;
    let ghost rv = to_nat(rhs@) as int;
    let n = rhs.len();
    let len = lhs.len();
    proof {
        lemma_normalized_divisor(rhs@);
    }
    let quotient_carry = {
        let (_lo, top) = lhs.split_at(len - n);
        crate::compare::ge_same_len(top, rhs)
    };
    proof {
        crate::value::lemma_to_nat_split(l0, (len - n) as int);
        assert(l0.skip((len - n) as int) =~= l0.subrange((len - n) as int, len as int));
        crate::value::lemma_to_nat_bound(l0.skip((len - n) as int));
    }
    let ghost w0 = to_nat(l0.skip((len - n) as int)) as int;
    let ghost c: int = if quotient_carry { 1 } else { 0 };
    let ghost mut top1: Seq<Word> = l0.skip((len - n) as int);
    if quotient_carry {
        let (_lo, top) = lhs.split_at_mut(len - n);
        let ghost top0 = top@;
        let overflow = sub_same_len_in_place(top, rhs);
        proof {
            assert(top0 =~= l0.skip((len - n) as int));
            crate::value::lemma_to_nat_bound(top@);
            assert(!overflow);
            top1 = top@;
        }
    }
    let ghost l1 = lhs@;
    proof {
        assert(l1 =~= l0.take((len - n) as int) + top1);
        assert(to_nat(top1) == w0 - c * rv);
        assert(to_nat(top1) < rv);
        assert(l1.subrange((len - n) as int, len as int) =~= top1);
        crate::value::lemma_to_nat_split(l1, (len - n) as int);
        assert(l1.take((len - n) as int) =~= l0.take((len - n) as int));
        assert(l1.skip((len - n) as int) =~= top1);
        assert(l1.skip(len as int) =~= Seq::<Word>::empty());
        assert(to_nat(l1.skip(len as int)) == 0);
        assert(l1.take(len as int) =~= l1);
        assert(pow_base(0) == 1);
        let pl = pow_base((len - n) as nat) as int;
        assert(to_nat(l0) == to_nat(l0.take((len - n) as int)) + pl * w0);
        assert(to_nat(l1) == to_nat(l0.take((len - n) as int)) + pl * (w0 - c * rv));
        assert(pl * w0 == pl * (w0 - c * rv) + c * rv * pl) by (nonlinear_arith);
        let cc: int = 0 + (if quotient_carry { pow_base(0) as int } else { 0 });
        assert(cc == c);
        assert(to_nat(l0) == cc * rv * pl + to_nat(l1));
    }
    (quotient_carry, len)
}

/// Divide lhs by rhs, replacing the top words of lhs by the quotient and the
/// bottom words of lhs by the remainder.
///
/// rhs must have at least 2 words and the top bit must be 1.
///
/// lhs = [lhs % rhs, lhs / rhs]
///
/// Returns carry in the quotient. It is at most 1 because rhs is normalized.
pub fn div_rem_in_place(lhs: &mut [Word], rhs: &[Word]) -> (quotient_carry: bool)
    requires
        rhs@.len() >= 2,
        rhs@.len() <= crate::buffer::MAX_LEN,
        old(lhs)@.len() >= rhs@.len(),
        rhs@.last() >= 0x8000_0000_0000_0000,
    ensures
        final(lhs)@.len() == old(lhs)@.len(),
        to_nat(final(lhs)@.take(rhs@.len() as int)) < to_nat(rhs@),
        to_nat(old(lhs)@) == (to_nat(final(lhs)@.skip(rhs@.len() as int)) + (if quotient_carry {
            pow_base((old(lhs)@.len() - rhs@.len()) as nat)
        } else {
            0
        })) * to_nat(rhs@) + to_nat(final(lhs)@.take(rhs@.len() as int)),
{
    let fast_div_rhs_top = FastDivisorNormalized::new(rhs[rhs.len() - 1]);
    if rhs.len() <= crate::div_conquer::MAX_LEN_SIMPLE || lhs.len() - rhs.len()
        <= crate::div_conquer::MAX_LEN_SIMPLE {
        div_rem_in_place_simple(lhs, rhs, fast_div_rhs_top)
    } else {
        crate::div_conquer::div_rem_in_place(lhs, rhs, fast_div_rhs_top)
    }
}

} // verus!
