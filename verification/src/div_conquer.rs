//! Division of long word sequences by divide and conquer.

use crate::add::{add_same_len_in_place, sub_one_in_place, sub_same_len_in_place};
use crate::div::div_rem_in_place_simple;
use crate::fast_divide::FastDivisorNormalized;
use crate::gcd_binary::window_mut;
use crate::karatsuba::add_signed_mul;
use crate::primitive::{SignedWord, Word};
use crate::sign::Sign;
use crate::toom_3::{lemma_toom_3_temp_len_mono, toom_3_temp_len};
use crate::value::{
    lemma_pow_base_add, lemma_pow_base_pos, lemma_to_nat_bound, lemma_to_nat_split, pow_base,
    to_nat,
};
use vstd::prelude::*;

verus! {

/// If the divisor or the quotient has at most this many words, the simple method is used.
pub const MAX_LEN_SIMPLE: usize = 32;

/// `new` holds the division of `old` by `rhs`: the remainder in its low `rhs.len()` words, and
/// the quotient, apart from a carry bit, above.
pub open spec fn div_rem_result(old: Seq<Word>, new: Seq<Word>, rhs: Seq<Word>, carry: bool) -> bool {
    &&& new.len() == old.len()
    &&& to_nat(new.take(rhs.len() as int)) < to_nat(rhs)
    &&& to_nat(old) == (to_nat(new.skip(rhs.len() as int)) + (if carry {
        pow_base((old.len() - rhs.len()) as nat)
    } else {
        0
    })) * to_nat(rhs) + to_nat(new.take(rhs.len() as int))
}

/// Division in place using divide and conquer, when the quotient is shorter than the divisor.
///
/// Divide lhs by rhs, replacing the top words of lhs by the quotient and the
/// bottom words of lhs by the remainder.
///
/// lhs = [lhs % rhs, lhs / rhs]
///
/// Returns carry in the quotient. It is at most 1 because rhs is normalized.
#[verifier::rlimit(60)]
pub fn div_rem_in_place_small_quotient(
    lhs: &mut [Word],
    rhs: &[Word],
    fast_div_rhs_top: FastDivisorNormalized,
    temp: &mut [Word],
) -> (carry: bool)
    requires
        rhs@.len() >= 2,
        old(lhs)@.len() >= rhs@.len(),
        old(lhs)@.len() - rhs@.len() < rhs@.len(),
        rhs@.last() >= 0x8000_0000_0000_0000,
        fast_div_rhs_top.wf(),
        fast_div_rhs_top.spec_divisor() == rhs@.last(),
        old(temp)@.len() >= toom_3_temp_len(rhs@.len() / 2),
    ensures
        final(temp)@.len() == old(temp)@.len(),
        div_rem_result(old(lhs)@, final(lhs)@, rhs@, carry),
    decreases 2 * old(lhs)@.len() + 1,
{
    let n = rhs.len();
    let m = lhs.len() - n;
    if m <= MAX_LEN_SIMPLE {
        return div_rem_in_place_simple(lhs, rhs, fast_div_rhs_top);
    }
    let k = n - m;
    let ghost l0 = lhs@;
    let ghost lv = to_nat(l0) as int;
    let ghost rv = to_nat(rhs@) as int;
    // Use top m words of the divisor to get a quotient approximation. It may be too large by at
    // most 2. Quotient is in lhs[n..], remainder in lhs[..n].
    // This is 2m / m division.
    let rhs_top = vstd::slice::slice_subrange(rhs, k, n);
    let rhs_lo = vstd::slice::slice_subrange(rhs, 0, k);
    proof {
        assert(rhs_top@.last() == rhs@.last());
        lemma_toom_3_temp_len_mono((m / 2) as nat, (n / 2) as nat);
        lemma_toom_3_temp_len_mono((if m < k { m } else { k }) as nat, (n / 2) as nat);
    }
    let win = window_mut(lhs, k, n + m);
    let top_carry = div_rem_in_place_same_len(win, rhs_top, fast_div_rhs_top, temp);
    let ghost top1 = win@;
    let ghost l1 = lhs@;
    let mut q_overflow: SignedWord = if top_carry {
        1
    } else {
        0
    };
    let ghost pk = pow_base(k as nat) as int;
    let ghost pm = pow_base(m as nat) as int;
    let ghost pn = pow_base(n as nat) as int;
    let ghost low = to_nat(l0.take(k as int)) as int;
    let ghost rt = to_nat(rhs_top@) as int;
    let ghost rl = to_nat(rhs_lo@) as int;
    let ghost qt = to_nat(top1.skip(m as int)) as int;
    let ghost rm = to_nat(top1.take(m as int)) as int;
    proof {
        assert(l1 =~= l0.take(k as int) + top1);
        lemma_to_nat_split(l0, k as int);
        assert(l0.skip(k as int) =~= l0.subrange(k as int, (n + m) as int));
        lemma_to_nat_split(rhs@, k as int);
        assert(rhs@.take(k as int) =~= rhs_lo@);
        assert(rhs@.skip(k as int) =~= rhs_top@);
        lemma_to_nat_bound(l0.take(k as int));
        lemma_pow_base_pos(k as nat);
        lemma_pow_base_pos(m as nat);
        lemma_pow_base_add(k as nat, m as nat);
        assert(pn == pk * pm);
        crate::value::lemma_to_nat_normalized_lower(rhs_top@);
        lemma_pow_base_pos((m - 1) as nat);
        // the estimate is at least the quotient
        lemma_quotient_estimate(
            lv,
            low,
            to_nat(l0.skip(k as int)) as int,
            rv,
            rl,
            rt,
            pk,
            qt + (if top_carry { pm } else { 0 }),
            rm,
        );
    }
    let ghost q_est = qt + q_overflow * pm;
    let (rem, q) = lhs.split_at_mut(n);
    proof {
        // rem = low ++ top1[..m], q = top1[m..]
        assert(rem@ =~= l0.take(k as int) + top1.take(m as int));
        assert(q@ =~= top1.skip(m as int));
        crate::value::lemma_to_nat_append(l0.take(k as int), top1.take(m as int));
    }
    // Subtract q * (the rest of rhs) from rem.
    // The multiplication here is m words by (n - m) words.
    let ghost rem0 = to_nat(rem@) as int;
    let mut rem_overflow: SignedWord = add_signed_mul(rem, Sign::Negative, q, rhs_lo, temp);
    proof {
        assert(Sign::Negative.factor() == -1);
        assert((-1) * (qt * rl) == -(qt * rl));
    }
    let ghost ro_mul = rem_overflow as int;
    let ghost rem_mul = to_nat(rem@) as int;
    if q_overflow != 0 {
        let ghost rem1 = rem@;
        let (rem_lo, rem_hi) = rem.split_at_mut(m);
        let ghost hi0 = rem_hi@;
        let b = sub_same_len_in_place(rem_hi, rhs_lo);
        let ghost lo_v = rem_lo@;
        let ghost hi1 = rem_hi@;
        rem_overflow -= if b {
            1
        } else {
            0
        };
        proof {
            assert(rem@ =~= lo_v + hi1);
            lemma_to_nat_split(rem1, m as int);
            assert(rem1.take(m as int) =~= lo_v);
            assert(rem1.skip(m as int) =~= hi0);
            crate::value::lemma_to_nat_append(lo_v, hi1);
            let hv = to_nat(hi0) as int;
            let hv1 = to_nat(hi1) as int;
            let bb: int = if b { 1 } else { 0 };
            assert(pm * pk == pk * pm) by (nonlinear_arith);
            assert(pm * hv1 == pm * hv - pm * rl + bb * pn) by (nonlinear_arith)
                requires
                    hv1 == hv - rl + bb * pk,
                    pn == pm * pk,
            ;
            assert((rem_overflow as int) * pn == ro_mul * pn - bb * pn) by (nonlinear_arith)
                requires
                    rem_overflow == ro_mul - bb,
            ;
            assert(to_nat(rem@) + rem_overflow * pn == rem_mul + ro_mul * pn - pm * rl);
        }
    }
    proof {
        let qo = q_overflow as int;
        assert(to_nat(rem@) + rem_overflow * pn == rem0 - qt * rl - qo * pm * rl) by {
            if qo == 0 {
                assert(qo * pm * rl == 0) by (nonlinear_arith)
                    requires
                        qo == 0,
                ;
            } else {
                assert(qo * pm * rl == pm * rl) by (nonlinear_arith)
                    requires
                        qo == 1,
                ;
            }
        }
        assert(qt * rl + qo * pm * rl == (qt + qo * pm) * rl) by (nonlinear_arith);
        assert(qo * pm == (if top_carry { pm } else { 0 })) by (nonlinear_arith)
            requires
                qo == (if top_carry { 1int } else { 0 }),
        ;
        lemma_remainder_identity(lv, low, rm, rt, rl, rv, qt, qo, pk, pm, pn);
        lemma_to_nat_bound(rhs@);
        crate::value::lemma_to_nat_normalized_lower(rhs@);
        lemma_pow_base_pos((n - 1) as nat);
    }
    // If the remainder overflowed, adjust q and rem.
    while rem_overflow < 0
        invariant
            rem@.len() == n,
            q@.len() == m,
            n == rhs@.len(),
            pn == pow_base(n as nat),
            pm == pow_base(m as nat),
            rv == to_nat(rhs@),
            rv > 0,
            rv < pn,
            lv >= 0,
            to_nat(rem@) + rem_overflow * pn == lv - (to_nat(q@) + q_overflow * pm) * rv,
            to_nat(q@) + q_overflow * pm >= lv / rv,
            -3 <= rem_overflow <= 1,
            0 <= q_overflow <= 1,
        decreases to_nat(q@) + q_overflow * pm - lv / rv,
    {
        let ghost (r0, qv0) = (to_nat(rem@) as int, to_nat(q@) as int);
        proof {
            lemma_to_nat_bound(rem@);
        }
        let c = add_same_len_in_place(rem, rhs);
        rem_overflow += if c {
            1
        } else {
            0
        };
        let b = sub_one_in_place(q);
        q_overflow -= if b {
            1
        } else {
            0
        };
        proof {
            lemma_to_nat_bound(q@);
            lemma_adjust_step(
                r0,
                to_nat(rem@) as int,
                qv0,
                to_nat(q@) as int,
                rem_overflow as int,
                q_overflow as int,
                c,
                b,
                lv,
                rv,
                pn,
                pm,
            );
        }
    }
    let ghost fr = rem@;
    let ghost fq = q@;
    proof {
        lemma_to_nat_bound(rem@);
        lemma_to_nat_bound(q@);
        lemma_final_remainder(
            to_nat(rem@) as int,
            rem_overflow as int,
            to_nat(q@) as int,
            q_overflow as int,
            lv,
            rv,
            pn,
            pm,
        );
        assert(lhs@ =~= fr + fq);
        assert(lhs@.take(n as int) =~= fr);
        assert(lhs@.skip(n as int) =~= fq);
        assert((q_overflow as int) * pm == (if q_overflow != 0 { pm } else { 0 })) by (
        nonlinear_arith)
            requires
                0 <= q_overflow <= 1,
        ;
    }
    q_overflow != 0
}

/// Division in place using divide and conquer, when the quotient has as many words as the
/// divisor.
///
/// lhs = [lhs % rhs, lhs / rhs]
///
/// Returns carry in the quotient.
pub fn div_rem_in_place_same_len(
    lhs: &mut [Word],
    rhs: &[Word],
    fast_div_rhs_top: FastDivisorNormalized,
    temp: &mut [Word],
) -> (carry: bool)
    requires
        rhs@.len() >= 2,
        old(lhs)@.len() == 2 * rhs@.len(),
        rhs@.last() >= 0x8000_0000_0000_0000,
        fast_div_rhs_top.wf(),
        fast_div_rhs_top.spec_divisor() == rhs@.last(),
        old(temp)@.len() >= toom_3_temp_len(rhs@.len() / 2),
    ensures
        final(temp)@.len() == old(temp)@.len(),
        div_rem_result(old(lhs)@, final(lhs)@, rhs@, carry),
    decreases 2 * old(lhs)@.len(),
{
    let n = rhs.len();
    let _len = lhs.len();
    let n_lo = n / 2;
    let ghost l0 = lhs@;
    // Divide lhs[n_lo..] by rhs, putting quotient in lhs[n+n_lo..] and remainder in
    // lhs[n_lo..n+n_lo].
    let win = window_mut(lhs, n_lo, 2 * n);
    let overflow = div_rem_in_place_small_quotient(win, rhs, fast_div_rhs_top, temp);
    let ghost w1 = win@;
    let ghost l1 = lhs@;
    // Divide lhs[..n+n_lo] by rhs, putting the rest of the quotient in lhs[n..n+n_lo] and
    // remainder in lhs[..n].
    let win2 = window_mut(lhs, 0, n + n_lo);
    let overflow_lo = div_rem_in_place_small_quotient(win2, rhs, fast_div_rhs_top, temp);
    let ghost w2 = win2@;
    proof {
        let rv = to_nat(rhs@) as int;
        let pl = pow_base(n_lo as nat) as int;
        let ph = pow_base((n - n_lo) as nat) as int;
        let pn = pow_base(n as nat) as int;
        let low0 = to_nat(l0.take(n_lo as int)) as int;
        let r1 = to_nat(w1.take(n as int)) as int;
        let qh = to_nat(w1.skip(n as int)) as int;
        let r2 = to_nat(w2.take(n as int)) as int;
        let ql = to_nat(w2.skip(n as int)) as int;
        assert(l1 =~= l0.take(n_lo as int) + w1);
        lemma_to_nat_split(l0, n_lo as int);
        assert(l0.skip(n_lo as int) =~= l0.subrange(n_lo as int, 2 * n as int));
        // the low part of the first remainder
        assert(l1.subrange(0, (n + n_lo) as int) =~= l0.take(n_lo as int) + w1.take(n as int));
        crate::value::lemma_to_nat_append(l0.take(n_lo as int), w1.take(n as int));
        lemma_to_nat_bound(l0.take(n_lo as int));
        lemma_pow_base_pos(n_lo as nat);
        lemma_pow_base_add(n_lo as nat, (n - n_lo) as nat);
        let x = low0 + pl * r1;
        assert(x < pl * rv) by (nonlinear_arith)
            requires
                x == low0 + pl * r1,
                0 <= low0 < pl,
                r1 < rv,
        ;
        if overflow_lo {
            assert(x >= pl * rv) by (nonlinear_arith)
                requires
                    x == (ql + pl) * rv + r2,
                    ql >= 0,
                    r2 >= 0,
                    rv >= 0,
            ;
        }
        // the final layout: [r2 | ql | qh]
        assert(lhs@ =~= w2 + w1.skip(n as int));
        assert(lhs@.take(n as int) =~= w2.take(n as int));
        assert(lhs@.skip(n as int) =~= w2.skip(n as int) + w1.skip(n as int));
        crate::value::lemma_to_nat_append(w2.skip(n as int), w1.skip(n as int));
        let c: int = if overflow { 1 } else { 0 };
        let h0 = to_nat(l0.skip(n_lo as int)) as int;
        assert(pl * h0 == (pl * qh + c * pn) * rv + pl * r1) by (nonlinear_arith)
            requires
                h0 == (qh + c * ph) * rv + r1,
                pn == pl * ph,
        ;
        assert((ql + pl * qh + c * pn) * rv == ql * rv + (pl * qh + c * pn) * rv) by (
        nonlinear_arith);
    }
    overflow
}

/// The quotient estimated from the top words of the divisor is at least the true quotient.
proof fn lemma_quotient_estimate(
    l: int,
    low: int,
    t: int,
    r: int,
    rl: int,
    rt: int,
    pk: int,
    q: int,
    rm: int,
)
    requires
        l == low + pk * t,
        0 <= low < pk,
        r == rl + pk * rt,
        rl >= 0,
        rt > 0,
        t == q * rt + rm,
        0 <= rm < rt,
        t >= 0,
    ensures
        q >= l / r,
{
    let f = l / r;
    assert(r > 0) by (nonlinear_arith)
        requires
            r == rl + pk * rt,
            rl >= 0,
            rt > 0,
            pk > 0,
    ;
    vstd::arithmetic::div_mod::lemma_fundamental_div_mod(l, r);
    vstd::arithmetic::div_mod::lemma_mod_bound(l, r);
    assert(l >= 0) by (nonlinear_arith)
        requires
            l == low + pk * t,
            low >= 0,
            pk > 0,
            t >= 0,
    ;
    vstd::arithmetic::div_mod::lemma_div_pos_is_pos(l, r);
    if f > q {
        assert(f * rt >= q * rt + rt) by (nonlinear_arith)
            requires
                f >= q + 1,
                rt > 0,
        ;
        assert(f * rt >= t + 1);
        assert(f * r >= pk * (f * rt)) by (nonlinear_arith)
            requires
                r == rl + pk * rt,
                rl >= 0,
                f >= 0,
                pk > 0,
        ;
        assert(pk * (f * rt) >= pk * (t + 1)) by (nonlinear_arith)
            requires
                f * rt >= t + 1,
                pk > 0,
        ;
        assert(pk * (t + 1) == pk * t + pk) by (nonlinear_arith);
        assert(f * r == r * f) by (nonlinear_arith);
        assert(f * r <= l);
        assert(false);
    }
}

/// The remainder after subtracting the estimated quotient times the divisor.
proof fn lemma_remainder_identity(
    l: int,
    low: int,
    rm: int,
    rt: int,
    rl: int,
    r: int,
    qt: int,
    qo: int,
    pk: int,
    pm: int,
    pn: int,
)
    requires
        r == rl + pk * rt,
        pn == pk * pm,
    ensures
        l == low + pk * ((qt + qo * pm) * rt + rm) ==> low + pk * rm - (qt + qo * pm) * rl == l - (qt
            + qo * pm) * r,
{
    assert(pk * ((qt + qo * pm) * rt + rm) == (qt + qo * pm) * (pk * rt) + pk * rm) by (
    nonlinear_arith);
    assert((qt + qo * pm) * r == (qt + qo * pm) * rl + (qt + qo * pm) * (pk * rt)) by (
    nonlinear_arith)
        requires
            r == rl + pk * rt,
    ;
}

/// One adjustment step: the remainder grows by the divisor and the quotient drops by one.
proof fn lemma_adjust_step(
    r0: int,
    r1: int,
    q0: int,
    q1: int,
    ro1: int,
    qo1: int,
    c: bool,
    b: bool,
    l: int,
    rv: int,
    pn: int,
    pm: int,
)
    requires
        r1 + (if c { pn } else { 0 }) == r0 + rv,
        q1 == q0 - 1 + (if b { pm } else { 0 }),
        0 <= q1 < pm,
        rv > 0,
        l >= 0,
        r0 + (ro1 - (if c { 1int } else { 0 })) * pn == l - (q0 + (qo1 + (if b { 1int } else { 0 }))
            * pm) * rv,
        q0 + (qo1 + (if b { 1int } else { 0 })) * pm >= l / rv,
        ro1 - (if c { 1int } else { 0 }) < 0,
        r0 >= 0,
        r0 < pn,
        -3 <= ro1 - (if c { 1int } else { 0 }),
        0 <= qo1 + (if b { 1int } else { 0 }) <= 1,
    ensures
        r1 + ro1 * pn == l - (q1 + qo1 * pm) * rv,
        q1 + qo1 * pm >= l / rv,
        q1 + qo1 * pm < q0 + (qo1 + (if b { 1int } else { 0 })) * pm,
        -3 <= ro1 <= 1,
        0 <= qo1 <= 1,
{
    let qo0 = qo1 + (if b { 1int } else { 0 });
    let ro0 = ro1 - (if c { 1int } else { 0 });
    let big_q = q0 + qo0 * pm;
    assert(qo1 * pm == qo0 * pm - (if b { pm } else { 0 })) by (nonlinear_arith)
        requires
            qo1 == qo0 - (if b { 1int } else { 0 }),
    ;
    assert(q1 + qo1 * pm == big_q - 1);
    assert(ro1 * pn == ro0 * pn + (if c { pn } else { 0 })) by (nonlinear_arith)
        requires
            ro1 == ro0 + (if c { 1int } else { 0 }),
    ;
    assert((big_q - 1) * rv == big_q * rv - rv) by (nonlinear_arith);
    // the remainder was negative, so the estimate exceeded the quotient
    vstd::arithmetic::div_mod::lemma_fundamental_div_mod(l, rv);
    vstd::arithmetic::div_mod::lemma_mod_bound(l, rv);
    assert(ro0 * pn <= -pn) by (nonlinear_arith)
        requires
            ro0 <= -1,
            pn > 0,
    ;
    assert(big_q * rv > l);
    if big_q - 1 < l / rv {
        assert(big_q <= l / rv);
        assert(big_q * rv <= (l / rv) * rv) by (nonlinear_arith)
            requires
                big_q <= l / rv,
                rv > 0,
        ;
    }
    if qo1 < 0 {
        assert(qo1 * pm <= -pm) by (nonlinear_arith)
            requires
                qo1 <= -1,
                pm > 0,
        ;
        vstd::arithmetic::div_mod::lemma_div_pos_is_pos(l, rv);
    }
}

/// After the adjustments, the estimate is the quotient and the remainder is in range.
proof fn lemma_final_remainder(r: int, ro: int, q: int, qo: int, l: int, rv: int, pn: int, pm: int)
    requires
        0 <= r < pn,
        0 <= q < pm,
        rv > 0,
        l >= 0,
        rv < pn,
        r + ro * pn == l - (q + qo * pm) * rv,
        q + qo * pm >= l / rv,
        ro >= 0,
        -3 <= ro <= 1,
        0 <= qo <= 1,
    ensures
        ro == 0,
        r < rv,
        l == (q + qo * pm) * rv + r,
{
    vstd::arithmetic::div_mod::lemma_fundamental_div_mod(l, rv);
    vstd::arithmetic::div_mod::lemma_mod_bound(l, rv);
    let big_q = q + qo * pm;
    let f = l / rv;
    assert(ro * pn >= 0) by (nonlinear_arith)
        requires
            ro >= 0,
            pn > 0,
    ;
    // big_q * rv <= l, so big_q <= f; with big_q >= f they are equal
    if big_q > f {
        assert(big_q * rv >= f * rv + rv) by (nonlinear_arith)
            requires
                big_q >= f + 1,
                rv > 0,
        ;
    }
    assert(big_q == f);
    if ro >= 1 {
        assert(ro * pn >= pn) by (nonlinear_arith)
            requires
                ro >= 1,
                pn > 0,
        ;
    }
}

/// Division in place using divide and conquer.
///
/// Divide lhs by rhs, replacing the top words of lhs by the quotient and the
/// bottom words of lhs by the remainder.
///
/// lhs = [lhs % rhs, lhs / rhs]
///
/// Returns carry in the quotient. It is at most 1 because rhs is normalized.
pub fn div_rem_in_place(lhs: &mut [Word], rhs: &[Word], fast_div_rhs_top: FastDivisorNormalized) -> (carry: bool)
    requires
        rhs@.len() > MAX_LEN_SIMPLE,
        rhs@.len() <= crate::buffer::MAX_LEN,
        old(lhs)@.len() >= rhs@.len(),
        rhs@.last() >= 0x8000_0000_0000_0000,
        fast_div_rhs_top.wf(),
        fast_div_rhs_top.spec_divisor() == rhs@.last(),
    ensures
        div_rem_result(old(lhs)@, final(lhs)@, rhs@, carry),
{
    // We need space for multiplications summing up to rhs.len().
    // One of the factors will be at most floor(rhs.len()/2).
    let mut temp = crate::karatsuba::allocate_temp_mul_buffer(rhs.len() / 2);
    div_rem_in_place_any_len(lhs, rhs, fast_div_rhs_top, temp.as_mut_slice())
}

/// Division in place using divide and conquer, for a dividend of any length: the quotient is
/// computed by blocks of `rhs.len()` words, from the top.
///
/// lhs = [lhs % rhs, lhs / rhs]
///
/// Returns carry in the quotient.
pub fn div_rem_in_place_any_len(
    lhs: &mut [Word],
    rhs: &[Word],
    fast_div_rhs_top: FastDivisorNormalized,
    temp: &mut [Word],
) -> (carry: bool)
    requires
        rhs@.len() >= 2,
        old(lhs)@.len() >= rhs@.len(),
        rhs@.last() >= 0x8000_0000_0000_0000,
        fast_div_rhs_top.wf(),
        fast_div_rhs_top.spec_divisor() == rhs@.last(),
        old(temp)@.len() >= toom_3_temp_len(rhs@.len() / 2),
    ensures
        final(temp)@.len() == old(temp)@.len(),
        div_rem_result(old(lhs)@, final(lhs)@, rhs@, carry),
{
    let ghost l0 = lhs@;
    let ghost lv = to_nat(l0) as int;
    let ghost rv = to_nat(rhs@) as int;
    let mut overflow = false;
    let n = rhs.len();
    let len = lhs.len();
    let mut m = len;
    proof {
        assert(l0.skip(len as int) =~= Seq::<Word>::empty());
        assert(l0.take(len as int) =~= l0);
        lemma_pow_base_pos((len - n) as nat);
        assert(0 * pow_base((len - n) as nat) * rv == 0) by (nonlinear_arith);
    }
    let ghost t0 = temp@.len();
    while m - n >= n
        invariant
            temp@.len() == t0,
            n == rhs@.len(),
            n >= 2,
            n <= m <= len,
            len == lhs@.len(),
            len == l0.len(),
            lv == to_nat(l0),
            rv == to_nat(rhs@),
            rhs@.last() >= 0x8000_0000_0000_0000,
            fast_div_rhs_top.wf(),
            fast_div_rhs_top.spec_divisor() == rhs@.last(),
            temp@.len() >= toom_3_temp_len(n as nat / 2),
            lv == (to_nat(lhs@.skip(m as int)) + (if overflow {
                pow_base((len - m) as nat)
            } else {
                0
            })) * pow_base((m - n) as nat) * rv + to_nat(lhs@.take(m as int)),
            m < len ==> to_nat(lhs@.subrange(m - n, m as int)) < rv,
            m == len ==> !overflow,
        decreases m,
    {
        let ghost lb = lhs@;
        let win = window_mut(lhs, m - 2 * n, m);
        let o = div_rem_in_place_same_len(win, rhs, fast_div_rhs_top, temp);
        let ghost w = win@;
        proof {
            lemma_block_step(lb, lhs@, w, rhs@, m as nat, n as nat, len as nat, overflow, o, lv);
        }
        if o {
            overflow = true;
        }
        m -= n;
    }
    let ghost lb = lhs@;
    let win = window_mut(lhs, 0, m);
    let o = div_rem_in_place_small_quotient(win, rhs, fast_div_rhs_top, temp);
    let ghost w = win@;
    proof {
        lemma_last_block(lb, lhs@, w, rhs@, m as nat, n as nat, len as nat, overflow, o, lv);
    }
    if o {
        overflow = true;
    }
    overflow
}

/// One block of the division: dividing the top `2n` words of the current dividend `lb[..m]`
/// extends the quotient by `n` words.
proof fn lemma_block_step(
    lb: Seq<Word>,
    la: Seq<Word>,
    w: Seq<Word>,
    rhs: Seq<Word>,
    m: nat,
    n: nat,
    len: nat,
    overflow: bool,
    o: bool,
    lv: int,
)
    requires
        n == rhs.len(),
        n >= 2,
        2 * n <= m <= len,
        lb.len() == len,
        rhs.last() >= 0x8000_0000_0000_0000,
        la == lb.subrange(0, m - 2 * n) + w + lb.subrange(m as int, len as int),
        div_rem_result(lb.subrange(m - 2 * n, m as int), w, rhs, o),
        lv == (to_nat(lb.skip(m as int)) + (if overflow {
            pow_base((len - m) as nat)
        } else {
            0
        })) * pow_base((m - n) as nat) * to_nat(rhs) + to_nat(lb.take(m as int)),
        m < len ==> to_nat(lb.subrange(m - n, m as int)) < to_nat(rhs),
        m == len ==> !overflow,
    ensures
        o ==> m == len,
        lv == (to_nat(la.skip(m - n)) + (if overflow || o {
            pow_base((len - (m - n)) as nat)
        } else {
            0
        })) * pow_base((m - n - n) as nat) * to_nat(rhs) + to_nat(la.take(m - n)),
        to_nat(la.subrange(m - n - n, m - n)) < to_nat(rhs),
        m - n == len ==> !(overflow || o),
{
    let rv = to_nat(rhs) as int;
    let wv0 = lb.subrange(m - 2 * n, m as int);
    let q = to_nat(w.skip(n as int)) as int;
    let r = to_nat(w.take(n as int)) as int;
    let qp = to_nat(lb.skip(m as int)) as int;
    let dlow = to_nat(lb.take(m - 2 * n)) as int;
    let pn = pow_base(n) as int;
    let p2 = pow_base((m - 2 * n) as nat) as int;
    let p1 = pow_base((m - n) as nat) as int;
    lemma_pow_base_add((m - 2 * n) as nat, n);
    lemma_pow_base_pos(n);
    lemma_pow_base_pos((m - 2 * n) as nat);
    crate::value::lemma_to_nat_normalized_lower(rhs);
    // the current dividend
    assert(lb.take(m as int) =~= lb.take(m - 2 * n) + wv0);
    crate::value::lemma_to_nat_append(lb.take(m - 2 * n), wv0);
    assert(lb.take(m - 2 * n) =~= lb.subrange(0, m - 2 * n));
    // a block whose top half is a remainder gives no carry
    if m < len {
        lemma_to_nat_split(wv0, n as int);
        assert(wv0.skip(n as int) =~= lb.subrange(m - n, m as int));
        lemma_to_nat_bound(wv0.take(n as int));
        let top = to_nat(wv0.skip(n as int)) as int;
        let bot = to_nat(wv0.take(n as int)) as int;
        assert(bot + pn * top < pn * rv) by (nonlinear_arith)
            requires
                0 <= bot < pn,
                top < rv,
        ;
        if o {
            assert((q + pn) * rv + r >= pn * rv) by (nonlinear_arith)
                requires
                    q >= 0,
                    r >= 0,
                    rv >= 0,
            ;
        }
    }
    // the new dividend and quotient
    assert(la.take(m - n) =~= lb.take(m - 2 * n) + w.take(n as int));
    crate::value::lemma_to_nat_append(lb.take(m - 2 * n), w.take(n as int));
    assert(la.skip(m - n) =~= w.skip(n as int) + lb.skip(m as int));
    crate::value::lemma_to_nat_append(w.skip(n as int), lb.skip(m as int));
    assert(la.subrange(m - n - n, m - n) =~= w.take(n as int));
    let c: int = if overflow { 1 } else { 0 };
    let oi: int = if o { 1 } else { 0 };
    let pl = pow_base((len - m) as nat) as int;
    let pl2 = pow_base((len - (m - n)) as nat) as int;
    lemma_pow_base_add((len - m) as nat, n);
    lemma_pow_base_add((len - m) as nat, (m - n) as nat);
    let pln = pow_base((len - n) as nat) as int;
    let wv = to_nat(wv0) as int;
    assert(wv == (q + oi * pn) * rv + r) by (nonlinear_arith)
        requires
            wv == (q + (if o { pn } else { 0 })) * rv + r,
            oi == (if o { 1int } else { 0 }),
    ;
    let cp: int = if overflow || o { 1 } else { 0 };
    assert(cp * pln == c * pln + oi * p1) by (nonlinear_arith)
        requires
            o ==> m == len,
            m == len ==> !overflow,
            cp == (if overflow || o { 1int } else { 0 }),
            c == (if overflow { 1int } else { 0 }),
            oi == (if o { 1int } else { 0 }),
            m == len ==> p1 == pln,
    ;
    lemma_block_algebra(lv, qp, c, dlow, wv, q, oi, r, rv, p2, pn, p1, pl, pl2, pln, cp);
    assert((if overflow { pl } else { 0 }) == c * pl) by (nonlinear_arith)
        requires
            c == (if overflow { 1int } else { 0 }),
    ;
    assert((if overflow || o { pl2 } else { 0 }) == cp * pl2) by (nonlinear_arith)
        requires
            cp == (if overflow || o { 1int } else { 0 }),
    ;
}

/// The algebra of one block step.
proof fn lemma_block_algebra(
    l0: int,
    qp: int,
    c: int,
    dlow: int,
    wv: int,
    q: int,
    o: int,
    r: int,
    rv: int,
    p2: int,
    pn: int,
    p1: int,
    pl: int,
    pl2: int,
    pln: int,
    cp: int,
)
    requires
        l0 == (qp + c * pl) * p1 * rv + (dlow + p2 * wv),
        wv == (q + o * pn) * rv + r,
        p1 == p2 * pn,
        pl2 == pl * pn,
        pln == pl * p1,
        cp * pln == c * pln + o * p1,
    ensures
        l0 == (q + pn * qp + cp * pl2) * p2 * rv + (dlow + p2 * r),
{
    assert((qp + c * pl) * p1 * rv == qp * p1 * rv + c * pln * rv) by (nonlinear_arith)
        requires
            pln == pl * p1,
    ;
    assert(p2 * wv == p2 * q * rv + o * p1 * rv + p2 * r) by (nonlinear_arith)
        requires
            wv == (q + o * pn) * rv + r,
            p1 == p2 * pn,
    ;
    let x = q + pn * qp + cp * pl2;
    assert(x * p2 == q * p2 + (pn * qp) * p2 + (cp * pl2) * p2) by (nonlinear_arith)
        requires
            x == q + pn * qp + cp * pl2,
    ;
    assert((pn * qp) * p2 == qp * p1) by (nonlinear_arith)
        requires
            p1 == p2 * pn,
    ;
    assert((cp * pl2) * p2 == cp * pln) by (nonlinear_arith)
        requires
            pl2 == pl * pn,
            pln == pl * p1,
            p1 == p2 * pn,
    ;
    assert((q * p2 + qp * p1 + cp * pln) * rv == q * p2 * rv + qp * p1 * rv + cp * pln * rv) by (
    nonlinear_arith);
    assert(cp * pln * rv == c * pln * rv + o * p1 * rv) by (nonlinear_arith)
        requires
            cp * pln == c * pln + o * p1,
    ;
    assert(q * p2 * rv == p2 * q * rv) by (nonlinear_arith);
}

/// The last block of the division, with a quotient shorter than the divisor.
proof fn lemma_last_block(
    lb: Seq<Word>,
    la: Seq<Word>,
    w: Seq<Word>,
    rhs: Seq<Word>,
    m: nat,
    n: nat,
    len: nat,
    overflow: bool,
    o: bool,
    lv: int,
)
    requires
        n == rhs.len(),
        n >= 2,
        n <= m < 2 * n,
        m <= len,
        lb.len() == len,
        rhs.last() >= 0x8000_0000_0000_0000,
        la == w + lb.subrange(m as int, len as int),
        div_rem_result(lb.subrange(0, m as int), w, rhs, o),
        lv == (to_nat(lb.skip(m as int)) + (if overflow {
            pow_base((len - m) as nat)
        } else {
            0
        })) * pow_base((m - n) as nat) * to_nat(rhs) + to_nat(lb.take(m as int)),
        m < len ==> to_nat(lb.subrange(m - n, m as int)) < to_nat(rhs),
        m == len ==> !overflow,
    ensures
        o ==> m == len,
        la.len() == len,
        to_nat(la.take(n as int)) < to_nat(rhs),
        lv == (to_nat(la.skip(n as int)) + (if overflow || o {
            pow_base((len - n) as nat)
        } else {
            0
        })) * to_nat(rhs) + to_nat(la.take(n as int)),
{
    let rv = to_nat(rhs) as int;
    let d0 = lb.subrange(0, m as int);
    let q = to_nat(w.skip(n as int)) as int;
    let r = to_nat(w.take(n as int)) as int;
    let qp = to_nat(lb.skip(m as int)) as int;
    let p1 = pow_base((m - n) as nat) as int;
    lemma_pow_base_pos((m - n) as nat);
    crate::value::lemma_to_nat_normalized_lower(rhs);
    assert(lb.take(m as int) =~= d0);
    if m < len {
        lemma_to_nat_split(d0, (m - n) as int);
        assert(d0.skip(m - n) =~= lb.subrange(m - n, m as int));
        lemma_to_nat_bound(d0.take(m - n));
        let top = to_nat(d0.skip(m - n)) as int;
        let bot = to_nat(d0.take(m - n)) as int;
        assert(bot + p1 * top < p1 * rv) by (nonlinear_arith)
            requires
                0 <= bot < p1,
                top < rv,
        ;
        if o {
            assert((q + p1) * rv + r >= p1 * rv) by (nonlinear_arith)
                requires
                    q >= 0,
                    r >= 0,
                    rv >= 0,
            ;
        }
    }
    assert(la.take(n as int) =~= w.take(n as int));
    assert(la.skip(n as int) =~= w.skip(n as int) + lb.skip(m as int));
    crate::value::lemma_to_nat_append(w.skip(n as int), lb.skip(m as int));
    let c: int = if overflow { 1 } else { 0 };
    let oi: int = if o { 1 } else { 0 };
    let pl = pow_base((len - m) as nat) as int;
    lemma_pow_base_add((len - m) as nat, (m - n) as nat);
    let pln = pow_base((len - n) as nat) as int;
    let cp: int = if overflow || o { 1 } else { 0 };
    assert(cp * pln == c * pln + oi * p1) by (nonlinear_arith)
        requires
            o ==> m == len,
            m == len ==> !overflow,
            cp == (if overflow || o { 1int } else { 0 }),
            c == (if overflow { 1int } else { 0 }),
            oi == (if o { 1int } else { 0 }),
            m == len ==> p1 == pln,
    ;
    assert((if overflow { pl } else { 0 }) == c * pl) by (nonlinear_arith)
        requires
            c == (if overflow { 1int } else { 0 }),
    ;
    assert((if o { p1 } else { 0 }) == oi * p1) by (nonlinear_arith)
        requires
            oi == (if o { 1int } else { 0 }),
    ;
    assert((if overflow || o { pln } else { 0 }) == cp * pln) by (nonlinear_arith)
        requires
            cp == (if overflow || o { 1int } else { 0 }),
    ;
    assert((qp + c * pl) * p1 * rv == qp * p1 * rv + c * pln * rv) by (nonlinear_arith)
        requires
            pln == pl * p1,
    ;
    assert((q + oi * p1) * rv == q * rv + oi * p1 * rv) by (nonlinear_arith);
    assert((q + p1 * qp + cp * pln) * rv == q * rv + qp * p1 * rv + cp * pln * rv) by (
    nonlinear_arith);
    assert(cp * pln * rv == c * pln * rv + oi * p1 * rv) by (nonlinear_arith)
        requires
            cp * pln == c * pln + oi * p1,
    ;
}

} // verus!
