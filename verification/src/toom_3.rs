//! Multiplication of long word sequences by the Toom-Cook-3 method.

use crate::add::{
    add_in_place, add_same_len_in_place, add_signed_same_len_in_place, copy_words, sub_in_place,
    sub_in_place_with_sign,
};
use crate::karatsuba::{
    add_signed_at, add_signed_mul_karatsuba_same_len, add_signed_mul_simple, add_signed_word_at,
    karatsuba_temp_len, lemma_karatsuba_temp_len_mono, lemma_mul_carry_bound, lemma_product_bound,
    MAX_LEN_KARATSUBA, MAX_LEN_SIMPLE,
};
use crate::mul::{
    add_mul_word_in_place, add_mul_word_same_len_in_place, mul_word_in_place,
    sub_mul_word_same_len_in_place,
};
use crate::primitive::{SignedWord, Word};
use crate::sign::Sign;
use crate::value::{
    lemma_pow_base_add, lemma_pow_base_pos, lemma_pow_base_step, lemma_to_nat_bound,
    lemma_to_nat_split, pow_base, to_nat,
};
use vstd::prelude::*;

verus! {

/// Temporary space needed by multiplication when the smaller factor has `n` words: Karatsuba
/// up to `MAX_LEN_KARATSUBA` words, Toom-Cook-3 above.
pub open spec fn toom_3_temp_len(n: nat) -> nat
    decreases n,
{
    if n <= MAX_LEN_KARATSUBA {
        karatsuba_temp_len(n)
    } else {
        8 * ((n + 2) / 3) + 8 + toom_3_temp_len((n + 2) / 3 + 1)
    }
}

/// The temporary space needed grows with the length.
pub proof fn lemma_toom_3_temp_len_mono(k: nat, m: nat)
    requires
        k <= m,
    ensures
        toom_3_temp_len(k) <= toom_3_temp_len(m),
    decreases m,
{
    if m <= MAX_LEN_KARATSUBA {
        lemma_karatsuba_temp_len_mono(k, m);
    } else if k <= MAX_LEN_KARATSUBA {
        lemma_karatsuba_temp_len_mono(k, MAX_LEN_KARATSUBA as nat);
        assert(karatsuba_temp_len(24) == 0);
        assert(karatsuba_temp_len(48) == 48);
        assert(karatsuba_temp_len(96) == 144);
        assert(karatsuba_temp_len(192) == 336);
    } else {
        lemma_toom_3_temp_len_mono((k + 2) / 3 + 1, (m + 2) / 3 + 1);
    }
}

/// The temporary space of Toom-Cook-3 multiplication is at most six times the length.
pub proof fn lemma_toom_3_temp_len_bound(n: nat)
    ensures
        toom_3_temp_len(n) <= 6 * n,
    decreases n,
{
    if n <= MAX_LEN_KARATSUBA {
        crate::karatsuba::lemma_karatsuba_temp_len_bound(n);
    } else {
        lemma_toom_3_temp_len_bound((n + 2) / 3 + 1);
    }
}

/// The number of Toom-Cook-3 levels above the Karatsuba ones for `n` words.
pub open spec fn toom_3_levels(n: nat) -> nat
    decreases n,
{
    if n <= MAX_LEN_KARATSUBA {
        0
    } else {
        1 + toom_3_levels((n + 2) / 3 + 1)
    }
}

/// Each level of Toom-Cook-3 costs at most 20 words beyond `4n`.
proof fn lemma_toom_3_temp_len_levels(n: nat)
    requires
        n > MAX_LEN_KARATSUBA,
    ensures
        toom_3_temp_len(n) + 116 <= 4 * n + 20 * toom_3_levels(n),
    decreases n,
{
    let n3 = (n + 2) / 3;
    let m = n3 + 1;
    assert(3 * n3 <= n + 2);
    assert(n3 >= 65);
    assert(toom_3_temp_len(n) == 8 * n3 + 8 + toom_3_temp_len(m));
    assert(toom_3_levels(n) == 1 + toom_3_levels(m));
    if m <= MAX_LEN_KARATSUBA {
        assert(toom_3_temp_len(m) == karatsuba_temp_len(m));
        assert(toom_3_levels(m) == 0);
        crate::karatsuba::lemma_karatsuba_temp_len_log_bound(m);
        vstd::arithmetic::power2::lemma2_to64();
        crate::karatsuba::lemma_ceil_log2_le(m, 8);
    } else {
        lemma_toom_3_temp_len_levels(m);
    }
}

/// `a <= b` gives `a^e <= b^e`.
proof fn lemma_pow_base_le(a: nat, b: nat, e: nat)
    requires
        1 <= a <= b,
    ensures
        vstd::arithmetic::power::pow(a as int, e) <= vstd::arithmetic::power::pow(b as int, e),
    decreases e,
{
    vstd::arithmetic::power::lemma_pow0(a as int);
    vstd::arithmetic::power::lemma_pow0(b as int);
    if e > 0 {
        lemma_pow_base_le(a, b, (e - 1) as nat);
        vstd::arithmetic::power::lemma_pow_adds(a as int, 1, (e - 1) as nat);
        vstd::arithmetic::power::lemma_pow_adds(b as int, 1, (e - 1) as nat);
        vstd::arithmetic::power::lemma_pow1(a as int);
        vstd::arithmetic::power::lemma_pow1(b as int);
        vstd::arithmetic::power::lemma_pow_positive(a as int, (e - 1) as nat);
        let pa = vstd::arithmetic::power::pow(a as int, (e - 1) as nat);
        let pb = vstd::arithmetic::power::pow(b as int, (e - 1) as nat);
        assert(a * pa <= b * pb) by (nonlinear_arith)
            requires
                0 <= a <= b,
                0 <= pa <= pb,
        ;
        assert(1 + (e - 1) as nat == e);
    }
}

/// The levels shrink the length by a factor of almost three, more than `2^(20/13)`:
/// `2^(20 levels) <= 2^116 n^13`.
proof fn lemma_toom_3_levels_pow(n: nat)
    requires
        n > MAX_LEN_KARATSUBA,
    ensures
        vstd::arithmetic::power2::pow2(20 * toom_3_levels(n)) <= vstd::arithmetic::power2::pow2(116)
            * vstd::arithmetic::power::pow(n as int, 13),
    decreases n,
{
    use_pow_facts(n);
    let m = (n + 2) / 3 + 1;
    let pn = vstd::arithmetic::power::pow(n as int, 13);
    let p116 = vstd::arithmetic::power2::pow2(116);
    assert(toom_3_levels(n) == 1 + toom_3_levels(m));
    if m <= MAX_LEN_KARATSUBA {
        assert(toom_3_levels(m) == 0);
        assert(toom_3_levels(n) == 1);
        vstd::arithmetic::power2::lemma_pow2_strictly_increases(20, 116);
        assert(vstd::arithmetic::power2::pow2(20) <= p116 * pn) by (nonlinear_arith)
            requires
                vstd::arithmetic::power2::pow2(20) < p116,
                pn >= 1,
        ;
    } else {
        lemma_toom_3_levels_pow(m);
        let lm = toom_3_levels(m);
        let pm = vstd::arithmetic::power::pow(m as int, 13);
        use_pow_facts(m);
        // 100 n >= 297 m, and 297^13 >= 2^20 100^13
        assert(100 * n >= 297 * m);
        lemma_pow_base_le(297 * m, 100 * n, 13);
        vstd::arithmetic::power::lemma_pow_distributes(297, m as int, 13);
        vstd::arithmetic::power::lemma_pow_distributes(100, n as int, 13);
        lemma_pow_constants();
        let c297 = vstd::arithmetic::power::pow(297, 13);
        let c100 = vstd::arithmetic::power::pow(100, 13);
        let p20 = vstd::arithmetic::power2::pow2(20);
        assert(p20 * pm <= pn) by (nonlinear_arith)
            requires
                c297 * pm <= c100 * pn,
                c297 >= p20 * c100,
                c100 > 0,
                pm >= 0,
        ;
        vstd::arithmetic::power2::lemma_pow2_adds(20, 20 * lm);
        assert(20 * toom_3_levels(n) == 20 + 20 * lm);
        let plm = vstd::arithmetic::power2::pow2(20 * lm);
        assert(p20 * plm <= p116 * pn) by (nonlinear_arith)
            requires
                plm <= p116 * pm,
                p20 * pm <= pn,
                p20 > 0,
                p116 > 0,
        ;
    }
}

/// Positivity of the powers used above.
proof fn use_pow_facts(n: nat)
    requires
        n > 0,
    ensures
        vstd::arithmetic::power::pow(n as int, 13) >= 1,
        vstd::arithmetic::power2::pow2(116) > 0,
        vstd::arithmetic::power2::pow2(20) > 0,
{
    vstd::arithmetic::power::lemma_pow_positive(n as int, 13);
    vstd::arithmetic::power2::lemma_pow2_pos(116);
    vstd::arithmetic::power2::lemma_pow2_pos(20);
}

/// `297^13 >= 2^20 100^13`.
proof fn lemma_pow_constants()
    ensures
        vstd::arithmetic::power::pow(297, 13) >= vstd::arithmetic::power2::pow2(20)
            * vstd::arithmetic::power::pow(100, 13),
        vstd::arithmetic::power::pow(100, 13) > 0,
{
    reveal_with_fuel(vstd::arithmetic::power::pow, 14);
    vstd::arithmetic::power2::lemma2_to64();
    assert(vstd::arithmetic::power::pow(297, 13) == 139905194995078363929650377085577);
    assert(vstd::arithmetic::power::pow(100, 13) == 100000000000000000000000000);
}

/// The temporary space of multiplication is at most `4n + 13 ceil(log2 n)` words.
pub proof fn lemma_toom_3_temp_len_log_bound(n: nat)
    ensures
        toom_3_temp_len(n) <= 4 * n + 13 * crate::karatsuba::ceil_log2(n),
{
    let k = crate::karatsuba::ceil_log2(n);
    if n <= MAX_LEN_KARATSUBA {
        crate::karatsuba::lemma_karatsuba_temp_len_log_bound(n);
    } else {
        lemma_toom_3_temp_len_levels(n);
        lemma_toom_3_levels_pow(n);
        crate::karatsuba::lemma_ceil_log2_covers(n);
        let p2k = vstd::arithmetic::power2::pow2(k);
        lemma_pow_base_le(n, p2k, 13);
        vstd::arithmetic::power2::lemma_pow2(k);
        vstd::arithmetic::power::lemma_pow_multiplies(2, k, 13);
        vstd::arithmetic::power2::lemma_pow2(k * 13);
        vstd::arithmetic::power2::lemma_pow2_adds(116, k * 13);
        let l = toom_3_levels(n);
        // 2^(20 l) <= 2^116 n^13 <= 2^(116 + 13 k)
        let pn = vstd::arithmetic::power::pow(n as int, 13);
        let pk = vstd::arithmetic::power::pow(p2k as int, 13);
        use_pow_facts(n);
        assert(vstd::arithmetic::power2::pow2(116) * pn <= vstd::arithmetic::power2::pow2(116) * pk)
            by (nonlinear_arith)
            requires
                pn <= pk,
                vstd::arithmetic::power2::pow2(116) > 0,
        ;
        if 20 * l > 116 + k * 13 {
            vstd::arithmetic::power2::lemma_pow2_strictly_increases(116 + k * 13, 20 * l);
        }
    }
}

/// `dst = x0 + 2 x1 + 4 x2`: a polynomial evaluated at 2.
fn eval_at_two(dst: &mut [Word], x0: &[Word], x1: &[Word], x2: &[Word])
    requires
        x0@.len() == x1@.len(),
        x2@.len() <= x0@.len(),
        old(dst)@.len() == x0@.len() + 1,
    ensures
        final(dst)@.len() == old(dst)@.len(),
        to_nat(final(dst)@) == to_nat(x0@) + 2 * to_nat(x1@) + 4 * to_nat(x2@),
{
    let n = x0.len();
    let ghost (v0, v1, v2) = (to_nat(x0@), to_nat(x1@), to_nat(x2@));
    let (lo, hi) = dst.split_at_mut(n);
    copy_words(lo, x0);
    let c1 = add_mul_word_same_len_in_place(lo, 2, x1);
    let ghost lo1 = lo@;
    let ghost l1 = to_nat(lo@);
    let c2 = add_mul_word_in_place(lo, 4, x2);
    proof {
        let p = pow_base(n as nat) as int;
        lemma_to_nat_bound(x0@);
        lemma_to_nat_bound(x1@);
        lemma_to_nat_bound(x2@);
        lemma_to_nat_bound(lo@);
        lemma_to_nat_bound(lo1);
        crate::value::lemma_pow_base_mono(x2@.len(), n as nat);
        assert(c1 <= 2) by (nonlinear_arith)
            requires
                l1 + c1 * p == v0 + 2 * v1,
                v0 < p,
                v1 < p,
                l1 >= 0,
        ;
        assert(c2 <= 4) by (nonlinear_arith)
            requires
                to_nat(lo@) + c2 * p == l1 + 4 * v2,
                l1 < p,
                v2 < p,
                to_nat(lo@) >= 0,
        ;
    }
    hi[0] = c1 + c2;
    proof {
        let p = pow_base(n as nat) as int;
        assert(dst@ =~= lo@ + seq![(c1 + c2) as Word]);
        crate::value::lemma_to_nat_append(lo@, seq![(c1 + c2) as Word]);
        crate::value::lemma_to_nat_single((c1 + c2) as Word);
        assert(p * (c1 + c2) == c1 * p + c2 * p) by (nonlinear_arith);
    }
}

/// `dst02 = x0 + x2` and `dst = x0 + x1 + x2`: a polynomial evaluated at 1.
fn eval_at_one(dst02: &mut [Word], dst: &mut [Word], x0: &[Word], x1: &[Word], x2: &[Word])
    requires
        x0@.len() == x1@.len(),
        x2@.len() <= x0@.len(),
        old(dst02)@.len() == x0@.len() + 1,
        old(dst)@.len() == x0@.len() + 1,
    ensures
        final(dst02)@.len() == old(dst02)@.len(),
        final(dst)@.len() == old(dst)@.len(),
        to_nat(final(dst02)@) == to_nat(x0@) + to_nat(x2@),
        to_nat(final(dst)@) == to_nat(x0@) + to_nat(x1@) + to_nat(x2@),
{
    let n = x0.len();
    let ghost (v0, v1, v2) = (to_nat(x0@), to_nat(x1@), to_nat(x2@));
    proof {
        lemma_to_nat_bound(x0@);
        lemma_to_nat_bound(x1@);
        lemma_to_nat_bound(x2@);
        crate::value::lemma_pow_base_mono(x2@.len(), n as nat);
    }
    {
        let (lo, hi) = dst02.split_at_mut(n);
        copy_words(lo, x0);
        let c = add_in_place(lo, x2);
        let top: Word = if c {
            1
        } else {
            0
        };
        hi[0] = top;
        proof {
            assert(dst02@ =~= lo@ + seq![top]);
            crate::value::lemma_to_nat_append(lo@, seq![top]);
            crate::value::lemma_to_nat_single(top);
            assert(pow_base(n as nat) * top == (if c { pow_base(n as nat) } else { 0 })) by (
            nonlinear_arith)
                requires
                    top == (if c { 1int } else { 0 }),
            ;
        }
    }
    copy_words(dst, dst02);
    let ghost d0 = dst@;
    let (lo, hi) = dst.split_at_mut(n);
    let ghost l0 = to_nat(lo@);
    let c = add_same_len_in_place(lo, x1);
    proof {
        let p = pow_base(n as nat) as int;
        crate::value::lemma_to_nat_split(d0, n as int);
        assert(d0.take(n as int) =~= d0.subrange(0, n as int));
        assert(d0.skip(n as int) =~= seq![d0[n as int]]);
        crate::value::lemma_to_nat_single(d0[n as int]);
        lemma_to_nat_bound(lo@);
        // the top word of x0 + x2 is at most 1, and the sum has no room for a second carry
        assert(d0[n as int] <= 1) by (nonlinear_arith)
            requires
                l0 + p * d0[n as int] == v0 + v2,
                v0 < p,
                v2 < p,
                l0 >= 0,
        ;
    }
    let t = hi[0];
    hi[0] = t + if c {
        1
    } else {
        0
    };
    proof {
        let p = pow_base(n as nat) as int;
        let top = hi@[0];
        assert(dst@ =~= lo@ + seq![top]);
        crate::value::lemma_to_nat_append(lo@, seq![top]);
        crate::value::lemma_to_nat_single(top);
        assert(p * top == p * t + (if c { p } else { 0 })) by (nonlinear_arith)
            requires
                top == t + (if c { 1int } else { 0 }),
        ;
    }
}

/// c += sign * a * b, for factors of the same length: the simple method, Karatsuba or
/// Toom-Cook-3 depending on the length.
///
/// Returns carry.
pub fn add_signed_mul_same_len(
    c: &mut [Word],
    sign: Sign,
    a: &[Word],
    b: &[Word],
    temp: &mut [Word],
) -> (r: SignedWord)
    requires
        a@.len() == b@.len(),
        old(c)@.len() == 2 * a@.len(),
        old(temp)@.len() >= toom_3_temp_len(a@.len()),
    ensures
        final(c)@.len() == old(c)@.len(),
        final(temp)@.len() == old(temp)@.len(),
        -1 <= r <= 1,
        to_nat(final(c)@) + r * pow_base(old(c)@.len()) == to_nat(old(c)@) + sign.factor() * (
        to_nat(a@) * to_nat(b@)),
    decreases 8 * a@.len() + 6,
{
    let n = a.len();
    if n <= MAX_LEN_SIMPLE {
        add_signed_mul_simple(c, sign, a, b)
    } else if n <= MAX_LEN_KARATSUBA {
        add_signed_mul_karatsuba_same_len(c, sign, a, b, temp)
    } else {
        add_signed_mul_toom_3_same_len(c, sign, a, b, temp)
    }
}

/// c = a * b, for factors of the same length.
/// Toom-Cook-3 method: O(n^1.47).
pub fn mul_toom_3_same_len(c: &mut [Word], a: &[Word], b: &[Word], temp: &mut [Word])
    requires
        a@.len() == b@.len(),
        old(c)@.len() == 2 * a@.len(),
        old(temp)@.len() >= toom_3_temp_len(a@.len()),
    ensures
        final(c)@.len() == old(c)@.len(),
        final(temp)@.len() == old(temp)@.len(),
        to_nat(final(c)@) == to_nat(a@) * to_nat(b@),
    decreases 8 * a@.len() + 6,
{
    let n = c.len();
    let mut i: usize = 0;
    while i < n
        invariant
            0 <= i <= n,
            n == c@.len(),
            forall|j: int| 0 <= j < i ==> c@[j] == 0,
        decreases n - i,
    {
        c[i] = 0;
        i += 1;
    }
    proof {
        assert(c@ =~= crate::value::zeros(n as nat));
        crate::value::lemma_to_nat_zeros(n as nat);
    }
    let overflow = add_signed_mul_toom_3_same_len(c, Sign::Positive, a, b, temp);
    proof {
        let ab = to_nat(a@) * to_nat(b@);
        lemma_product_bound(a@, b@);
        lemma_to_nat_bound(c@);
        let p = pow_base(n as nat) as int;
        assert(1 * ab == ab);
        lemma_no_overflow(to_nat(c@) as int, overflow as int, p, ab as int);
    }
}

/// A carry out of a value in range is zero.
proof fn lemma_no_overflow(v: int, r: int, p: int, x: int)
    requires
        0 <= v < p,
        0 <= x < p,
        v + r * p == x,
    ensures
        r == 0,
{
    if r > 0 {
        assert(r * p >= p) by (nonlinear_arith)
            requires
                r >= 1,
                p > 0,
        ;
    } else if r < 0 {
        assert(r * p <= -p) by (nonlinear_arith)
            requires
                r <= -1,
                p > 0,
        ;
    }
}

/// The values of the product polynomial `(a0 + a1 x + a2 x^2) (b0 + b1 x + b2 x^2)` at the
/// points used by Toom-Cook-3, in terms of its coefficients.
proof fn lemma_toom_3_points(a0: int, a1: int, a2: int, b0: int, b1: int, b2: int)
    ensures
        (a0 + a1 + a2) * (b0 + b1 + b2) == a0 * b0 + (a0 * b1 + a1 * b0) + (a0 * b2 + a1 * b1
            + a2 * b0) + (a1 * b2 + a2 * b1) + a2 * b2,
        (a0 - a1 + a2) * (b0 - b1 + b2) == a0 * b0 - (a0 * b1 + a1 * b0) + (a0 * b2 + a1 * b1
            + a2 * b0) - (a1 * b2 + a2 * b1) + a2 * b2,
        (a0 + 2 * a1 + 4 * a2) * (b0 + 2 * b1 + 4 * b2) == a0 * b0 + 2 * (a0 * b1 + a1 * b0) + 4
            * (a0 * b2 + a1 * b1 + a2 * b0) + 8 * (a1 * b2 + a2 * b1) + 16 * (a2 * b2),
{
    let sp = b0 + b1 + b2;
    let sm = b0 - b1 + b2;
    let s2 = b0 + 2 * b1 + 4 * b2;
    assert((a0 + a1 + a2) * sp == a0 * sp + a1 * sp + a2 * sp) by (nonlinear_arith);
    assert(a0 * sp == a0 * b0 + a0 * b1 + a0 * b2) by (nonlinear_arith)
        requires
            sp == b0 + b1 + b2,
    ;
    assert(a1 * sp == a1 * b0 + a1 * b1 + a1 * b2) by (nonlinear_arith)
        requires
            sp == b0 + b1 + b2,
    ;
    assert(a2 * sp == a2 * b0 + a2 * b1 + a2 * b2) by (nonlinear_arith)
        requires
            sp == b0 + b1 + b2,
    ;
    assert((a0 - a1 + a2) * sm == a0 * sm - a1 * sm + a2 * sm) by (nonlinear_arith);
    assert(a0 * sm == a0 * b0 - a0 * b1 + a0 * b2) by (nonlinear_arith)
        requires
            sm == b0 - b1 + b2,
    ;
    assert(a1 * sm == a1 * b0 - a1 * b1 + a1 * b2) by (nonlinear_arith)
        requires
            sm == b0 - b1 + b2,
    ;
    assert(a2 * sm == a2 * b0 - a2 * b1 + a2 * b2) by (nonlinear_arith)
        requires
            sm == b0 - b1 + b2,
    ;
    assert((a0 + 2 * a1 + 4 * a2) * s2 == a0 * s2 + 2 * (a1 * s2) + 4 * (a2 * s2)) by (
    nonlinear_arith);
    assert(a0 * s2 == a0 * b0 + 2 * (a0 * b1) + 4 * (a0 * b2)) by (nonlinear_arith)
        requires
            s2 == b0 + 2 * b1 + 4 * b2,
    ;
    assert(a1 * s2 == a1 * b0 + 2 * (a1 * b1) + 4 * (a1 * b2)) by (nonlinear_arith)
        requires
            s2 == b0 + 2 * b1 + 4 * b2,
    ;
    assert(a2 * s2 == a2 * b0 + 2 * (a2 * b1) + 4 * (a2 * b2)) by (nonlinear_arith)
        requires
            s2 == b0 + 2 * b1 + 4 * b2,
    ;
}

/// The product of two numbers of three parts, in terms of the coefficients of the product
/// polynomial.
proof fn lemma_toom_3_product(
    a0: int,
    a1: int,
    a2: int,
    b0: int,
    b1: int,
    b2: int,
    p1: int,
    p2: int,
    p3: int,
    p4: int,
)
    requires
        p2 == p1 * p1,
        p3 == p1 * p2,
        p4 == p1 * p3,
    ensures
        (a0 + p1 * a1 + p2 * a2) * (b0 + p1 * b1 + p2 * b2) == a0 * b0 + p1 * (a0 * b1 + a1 * b0)
            + p2 * (a0 * b2 + a1 * b1 + a2 * b0) + p3 * (a1 * b2 + a2 * b1) + p4 * (a2 * b2),
{
    let sb = b0 + p1 * b1 + p2 * b2;
    assert((a0 + p1 * a1 + p2 * a2) * sb == a0 * sb + p1 * (a1 * sb) + p2 * (a2 * sb)) by (
    nonlinear_arith);
    assert(a0 * sb == a0 * b0 + p1 * (a0 * b1) + p2 * (a0 * b2)) by (nonlinear_arith)
        requires
            sb == b0 + p1 * b1 + p2 * b2,
    ;
    assert(a1 * sb == a1 * b0 + p1 * (a1 * b1) + p2 * (a1 * b2)) by (nonlinear_arith)
        requires
            sb == b0 + p1 * b1 + p2 * b2,
    ;
    assert(a2 * sb == a2 * b0 + p1 * (a2 * b1) + p2 * (a2 * b2)) by (nonlinear_arith)
        requires
            sb == b0 + p1 * b1 + p2 * b2,
    ;
    let (x1, x2, x3, x4, x5, x6) = (a1 * b0, a1 * b1, a1 * b2, a2 * b0, a2 * b1, a2 * b2);
    assert(p1 * (x1 + p1 * x2 + p2 * x3) == p1 * x1 + p2 * x2 + p3 * x3) by (nonlinear_arith)
        requires
            p2 == p1 * p1,
            p3 == p1 * p2,
    ;
    assert(p2 * (x4 + p1 * x5 + p2 * x6) == p2 * x4 + p3 * x5 + p4 * x6) by (nonlinear_arith)
        requires
            p2 == p1 * p1,
            p3 == p1 * p2,
            p4 == p1 * p3,
    ;
    assert(p1 * (a0 * b1) + p1 * x1 == p1 * (a0 * b1 + x1)) by (nonlinear_arith);
    assert(p2 * (a0 * b2) + p2 * x2 + p2 * x4 == p2 * (a0 * b2 + x2 + x4)) by (nonlinear_arith);
    assert(p3 * x3 + p3 * x5 == p3 * (x3 + x5)) by (nonlinear_arith);
}

/// Summing up the updates of `c` made by one Toom-Cook-3 step.
proof fn lemma_toom_3_sum(
    c0: int,
    c1: int,
    c2: int,
    c3: int,
    c4: int,
    k0: int,
    k1: int,
    k2: int,
    k3: int,
    k4: int,
    r: int,
    s: int,
    v0: int,
    vinf: int,
    v1: int,
    t1: int,
    t2: int,
    p1: int,
    p2: int,
    p3: int,
    p4: int,
    q3: int,
    q4: int,
    pn: int,
)
    requires
        c1 + k0 * p2 + k1 * q4 == c0 + s * v0 - p2 * (s * v0),
        c2 + k2 * q4 + k3 * pn == c1 - p2 * (s * vinf) + p4 * (s * vinf),
        c3 + k4 * q3 == c2 + p1 * (s * v1),
        c4 + r * pn == c3 + k0 * p2 + (k1 + k2) * q4 + k3 * pn + k4 * q3 - p1 * (s * t1) + p3 * (s
            * t1) + p2 * (s * t2) - p3 * (s * t2),
    ensures
        c4 + r * pn == c0 + s * (v0 + p1 * (v1 - t1) + p2 * (t2 - v0 - vinf) + p3 * (t1 - t2) + p4
            * vinf),
{
    assert((k1 + k2) * q4 == k1 * q4 + k2 * q4) by (nonlinear_arith);
    let (d1, d2, d3) = (v1 - t1, t2 - v0 - vinf, t1 - t2);
    assert(s * (v0 + p1 * d1 + p2 * d2 + p3 * d3 + p4 * vinf) == s * v0 + s * (p1 * d1) + s * (p2
        * d2) + s * (p3 * d3) + s * (p4 * vinf)) by (nonlinear_arith);
    assert(s * (p1 * d1) == p1 * (s * v1) - p1 * (s * t1)) by (nonlinear_arith)
        requires
            d1 == v1 - t1,
    ;
    assert(s * (p2 * d2) == p2 * (s * t2) - p2 * (s * v0) - p2 * (s * vinf)) by (nonlinear_arith)
        requires
            d2 == t2 - v0 - vinf,
    ;
    assert(s * (p3 * d3) == p3 * (s * t1) - p3 * (s * t2)) by (nonlinear_arith)
        requires
            d3 == t1 - t2,
    ;
    assert(s * (p4 * vinf) == p4 * (s * vinf)) by (nonlinear_arith);
}

/// Evaluation at 0: `V(0) = a0 b0` is added to `c` at position 0 and subtracted at position
/// `2m`, and `t1 = 3 V(0)`.
///
/// Returns the carries out at positions `2m` and `4m + 2`.
fn toom_3_at_zero(
    c: &mut [Word],
    sign: Sign,
    a0: &[Word],
    b0: &[Word],
    t1: &mut [Word],
    temp: &mut [Word],
) -> (k: (SignedWord, SignedWord))
    requires
        a0@.len() == b0@.len(),
        old(c)@.len() >= 4 * a0@.len() + 2,
        old(t1)@.len() == 2 * a0@.len() + 2,
        old(temp)@.len() >= toom_3_temp_len(a0@.len()),
    ensures
        final(c)@.len() == old(c)@.len(),
        final(t1)@.len() == old(t1)@.len(),
        final(temp)@.len() == old(temp)@.len(),
        -1 <= k.0 <= 1,
        -1 <= k.1 <= 1,
        to_nat(final(t1)@) == 3 * (to_nat(a0@) * to_nat(b0@)),
        to_nat(final(c)@) + k.0 * pow_base((2 * a0@.len()) as nat) + k.1 * pow_base(
            (4 * a0@.len() + 2) as nat,
        ) == to_nat(old(c)@) + sign.factor() * (to_nat(a0@) * to_nat(b0@)) - pow_base(
            (2 * a0@.len()) as nat,
        ) * (sign.factor() * (to_nat(a0@) * to_nat(b0@))),
    decreases 8 * a0@.len() + 15,
{
    let m = a0.len();
    let _t1_len = t1.len();
    let _c_len = c.len();
    let ghost v0 = to_nat(a0@) * to_nat(b0@);
    let ghost s = sign.factor();
    let ghost cv0 = to_nat(c@) as int;
    let ghost cv1: int;
    let ghost t1s: Seq<Word>;
    let (k0, k1, top) = {
        let (t1_short, t1_top) = t1.split_at_mut(2 * m);
        mul_toom_3_same_len(t1_short, a0, b0, temp);
        let k0 = add_signed_at(c, 0, 2 * m, sign, t1_short);
        proof {
            cv1 = to_nat(c@) as int;
        }
        let k1 = add_signed_at(c, 2 * m, 4 * m + 2, sign.negate(), t1_short);
        let top = mul_word_in_place(t1_short, 3);
        t1_top[0] = top;
        t1_top[1] = 0;
        proof {
            t1s = t1_short@;
        }
        (k0, k1, top)
    };
    proof {
        let p2 = pow_base((2 * m) as nat) as int;
        assert(pow_base(0) == 1);
        assert(t1@ =~= t1s + seq![top, 0u64]);
        crate::value::lemma_to_nat_append(t1s, seq![top, 0u64]);
        assert(seq![top, 0u64] =~= seq![top].push(0u64));
        crate::value::lemma_to_nat_push(seq![top], 0u64);
        crate::value::lemma_to_nat_single(top);
        assert((0u64 as nat) * pow_base(1) == 0) by (nonlinear_arith);
        assert(to_nat(seq![top].push(0u64)) == top);
        assert(to_nat(seq![top, 0u64]) == top);
        assert(t1s.len() == 2 * m);
        assert(to_nat(t1@) == to_nat(t1s) + p2 * top);
        assert(to_nat(t1@) == 3 * v0) by (nonlinear_arith)
            requires
                to_nat(t1@) == to_nat(t1s) + p2 * top,
                to_nat(t1s) + top * p2 == v0 * 3,
        ;
        assert(p2 * (-s * v0) == -(p2 * (s * v0))) by (nonlinear_arith);
    }
    (k0, k1)
}

/// Evaluation at 2: `t1 += V(2)` where `V(2) = (a0 + 2 a1 + 4 a2) (b0 + 2 b1 + 4 b2)`.
fn toom_3_at_two(
    t1: &mut [Word],
    a_eval: &mut [Word],
    b_eval: &mut [Word],
    a0: &[Word],
    a1: &[Word],
    a2: &[Word],
    b0: &[Word],
    b1: &[Word],
    b2: &[Word],
    temp: &mut [Word],
)
    requires
        a1@.len() == a0@.len(),
        b0@.len() == a0@.len(),
        b1@.len() == a0@.len(),
        a2@.len() <= a0@.len(),
        b2@.len() <= a0@.len(),
        old(a_eval)@.len() == a0@.len() + 1,
        old(b_eval)@.len() == a0@.len() + 1,
        old(t1)@.len() == 2 * a0@.len() + 2,
        to_nat(old(t1)@) == 3 * (to_nat(a0@) * to_nat(b0@)),
        old(temp)@.len() >= toom_3_temp_len(a0@.len() + 1),
    ensures
        final(t1)@.len() == old(t1)@.len(),
        final(a_eval)@.len() == old(a_eval)@.len(),
        final(b_eval)@.len() == old(b_eval)@.len(),
        final(temp)@.len() == old(temp)@.len(),
        to_nat(final(t1)@) == 3 * (to_nat(a0@) * to_nat(b0@)) + (to_nat(a0@) + 2 * to_nat(a1@) + 4
            * to_nat(a2@)) * (to_nat(b0@) + 2 * to_nat(b1@) + 4 * to_nat(b2@)),
    decreases 8 * a0@.len() + 15,
{
    let m = a0.len();
    eval_at_two(a_eval, a0, a1, a2);
    eval_at_two(b_eval, b0, b1, b2);
    let overflow = add_signed_mul_toom_3_same_len(t1, Sign::Positive, a_eval, b_eval, temp);
    proof {
        let (x0, x1, x2) = (to_nat(a0@) as int, to_nat(a1@) as int, to_nat(a2@) as int);
        let (y0, y1, y2) = (to_nat(b0@) as int, to_nat(b1@) as int, to_nat(b2@) as int);
        let v2 = (x0 + 2 * x1 + 4 * x2) * (y0 + 2 * y1 + 4 * y2);
        lemma_toom_3_pow(m as nat);
        lemma_toom_3_parts(a0@, a1@, a2@, b0@, b1@, b2@, m as nat);
        lemma_to_nat_bound(t1@);
        assert(1 * v2 == v2);
        lemma_no_overflow(
            to_nat(t1@) as int,
            overflow as int,
            pow_base((2 * m + 2) as nat) as int,
            3 * (x0 * y0) + v2,
        );
    }
}

/// Evaluation at infinity: `V(inf) = a2 b2` is subtracted from `c` at position `2m` and added at
/// position `4m`, and `t1 -= 12 V(inf)`.
///
/// Returns the carries out at positions `4m + 2` and the end of `c`.
fn toom_3_at_infinity(
    c: &mut [Word],
    sign: Sign,
    a2: &[Word],
    b2: &[Word],
    c_eval: &mut [Word],
    t1: &mut [Word],
    m: usize,
    temp: &mut [Word],
) -> (k: (SignedWord, SignedWord))
    requires
        a2@.len() == b2@.len(),
        a2@.len() <= m,
        old(c)@.len() == 4 * m + 2 * a2@.len(),
        4 * m + 2 <= old(c)@.len(),
        old(c_eval)@.len() == 2 * m + 2,
        old(t1)@.len() == 2 * m + 2,
        to_nat(old(t1)@) >= 12 * (to_nat(a2@) * to_nat(b2@)),
        old(temp)@.len() >= toom_3_temp_len(a2@.len()),
    ensures
        final(c)@.len() == old(c)@.len(),
        final(c_eval)@.len() == old(c_eval)@.len(),
        final(t1)@.len() == old(t1)@.len(),
        final(temp)@.len() == old(temp)@.len(),
        -1 <= k.0 <= 1,
        -1 <= k.1 <= 1,
        to_nat(final(t1)@) == to_nat(old(t1)@) - 12 * (to_nat(a2@) * to_nat(b2@)),
        to_nat(final(c)@) + k.0 * pow_base((4 * m + 2) as nat) + k.1 * pow_base(old(c)@.len())
            == to_nat(old(c)@) - pow_base((2 * m) as nat) * (sign.factor() * (to_nat(a2@) * to_nat(
            b2@))) + pow_base((4 * m) as nat) * (sign.factor() * (to_nat(a2@) * to_nat(b2@))),
    decreases 8 * m + 15,
{
    let ms = a2.len();
    let c_len = c.len();
    let ghost vinf = to_nat(a2@) * to_nat(b2@);
    let ghost s = sign.factor();
    let ghost t1v = to_nat(t1@);
    let ghost ces: Seq<Word>;
    let (k2, k3, top) = {
        let (c_eval_short, c_eval_rest) = c_eval.split_at_mut(2 * ms);
        mul_toom_3_same_len(c_eval_short, a2, b2, temp);
        let k2 = add_signed_at(c, 2 * m, 4 * m + 2, sign.negate(), c_eval_short);
        let k3 = add_signed_at(c, 4 * m, c_len, sign, c_eval_short);
        let top = mul_word_in_place(c_eval_short, 12);
        c_eval_rest[0] = top;
        proof {
            ces = c_eval_short@;
        }
        (k2, k3, top)
    };
    proof {
        let cs = c_eval@.subrange(0, 2 * ms + 1);
        assert(cs =~= ces.push(top));
        crate::value::lemma_to_nat_push(ces, top);
        assert(to_nat(cs) == vinf * 12);
        let p2 = pow_base((2 * m) as nat) as int;
        assert(p2 * (-s * vinf) == -(p2 * (s * vinf))) by (nonlinear_arith);
    }
    let borrow = sub_in_place(t1, vstd::slice::slice_subrange(c_eval, 0, 2 * ms + 1));
    proof {
        lemma_to_nat_bound(t1@);
        if borrow {
            assert(false);
        }
    }
    (k2, k3)
}

/// Evaluation at 1: `t2 = V(1) = (a0 + a1 + a2) (b0 + b1 + b2)` is added to `c` at position `m`;
/// then `a_eval`, `b_eval` and the returned sign give `V(-1) = (a0 - a1 + a2) (b0 - b1 + b2)`.
///
/// Returns the carry out at position `3m + 2`, and the sign of `V(-1)`.
fn toom_3_at_one(
    c: &mut [Word],
    sign: Sign,
    a_eval: &mut [Word],
    b_eval: &mut [Word],
    c_eval: &mut [Word],
    t2: &mut [Word],
    a0: &[Word],
    a1: &[Word],
    a2: &[Word],
    b0: &[Word],
    b1: &[Word],
    b2: &[Word],
    temp: &mut [Word],
) -> (r: (SignedWord, Sign))
    requires
        a1@.len() == a0@.len(),
        b0@.len() == a0@.len(),
        b1@.len() == a0@.len(),
        a2@.len() <= a0@.len(),
        b2@.len() <= a0@.len(),
        old(a_eval)@.len() == a0@.len() + 1,
        old(b_eval)@.len() == a0@.len() + 1,
        old(c_eval)@.len() == 2 * a0@.len() + 2,
        old(t2)@.len() == 2 * a0@.len() + 2,
        old(c)@.len() >= 3 * a0@.len() + 2,
        old(temp)@.len() >= toom_3_temp_len(a0@.len() + 1),
    ensures
        final(c)@.len() == old(c)@.len(),
        final(a_eval)@.len() == old(a_eval)@.len(),
        final(b_eval)@.len() == old(b_eval)@.len(),
        final(c_eval)@.len() == old(c_eval)@.len(),
        final(t2)@.len() == old(t2)@.len(),
        final(temp)@.len() == old(temp)@.len(),
        -1 <= r.0 <= 1,
        to_nat(final(t2)@) == (to_nat(a0@) + to_nat(a1@) + to_nat(a2@)) * (to_nat(b0@) + to_nat(
            b1@) + to_nat(b2@)),
        to_nat(final(c)@) + r.0 * pow_base((3 * a0@.len() + 2) as nat) == to_nat(old(c)@)
            + pow_base(a0@.len() as nat) * (sign.factor() * to_nat(final(t2)@)),
        r.1.factor() * (to_nat(final(a_eval)@) * to_nat(final(b_eval)@)) == (to_nat(a0@) - to_nat(
            a1@) + to_nat(a2@)) * (to_nat(b0@) - to_nat(b1@) + to_nat(b2@)),
    decreases 8 * a0@.len() + 15,
{
    let m = a0.len();
    let _c_len = c.len();
    let _t2_len = t2.len();
    // Temporarily repurpose c_eval space for a0+a2, b0+b2
    let (a02, b02) = c_eval.split_at_mut(m + 1);
    eval_at_one(a02, a_eval, a0, a1, a2);
    eval_at_one(b02, b_eval, b0, b1, b2);
    mul_toom_3_same_len(t2, a_eval, b_eval, temp);
    let k4 = add_signed_at(c, m, 3 * m + 2, sign, t2);
    copy_words(a_eval, a02);
    let sa = sub_in_place_with_sign(a_eval, a1);
    copy_words(b_eval, b02);
    let sb = sub_in_place_with_sign(b_eval, b1);
    let sm = sa.mul(sb);
    proof {
        let ma = to_nat(a_eval@) as int;
        let mb = to_nat(b_eval@) as int;
        lemma_sign_diff(sa, ma, (to_nat(a0@) + to_nat(a2@)) as int, to_nat(a1@) as int);
        lemma_sign_diff(sb, mb, (to_nat(b0@) + to_nat(b2@)) as int, to_nat(b1@) as int);
        let fa = sa.factor();
        let fb = sb.factor();
        assert((fa * fb) * (ma * mb) == (fa * ma) * (fb * mb)) by (nonlinear_arith);
    }
    (k4, sm)
}

/// Evaluation at -1: with `V(-1)` given by the sign and the magnitudes in `a_eval` and `b_eval`,
/// `t2 += V(-1)` and `t1 += 2 V(-1)`.
fn toom_3_at_minus_one(
    t1: &mut [Word],
    t2: &mut [Word],
    c_eval: &mut [Word],
    a_eval: &[Word],
    b_eval: &[Word],
    value_neg1_sign: Sign,
    Ghost(vm1): Ghost<int>,
    temp: &mut [Word],
)
    requires
        a_eval@.len() == b_eval@.len(),
        old(c_eval)@.len() == 2 * a_eval@.len(),
        old(t1)@.len() == 2 * a_eval@.len(),
        old(t2)@.len() == 2 * a_eval@.len(),
        value_neg1_sign.factor() * (to_nat(a_eval@) * to_nat(b_eval@)) == vm1,
        0 <= to_nat(old(t2)@) + vm1 < pow_base((2 * a_eval@.len()) as nat),
        0 <= to_nat(old(t1)@) + 2 * vm1 < pow_base((2 * a_eval@.len()) as nat),
        old(temp)@.len() >= toom_3_temp_len(a_eval@.len()),
    ensures
        final(t1)@.len() == old(t1)@.len(),
        final(t2)@.len() == old(t2)@.len(),
        final(c_eval)@.len() == old(c_eval)@.len(),
        final(temp)@.len() == old(temp)@.len(),
        to_nat(final(t2)@) == to_nat(old(t2)@) + vm1,
        to_nat(final(t1)@) == to_nat(old(t1)@) + 2 * vm1,
    decreases 8 * a_eval@.len() + 7,
{
    let ghost pl = pow_base(t1@.len()) as int;
    mul_toom_3_same_len(c_eval, a_eval, b_eval, temp);
    let overflow = add_signed_same_len_in_place(t2, value_neg1_sign, c_eval);
    proof {
        lemma_to_nat_bound(t2@);
        lemma_no_overflow(to_nat(t2@) as int, overflow as int, pl, to_nat(old(t2)@) + vm1);
    }
    let ghost t1before = to_nat(t1@) as int;
    match value_neg1_sign {
        Sign::Positive => {
            let overflow = add_mul_word_same_len_in_place(t1, 2, c_eval);
            proof {
                lemma_to_nat_bound(t1@);
                lemma_no_overflow(to_nat(t1@) as int, overflow as int, pl, t1before + 2 * vm1);
            }
        },
        Sign::Negative => {
            let overflow = sub_mul_word_same_len_in_place(t1, 2, c_eval);
            proof {
                lemma_to_nat_bound(t1@);
                assert(-(overflow as int) * pl == -(overflow * pl)) by (nonlinear_arith);
                lemma_no_overflow(to_nat(t1@) as int, -(overflow as int), pl, t1before + 2 * vm1);
            }
        },
    }
}

/// Adds the interpolated coefficients to `c` (`c_1 -= t1`, `c_3 += t1`, `c_2 += t2`,
/// `c_3 -= t2`), then the pending carries `k0` at `2m`, `k1 + k2` at `4m + 2`, `k4` at
/// `3m + 2`, propagating them; `k3` is the pending carry out of the end of `c`.
///
/// Returns the carry out of the end of `c`.
fn toom_3_apply(
    c: &mut [Word],
    sign: Sign,
    t1: &[Word],
    t2: &[Word],
    m: usize,
    k0: SignedWord,
    k1: SignedWord,
    k2: SignedWord,
    k3: SignedWord,
    k4: SignedWord,
) -> (r: SignedWord)
    requires
        old(c)@.len() >= 5 * m + 2,
        t1@.len() == 2 * m + 2,
        t2@.len() == 2 * m + 2,
        -1 <= k0 <= 1,
        -1 <= k1 <= 1,
        -1 <= k2 <= 1,
        -1 <= k3 <= 1,
        -1 <= k4 <= 1,
    ensures
        final(c)@.len() == old(c)@.len(),
        to_nat(final(c)@) + r * pow_base(old(c)@.len()) == to_nat(old(c)@) + k0 * pow_base(
            (2 * m) as nat,
        ) + (k1 + k2) * pow_base((4 * m + 2) as nat) + k3 * pow_base(old(c)@.len()) + k4
            * pow_base((3 * m + 2) as nat) - pow_base(m as nat) * (sign.factor() * to_nat(t1@))
            + pow_base((3 * m) as nat) * (sign.factor() * to_nat(t1@)) + pow_base((2 * m) as nat)
            * (sign.factor() * to_nat(t2@)) - pow_base((3 * m) as nat) * (sign.factor() * to_nat(
            t2@)),
{
    let c_len = c.len();
    let ghost s = sign.factor();
    let ghost (tv1, tv2) = (to_nat(t1@) as int, to_nat(t2@) as int);
    let ghost cv0 = to_nat(c@) as int;
    let k5 = add_signed_at(c, m, 3 * m + 2, sign.negate(), t1);
    let ghost cv1 = to_nat(c@) as int;
    let k6 = add_signed_at(c, 3 * m, 5 * m + 2, sign, t1);
    let ghost cv2 = to_nat(c@) as int;
    let k7 = add_signed_at(c, 2 * m, 4 * m + 2, sign, t2);
    let ghost cv3 = to_nat(c@) as int;
    let k8 = add_signed_at(c, 3 * m, 5 * m + 2, sign.negate(), t2);
    let ghost cv4 = to_nat(c@) as int;
    // Apply carries.
    let k9 = add_signed_word_at(c, 2 * m, 3 * m + 2, k0);
    let ghost cv5 = to_nat(c@) as int;
    let carry_c1 = k4 + k5 + k9;
    let k10 = add_signed_word_at(c, 3 * m + 2, 4 * m + 2, carry_c1);
    let ghost cv6 = to_nat(c@) as int;
    let carry_c2 = k1 + k2 + k7 + k10;
    let k11 = add_signed_word_at(c, 4 * m + 2, 5 * m + 2, carry_c2);
    let ghost cv7 = to_nat(c@) as int;
    let carry_c3 = k6 + k8 + k11;
    let k12 = add_signed_word_at(c, 5 * m + 2, c_len, carry_c3);
    proof {
        let p1 = pow_base(m as nat) as int;
        let p2 = pow_base((2 * m) as nat) as int;
        let p3 = pow_base((3 * m) as nat) as int;
        let q3 = pow_base((3 * m + 2) as nat) as int;
        let q4 = pow_base((4 * m + 2) as nat) as int;
        let q5 = pow_base((5 * m + 2) as nat) as int;
        let pn = pow_base(c_len as nat) as int;
        assert(p1 * (-s * tv1) == -(p1 * (s * tv1))) by (nonlinear_arith);
        assert(p3 * (-s * tv2) == -(p3 * (s * tv2))) by (nonlinear_arith);
        assert(q3 * (k4 + k5 + k9) == k4 * q3 + k5 * q3 + k9 * q3) by (nonlinear_arith);
        assert(q4 * (k1 + k2 + k7 + k10) == k1 * q4 + k2 * q4 + k7 * q4 + k10 * q4) by (
        nonlinear_arith);
        assert(q5 * (k6 + k8 + k11) == k6 * q5 + k8 * q5 + k11 * q5) by (nonlinear_arith);
        assert(p2 * k0 == k0 * p2) by (nonlinear_arith);
        assert((k3 + k12) * pn == k3 * pn + k12 * pn) by (nonlinear_arith);
        assert((k1 + k2) * q4 == k1 * q4 + k2 * q4) by (nonlinear_arith);
    }
    k3 + k12
}

/// c += sign * a * b, for factors of the same length.
/// Toom-Cook-3 method: O(n^1.47).
///
/// Returns carry.
#[verifier::rlimit(60)]
pub fn add_signed_mul_toom_3_same_len(
    c: &mut [Word],
    sign: Sign,
    a: &[Word],
    b: &[Word],
    temp: &mut [Word],
) -> (r: SignedWord)
    requires
        a@.len() == b@.len(),
        old(c)@.len() == 2 * a@.len(),
        old(temp)@.len() >= toom_3_temp_len(a@.len()),
    ensures
        final(c)@.len() == old(c)@.len(),
        final(temp)@.len() == old(temp)@.len(),
        -1 <= r <= 1,
        to_nat(final(c)@) + r * pow_base(old(c)@.len()) == to_nat(old(c)@) + sign.factor() * (
        to_nat(a@) * to_nat(b@)),
    decreases 8 * a@.len() + 5,
{
    let n = a.len();
    let _c_len = c.len();
    if n <= MAX_LEN_KARATSUBA {
        return add_signed_mul_karatsuba_same_len(c, sign, a, b, temp);
    }
    // Brent, Zimmermann, Modern Computer Arithmetic 0.5.9, Algorithm 1.4.
    //
    // We evaluate the polynomials A(x) = a0 + a1*x + a2*x^2, B(x) = b0 + b1*x + b2*x^2
    // at points 0, 1, -1, 2, infinity.
    // Multiplying, this gives us values of V(x) = A(x)*B(x) = c0 + c1*x + c2*x^2 + c3*x^3 + c4*x^4
    // at the same points (using 5 recursive multiplications).
    //
    // Then we interpolate the polynomial coefficients, which gives the following formulas:
    // c_0 = V(0)
    // c_1 = V(1) - t1
    // c_2 = t2 - V(0) - V(inf)
    // c_3 = t1 - t2
    // c_4 = V(inf)
    // where:
    // t1 = (3V(0) + 2V(-1) + V(2))/6 - 2V(inf)
    // t2 = (V(1) + V(-1))/2
    let ghost cinit = c@;
    let ghost s = sign.factor();
    // Split into 3 parts. Note: a2, b2 may be shorter.
    let n3 = (n + 2) / 3;
    let (a0, a12) = a.split_at(n3);
    let (a1, a2) = a12.split_at(n3);
    let (b0, b12) = b.split_at(n3);
    let (b1, b2) = b12.split_at(n3);
    let ghost (x0, x1, x2) = (to_nat(a0@) as int, to_nat(a1@) as int, to_nat(a2@) as int);
    let ghost (y0, y1, y2) = (to_nat(b0@) as int, to_nat(b1@) as int, to_nat(b2@) as int);
    // the coefficients of the product polynomial
    let ghost e0 = x0 * y0;
    let ghost e1 = x0 * y1 + x1 * y0;
    let ghost e2 = x0 * y2 + x1 * y1 + x2 * y0;
    let ghost e3 = x1 * y2 + x2 * y1;
    let ghost e4 = x2 * y2;
    proof {
        lemma_toom_3_temp_len_mono(n3 as nat, (n3 + 1) as nat);
        lemma_toom_3_temp_len_mono((n - 2 * n3) as nat, (n3 + 1) as nat);
        lemma_toom_3_pow(n3 as nat);
        lemma_toom_3_parts(a0@, a1@, a2@, b0@, b1@, b2@, n3 as nat);
        lemma_toom_3_nonneg(x0, x1, x2, y0, y1, y2);
    }
    let (a_eval, temp) = temp.split_at_mut(n3 + 1);
    let (b_eval, temp) = temp.split_at_mut(n3 + 1);
    let (c_eval, temp) = temp.split_at_mut(2 * n3 + 2);
    let (t1, temp) = temp.split_at_mut(2 * n3 + 2);
    let (t2, temp) = temp.split_at_mut(2 * n3 + 2);
    let ghost cv0 = to_nat(c@) as int;
    // Evaluate at 0: c_0 += V(0), c_2 -= V(0), t1 = 3 V(0)
    let (k0, k1) = toom_3_at_zero(c, sign, a0, b0, t1, temp);
    let ghost cv1 = to_nat(c@) as int;
    // Evaluate at 2: t1 += V(2)
    toom_3_at_two(t1, a_eval, b_eval, a0, a1, a2, b0, b1, b2, temp);
    // Evaluate at infinity: c_2 -= V(inf), c_4 += V(inf), t1 -= 12 V(inf)
    // Now t1 = 3V(0) + V(2) - 12V(inf), which is never negative
    let (k2, k3) = toom_3_at_infinity(c, sign, a2, b2, c_eval, t1, n3, temp);
    let ghost cv2 = to_nat(c@) as int;
    // Evaluate at 1: c_1 += V(1), t2 = V(1), and prepare V(-1)
    let (k4, value_neg1_sign) = toom_3_at_one(
        c,
        sign,
        a_eval,
        b_eval,
        c_eval,
        t2,
        a0,
        a1,
        a2,
        b0,
        b1,
        b2,
        temp,
    );
    let ghost cv3 = to_nat(c@) as int;
    let ghost v1 = (x0 + x1 + x2) * (y0 + y1 + y2);
    let ghost vm1 = (x0 - x1 + x2) * (y0 - y1 + y2);
    proof {
        lemma_toom_3_points(x0, x1, x2, y0, y1, y2);
        assert(to_nat(t2@) + vm1 == 2 * (e0 + e2 + e4));
        assert(to_nat(t1@) + 2 * vm1 == 6 * (e0 + e2 + e3 + e4));
    }
    // Evaluate at -1: t2 += V(-1), t1 += 2 V(-1)
    // Now t1 = 3V(0) + 2V(-1) + V(2) - 12V(inf),
    //     t2 = V(1) + V(-1).
    toom_3_at_minus_one(t1, t2, c_eval, a_eval, b_eval, value_neg1_sign, Ghost(vm1), temp);
    // t1 /= 6
    // t2 /= 2
    // Now t1 = (3V(0) + 2V(-1) + V(2))/6 - 2V(inf)
    //     t2 = (V(1) + V(-1))/2
    let t1_rem = crate::div::div_by_word_in_place(t1, 6);
    let t2_rem = crate::shift::shr_in_place(t2, 1);
    let ghost tt1 = e0 + e2 + e3 + e4;
    let ghost tt2 = e0 + e2 + e4;
    proof {
        assert(to_nat(t1@) * 6 + t1_rem == 6 * tt1);
        vstd::arithmetic::div_mod::lemma_fundamental_div_mod_converse(
            6 * tt1,
            6,
            to_nat(t1@) as int,
            t1_rem as int,
        );
        vstd::arithmetic::div_mod::lemma_fundamental_div_mod_converse(6 * tt1, 6, tt1, 0);
        vstd::arithmetic::power2::lemma2_to64();
        vstd::arithmetic::div_mod::lemma_fundamental_div_mod_converse(
            2 * tt2,
            2,
            to_nat(t2@) as int,
            t2_rem as int,
        );
        vstd::arithmetic::div_mod::lemma_fundamental_div_mod_converse(2 * tt2, 2, tt2, 0);
    }
    // c1 -= t1, c3 += t1, c2 += t2, c3 -= t2, and apply the carries.
    let r = toom_3_apply(c, sign, t1, t2, n3, k0, k1, k2, k3, k4);
    proof {
        lemma_toom_3_sum(
            cv0,
            cv1,
            cv2,
            cv3,
            to_nat(c@) as int,
            k0 as int,
            k1 as int,
            k2 as int,
            k3 as int,
            k4 as int,
            r as int,
            s,
            e0,
            e4,
            v1,
            tt1,
            tt2,
            pow_base(n3 as nat) as int,
            pow_base((2 * n3) as nat) as int,
            pow_base((3 * n3) as nat) as int,
            pow_base((4 * n3) as nat) as int,
            pow_base((3 * n3 + 2) as nat) as int,
            pow_base((4 * n3 + 2) as nat) as int,
            pow_base((2 * n) as nat) as int,
        );
        lemma_toom_3_split_value(a@, b@, a0@, a1@, a2@, b0@, b1@, b2@, n3 as nat);
        lemma_mul_carry_bound(cinit, c@, r as int, s, a@, b@);
    }
    r
}

/// The powers of `B` at the positions used by one Toom-Cook-3 step, for parts of `m` words.
proof fn lemma_toom_3_pow(m: nat)
    ensures
        pow_base(2 * m) == pow_base(m) * pow_base(m),
        pow_base(3 * m) == pow_base(m) * pow_base(2 * m),
        pow_base(4 * m) == pow_base(m) * pow_base(3 * m),
        pow_base(2 * m + 2) == pow_base(2 * m) * (0x1_0000_0000_0000_0000 * 0x1_0000_0000_0000_0000),
        pow_base(m) > 0,
        pow_base(2 * m) > 0,
{
    lemma_pow_base_add(m, m);
    lemma_pow_base_add(m, 2 * m);
    lemma_pow_base_add(m, 3 * m);
    lemma_pow_base_add(2 * m, 2);
    lemma_pow_base_step(0);
    lemma_pow_base_step(1);
    lemma_pow_base_pos(m);
    lemma_pow_base_pos(2 * m);
    assert(pow_base(0) == 1);
}

/// Bounds on the values met in one Toom-Cook-3 step, for parts of at most `m` words.
proof fn lemma_toom_3_parts(
    a0: Seq<Word>,
    a1: Seq<Word>,
    a2: Seq<Word>,
    b0: Seq<Word>,
    b1: Seq<Word>,
    b2: Seq<Word>,
    m: nat,
)
    requires
        a0.len() <= m,
        a1.len() <= m,
        a2.len() <= m,
        b0.len() <= m,
        b1.len() <= m,
        b2.len() <= m,
        pow_base(2 * m) == pow_base(m) * pow_base(m),
        pow_base(2 * m + 2) == pow_base(2 * m) * (0x1_0000_0000_0000_0000 * 0x1_0000_0000_0000_0000),
    ensures
        ({
            let (x0, x1, x2) = (to_nat(a0) as int, to_nat(a1) as int, to_nat(a2) as int);
            let (y0, y1, y2) = (to_nat(b0) as int, to_nat(b1) as int, to_nat(b2) as int);
            let p2 = pow_base(2 * m) as int;
            let pl = pow_base(2 * m + 2) as int;
            &&& 0 <= x0 * y0 < p2
            &&& 0 <= x2 * y2 < p2
            &&& 0 <= (x0 + x1 + x2) * (y0 + y1 + y2) < 9 * p2
            &&& 54 * p2 < pl
            &&& 0 <= 3 * (x0 * y0) + (x0 + 2 * x1 + 4 * x2) * (y0 + 2 * y1 + 4 * y2) < pl
        }),
{
    lemma_to_nat_bound(a0);
    lemma_to_nat_bound(a1);
    lemma_to_nat_bound(a2);
    lemma_to_nat_bound(b0);
    lemma_to_nat_bound(b1);
    lemma_to_nat_bound(b2);
    crate::value::lemma_pow_base_mono(a0.len(), m);
    crate::value::lemma_pow_base_mono(a1.len(), m);
    crate::value::lemma_pow_base_mono(a2.len(), m);
    crate::value::lemma_pow_base_mono(b0.len(), m);
    crate::value::lemma_pow_base_mono(b1.len(), m);
    crate::value::lemma_pow_base_mono(b2.len(), m);
    lemma_pow_base_pos(m);
    lemma_toom_3_bounds(
        to_nat(a0) as int,
        to_nat(a1) as int,
        to_nat(a2) as int,
        to_nat(b0) as int,
        to_nat(b1) as int,
        to_nat(b2) as int,
        pow_base(m) as int,
        pow_base(2 * m) as int,
        pow_base(2 * m + 2) as int,
    );
}

/// A number split in three parts of `m`, `m` and the rest words.
proof fn lemma_toom_3_split_value(
    a: Seq<Word>,
    b: Seq<Word>,
    a0: Seq<Word>,
    a1: Seq<Word>,
    a2: Seq<Word>,
    b0: Seq<Word>,
    b1: Seq<Word>,
    b2: Seq<Word>,
    m: nat,
)
    requires
        2 * m <= a.len(),
        2 * m <= b.len(),
        a0 == a.subrange(0, m as int),
        a1 == a.subrange(m as int, a.len() as int).subrange(0, m as int),
        a2 == a.subrange(m as int, a.len() as int).subrange(m as int, a.len() - m),
        b0 == b.subrange(0, m as int),
        b1 == b.subrange(m as int, b.len() as int).subrange(0, m as int),
        b2 == b.subrange(m as int, b.len() as int).subrange(m as int, b.len() - m),
    ensures
        to_nat(a) * to_nat(b) == to_nat(a0) * to_nat(b0) + pow_base(m) * (to_nat(a0) * to_nat(b1)
            + to_nat(a1) * to_nat(b0)) + pow_base(2 * m) * (to_nat(a0) * to_nat(b2) + to_nat(a1)
            * to_nat(b1) + to_nat(a2) * to_nat(b0)) + pow_base(3 * m) * (to_nat(a1) * to_nat(b2)
            + to_nat(a2) * to_nat(b1)) + pow_base(4 * m) * (to_nat(a2) * to_nat(b2)),
{
    lemma_toom_3_pow(m);
    lemma_to_nat_split(a, m as int);
    lemma_to_nat_split(a.skip(m as int), m as int);
    lemma_to_nat_split(b, m as int);
    lemma_to_nat_split(b.skip(m as int), m as int);
    assert(a0 =~= a.take(m as int));
    assert(a1 =~= a.skip(m as int).take(m as int));
    assert(a2 =~= a.skip(m as int).skip(m as int));
    assert(b0 =~= b.take(m as int));
    assert(b1 =~= b.skip(m as int).take(m as int));
    assert(b2 =~= b.skip(m as int).skip(m as int));
    let p1 = pow_base(m) as int;
    let (x0, x1, x2) = (to_nat(a0) as int, to_nat(a1) as int, to_nat(a2) as int);
    let (y0, y1, y2) = (to_nat(b0) as int, to_nat(b1) as int, to_nat(b2) as int);
    assert(to_nat(a) == x0 + p1 * x1 + (p1 * p1) * x2) by (nonlinear_arith)
        requires
            to_nat(a) == x0 + p1 * to_nat(a.skip(m as int)),
            to_nat(a.skip(m as int)) == x1 + p1 * x2,
    ;
    assert(to_nat(b) == y0 + p1 * y1 + (p1 * p1) * y2) by (nonlinear_arith)
        requires
            to_nat(b) == y0 + p1 * to_nat(b.skip(m as int)),
            to_nat(b.skip(m as int)) == y1 + p1 * y2,
    ;
    lemma_toom_3_product(
        x0,
        x1,
        x2,
        y0,
        y1,
        y2,
        p1,
        pow_base(2 * m) as int,
        pow_base(3 * m) as int,
        pow_base(4 * m) as int,
    );
}

/// The sign returned with `|x - y|` makes it `x - y`.
proof fn lemma_sign_diff(sign: Sign, m: int, x: int, y: int)
    requires
        sign == Sign::Positive ==> x >= y && m == x - y,
        sign == Sign::Negative ==> x < y && m == y - x,
    ensures
        sign.factor() * m == x - y,
{
}

/// `3 V(0) + V(2) >= 12 V(inf)` for non-negative parts.
proof fn lemma_toom_3_nonneg(x0: int, x1: int, x2: int, y0: int, y1: int, y2: int)
    requires
        x0 >= 0,
        x1 >= 0,
        x2 >= 0,
        y0 >= 0,
        y1 >= 0,
        y2 >= 0,
    ensures
        3 * (x0 * y0) + (x0 + 2 * x1 + 4 * x2) * (y0 + 2 * y1 + 4 * y2) >= 12 * (x2 * y2),
        x0 * y0 >= 0,
        x0 * y1 + x1 * y0 >= 0,
        x0 * y2 + x1 * y1 + x2 * y0 >= 0,
        x1 * y2 + x2 * y1 >= 0,
        x2 * y2 >= 0,
{
    lemma_toom_3_points(x0, x1, x2, y0, y1, y2);
    assert(x0 * y0 >= 0 && x0 * y1 >= 0 && x0 * y2 >= 0 && x1 * y0 >= 0 && x1 * y1 >= 0 && x1 * y2
        >= 0 && x2 * y0 >= 0 && x2 * y1 >= 0 && x2 * y2 >= 0) by (nonlinear_arith)
        requires
            x0 >= 0,
            x1 >= 0,
            x2 >= 0,
            y0 >= 0,
            y1 >= 0,
            y2 >= 0,
    ;
}

/// Bounds on the values met in one Toom-Cook-3 step: each is below the length it is stored in.
proof fn lemma_toom_3_bounds(x0: int, x1: int, x2: int, y0: int, y1: int, y2: int, p: int, p2: int, pl: int)
    requires
        0 <= x0 < p,
        0 <= x1 < p,
        0 <= x2 < p,
        0 <= y0 < p,
        0 <= y1 < p,
        0 <= y2 < p,
        p2 == p * p,
        pl == p2 * (0x1_0000_0000_0000_0000 * 0x1_0000_0000_0000_0000),
    ensures
        0 <= x0 * y0 < p2,
        0 <= x2 * y2 < p2,
        0 <= (x0 + x1 + x2) * (y0 + y1 + y2) < 9 * p2,
        9 * p2 < pl,
        54 * p2 < pl,
        0 <= 3 * (x0 * y0) + (x0 + 2 * x1 + 4 * x2) * (y0 + 2 * y1 + 4 * y2) < pl,
{
    assert(0 <= x0 * y0 < p2) by (nonlinear_arith)
        requires
            0 <= x0 < p,
            0 <= y0 < p,
            p2 == p * p,
    ;
    assert(0 <= x2 * y2 < p2) by (nonlinear_arith)
        requires
            0 <= x2 < p,
            0 <= y2 < p,
            p2 == p * p,
    ;
    assert(0 <= (x0 + x1 + x2) * (y0 + y1 + y2) < 9 * p2) by (nonlinear_arith)
        requires
            0 <= x0 + x1 + x2 < 3 * p,
            0 <= y0 + y1 + y2 < 3 * p,
            p2 == p * p,
    ;
    assert(0 <= (x0 + 2 * x1 + 4 * x2) * (y0 + 2 * y1 + 4 * y2) < 49 * p2) by (nonlinear_arith)
        requires
            0 <= x0 + 2 * x1 + 4 * x2 < 7 * p,
            0 <= y0 + 2 * y1 + 4 * y2 < 7 * p,
            p2 == p * p,
    ;
    assert(54 * p2 < pl) by (nonlinear_arith)
        requires
            pl == p2 * (0x1_0000_0000_0000_0000 * 0x1_0000_0000_0000_0000),
            p2 > 0,
    ;
}

} // verus!
