//! Extended binary greatest common divisor on word slices.

use crate::add::{add_in_place, sub_in_place};
use crate::buffer::MAX_LEN;
use crate::gcd_binary::{
    compare_normalized, lemma_odd_part, low_bits, remove_factors_of_two, result_fits, result_value,
    window, window_mut, Order,
};
use crate::gcd_spec::{
    lemma_gcd_comm, lemma_gcd_divides, lemma_gcd_odd_parts, lemma_gcd_pow2, lemma_gcd_sub,
    lemma_divides_le, spec_gcd,
};
use crate::sign::Sign;
use crate::primitive::Word;
use crate::value::{
    lemma_pow_base_mono, lemma_pow_base_pos, lemma_to_nat_bound, lemma_to_nat_normalized_lower,
    lemma_to_nat_take_zero_tail, lemma_to_nat_update, pow_base, to_nat,
};
use vstd::arithmetic::power2::{lemma_pow2_adds, lemma_pow2_pos, pow2};
use vstd::prelude::*;

verus! {

/// All words of `s` from position `end` on are zero.
pub open spec fn zero_beyond(s: Seq<Word>, end: int) -> bool {
    forall|j: int| end <= j < s.len() ==> s[j] == 0
}

/// Adds `rhs` to the number in `lhs`, whose words from `lhs_end` on are zero.
///
/// Returns whether the sum overflowed `lhs`, and the new end, after which all words are zero.
fn add_in_place_with_pos(lhs: &mut [Word], lhs_end: usize, rhs: &[Word]) -> (res: (bool, usize))
    requires
        lhs_end <= old(lhs)@.len(),
        rhs@.len() <= old(lhs)@.len(),
        zero_beyond(old(lhs)@, lhs_end as int),
    ensures
        final(lhs)@.len() == old(lhs)@.len(),
        res.1 <= old(lhs)@.len(),
        zero_beyond(final(lhs)@, res.1 as int),
        to_nat(final(lhs)@) + (if res.0 {
            pow_base(old(lhs)@.len())
        } else {
            0
        }) == to_nat(old(lhs)@) + to_nat(rhs@),
        res.0 ==> res.1 == old(lhs)@.len(),
{
    let ghost w0 = lhs@;
    let n = lhs.len();
    let mut end = if lhs_end < rhs.len() {
        rhs.len()
    } else {
        lhs_end
    };
    let ghost low0 = w0.subrange(0, end as int);
    let win = window_mut(lhs, 0, end);
    let carry = add_in_place(win, rhs);
    let ghost low1 = win@;
    let ghost w1 = lhs@;
    proof {
        lemma_to_nat_take_zero_tail(w0, end as int);
        assert(w0.take(end as int) =~= low0);
        assert(w1.take(end as int) =~= low1);
        assert(zero_beyond(w1, end as int));
        lemma_to_nat_take_zero_tail(w1, end as int);
    }
    if carry {
        if end == n {
            return (true, end);
        }
        lhs[end] = 1;
        proof {
            lemma_to_nat_update(w1, end as int, 1);
            crate::value::lemma_pow_base_mono(end as nat, end as nat);
        }
        end += 1;
    }
    (false, end)
}

/// Shifts left by less than a word the number in `lhs`, whose words from `lhs_end` on are zero.
///
/// The result must fit in `lhs`. Returns the new end.
fn shl_in_place_with_pos(lhs: &mut [Word], lhs_end: usize, shift: u32) -> (end: usize)
    requires
        lhs_end <= old(lhs)@.len(),
        zero_beyond(old(lhs)@, lhs_end as int),
        shift < 64,
        to_nat(old(lhs)@) * pow2(shift as nat) < pow_base(old(lhs)@.len()),
    ensures
        final(lhs)@.len() == old(lhs)@.len(),
        end <= old(lhs)@.len(),
        zero_beyond(final(lhs)@, end as int),
        to_nat(final(lhs)@) == to_nat(old(lhs)@) * pow2(shift as nat),
{
    let ghost w0 = lhs@;
    let ghost low0 = w0.subrange(0, lhs_end as int);
    let win = window_mut(lhs, 0, lhs_end);
    let carry = crate::shift::shl_in_place(win, shift);
    let ghost low1 = win@;
    let ghost w1 = lhs@;
    proof {
        lemma_to_nat_take_zero_tail(w0, lhs_end as int);
        assert(w0.take(lhs_end as int) =~= low0);
        assert(w1.take(lhs_end as int) =~= low1);
        assert(zero_beyond(w1, lhs_end as int));
        lemma_to_nat_take_zero_tail(w1, lhs_end as int);
    }
    if carry > 0 {
        proof {
            // the shifted value is at least B^lhs_end, and less than B^len
            lemma_pow_base_pos(lhs_end as nat);
            assert(to_nat(w0) * pow2(shift as nat) >= pow_base(lhs_end as nat)) by (nonlinear_arith)
                requires
                    to_nat(low1) + carry * pow_base(lhs_end as nat) == to_nat(w0) * pow2(
                        shift as nat,
                    ),
                    carry >= 1,
            ;
            if lhs_end >= w0.len() {
                lemma_pow_base_mono(w0.len(), lhs_end as nat);
            }
            lemma_to_nat_update(w1, lhs_end as int, carry);
        }
        lhs[lhs_end] = carry;
        return lhs_end + 1;
    }
    lhs_end
}

/// Shifts left by any amount the number in `lhs`, whose words from `lhs_end` on are zero.
///
/// The result must fit in `lhs`. Returns the new end.
fn shl_any_in_place_with_pos(lhs: &mut [Word], lhs_end: usize, shift: usize) -> (end: usize)
    requires
        lhs_end <= old(lhs)@.len(),
        zero_beyond(old(lhs)@, lhs_end as int),
        to_nat(old(lhs)@) * pow2(shift as nat) < pow_base(old(lhs)@.len()),
    ensures
        final(lhs)@.len() == old(lhs)@.len(),
        end <= old(lhs)@.len(),
        zero_beyond(final(lhs)@, end as int),
        to_nat(final(lhs)@) == to_nat(old(lhs)@) * pow2(shift as nat),
{
    let ghost x0 = to_nat(lhs@);
    let ghost n = lhs@.len();
    let mut end = lhs_end;
    let mut done: usize = 0;
    proof {
        vstd::arithmetic::power2::lemma2_to64();
    }
    while done < shift
        invariant
            done <= shift,
            end <= n,
            lhs@.len() == n,
            zero_beyond(lhs@, end as int),
            to_nat(lhs@) == x0 * pow2(done as nat),
            x0 * pow2(shift as nat) < pow_base(n),
        decreases shift - done,
    {
        let step: u32 = if shift - done < 63 {
            (shift - done) as u32
        } else {
            63
        };
        proof {
            lemma_pow2_adds(done as nat, step as nat);
            lemma_pow2_adds((done + step) as nat, (shift - done - step) as nat);
            vstd::arithmetic::power2::lemma_pow2_pos((shift - done - step) as nat);
            assert(x0 * pow2(done as nat) * pow2(step as nat) == x0 * pow2((done + step) as nat))
                by (nonlinear_arith)
                requires
                    pow2((done + step) as nat) == pow2(done as nat) * pow2(step as nat),
            ;
            assert(x0 * pow2((done + step) as nat) <= x0 * pow2(shift as nat)) by (nonlinear_arith)
                requires
                    pow2(shift as nat) == pow2((done + step) as nat) * pow2(
                        (shift - done - step) as nat,
                    ),
                    pow2((shift - done - step) as nat) >= 1,
            ;
        }
        end = shl_in_place_with_pos(lhs, end, step);
        done = done + step as usize;
    }
    end
}

/// One subtraction step of the binary algorithm on the coefficients.
///
/// With `U == T1 L + T0 R` and `V == S1 L + S0 R`, replacing `L` by `Ld == (L - R) / 2^z`
/// is matched by `T0 += T1`, `T1 <<= z` (and the same on `S`): the identities stay, the
/// determinant `T1 S0 - T0 S1` is multiplied by `2^z`, and the new coefficients are at most
/// `U` and `V`.
proof fn lemma_coeff_sub_step(
    l: int,
    r: int,
    z: nat,
    ld: int,
    t0: int,
    t1: int,
    s0: int,
    s1: int,
    u: int,
    v: int,
    d: int,
)
    requires
        l - r == pow2(z) * ld,
        ld >= 1,
        r >= 1,
        t0 >= 0,
        t1 >= 0,
        s0 >= 0,
        s1 >= 0,
        t1 * l + t0 * r == u,
        s1 * l + s0 * r == v,
        t1 * s0 - t0 * s1 == d,
    ensures
        (t1 * pow2(z)) * ld + (t0 + t1) * r == u,
        (s1 * pow2(z)) * ld + (s0 + s1) * r == v,
        (t1 * pow2(z)) * (s0 + s1) - (t0 + t1) * (s1 * pow2(z)) == d * pow2(z),
        t0 + t1 <= u,
        t1 * pow2(z) <= u,
        s0 + s1 <= v,
        s1 * pow2(z) <= v,
{
    let p = pow2(z) as int;
    lemma_pow2_pos(z);
    assert((t1 * p) * ld + (t0 + t1) * r == u) by (nonlinear_arith)
        requires
            l - r == p * ld,
            t1 * l + t0 * r == u,
    ;
    assert((s1 * p) * ld + (s0 + s1) * r == v) by (nonlinear_arith)
        requires
            l - r == p * ld,
            s1 * l + s0 * r == v,
    ;
    assert((t1 * p) * (s0 + s1) - (t0 + t1) * (s1 * p) == d * p) by (nonlinear_arith)
        requires
            t1 * s0 - t0 * s1 == d,
    ;
    assert(t0 + t1 <= u && t1 * p <= u) by (nonlinear_arith)
        requires
            (t1 * p) * ld + (t0 + t1) * r == u,
            ld >= 1,
            r >= 1,
            t1 * p >= 0,
            t0 + t1 >= 0,
    ;
    assert(s0 + s1 <= v && s1 * p <= v) by (nonlinear_arith)
        requires
            (s1 * p) * ld + (s0 + s1) * r == v,
            ld >= 1,
            r >= 1,
            s1 * p >= 0,
            s0 + s1 >= 0,
    ;
}

/// The bound `2^shift L R <= U V` survives a step, and bounds the shift.
proof fn lemma_shift_bound_step(shift: nat, z: nat, l: int, r: int, ld: int, uv: int)
    requires
        l - r == pow2(z) * ld,
        ld >= 1,
        r >= 1,
        l > r,
        pow2(shift) * l * r <= uv,
    ensures
        pow2(shift + z) * ld * r <= uv,
{
    lemma_pow2_adds(shift, z);
    lemma_pow2_pos(shift);
    lemma_pow2_pos(z);
    let ps = pow2(shift) as int;
    let pz = pow2(z) as int;
    assert((ps * pz) * ld * r <= uv) by (nonlinear_arith)
        requires
            l - r == pz * ld,
            ps * l * r <= uv,
            ps > 0,
            r >= 1,
            l > r,
    ;
}

/// A power of two below `B^n` has an exponent below `64 n`.
proof fn lemma_pow2_below_pow_base(e: nat, n: nat)
    requires
        pow2(e) < pow_base(n),
    ensures
        e < 64 * n,
{
    crate::shift_ops::lemma_pow_base_pow2(n);
    if e >= 64 * n {
        vstd::arithmetic::power2::lemma_pow2_strictly_increases(64 * n, e);
        if e == 64 * n {
        }
    }
}

/// The parity of a word sequence is that of its first word.
proof fn lemma_parity(s: Seq<Word>)
    requires
        s.len() > 0,
    ensures
        to_nat(s) % 2 == s[0] % 2,
{
    crate::value::lemma_to_nat_split(s, 1);
    assert(s.take(1) =~= seq![s[0]]);
    crate::value::lemma_to_nat_single(s[0]);
    crate::value::lemma_pow_base_step(0);
    let rest = to_nat(s.skip(1));
    assert(to_nat(s) == s[0] + 2 * (0x8000_0000_0000_0000 * rest)) by (nonlinear_arith)
        requires
            to_nat(s) == s[0] + pow_base(1) * rest,
            pow_base(1) == 0x1_0000_0000_0000_0000,
    ;
    vstd::arithmetic::div_mod::lemma_mod_multiples_vanish(
        (0x8000_0000_0000_0000 * rest) as int,
        s[0] as int,
        2,
    );
}

/// Halving step of the coefficients: with `a u - b v == 2^k` (`k >= 1`) and one of `u`, `v`
/// odd, adding `(v, u)` to `(a, b)` when one of them is odd makes both even.
proof fn lemma_halving_parity(a: int, b: int, u: int, v: int, k: nat)
    requires
        a * u - b * v == pow2(k),
        k >= 1,
        u % 2 == 1 || v % 2 == 1,
    ensures
        (a % 2 == 1 || b % 2 == 1) ==> (a + v) % 2 == 0 && (b + u) % 2 == 0,
        !(a % 2 == 1 || b % 2 == 1) ==> a % 2 == 0 && b % 2 == 0,
{
    vstd::arithmetic::power2::lemma_pow2_unfold(k);
    let e = pow2((k - 1) as nat) as int;
    vstd::arithmetic::div_mod::lemma_fundamental_div_mod(a, 2);
    vstd::arithmetic::div_mod::lemma_fundamental_div_mod(b, 2);
    vstd::arithmetic::div_mod::lemma_fundamental_div_mod(u, 2);
    vstd::arithmetic::div_mod::lemma_fundamental_div_mod(v, 2);
    let (qa, ra, qb, rb, qu, ru, qv, rv) = (a / 2, a % 2, b / 2, b % 2, u / 2, u % 2, v / 2, v % 2);
    let ma = 2 * qa * qu + qa * ru + ra * qu;
    let mb = 2 * qb * qv + qb * rv + rb * qv;
    assert((2 * qa + ra) * (2 * qu + ru) == 2 * ma + ra * ru) by (nonlinear_arith)
        requires
            ma == 2 * qa * qu + qa * ru + ra * qu,
    ;
    assert((2 * qb + rb) * (2 * qv + rv) == 2 * mb + rb * rv) by (nonlinear_arith)
        requires
            mb == 2 * qb * qv + qb * rv + rb * qv,
    ;
    assert(a * u - b * v == 2 * (ma - mb) + (ra * ru - rb * rv));
    assert(ra * ru == (if ra == 1 && ru == 1 { 1int } else { 0 })) by (nonlinear_arith)
        requires
            0 <= ra < 2,
            0 <= ru < 2,
    ;
    assert(rb * rv == (if rb == 1 && rv == 1 { 1int } else { 0 })) by (nonlinear_arith)
        requires
            0 <= rb < 2,
            0 <= rv < 2,
    ;
    // 2 e == 2 m + (ra ru - rb rv), and |ra ru - rb rv| <= 1, so the two products agree
    assert(ra * ru == rb * rv);
}

/// `n` zero words.
fn zero_vec(n: usize) -> (v: Vec<Word>)
    ensures
        v@.len() == n,
        zero_beyond(v@, 0),
{
    let mut v: Vec<Word> = Vec::new();
    while v.len() < n
        invariant
            v@.len() <= n,
            zero_beyond(v@, 0),
        decreases n - v@.len(),
    {
        v.push(0);
    }
    v
}

/// The value of a sequence whose words from `end` on are zero is that of its first `end` words.
proof fn lemma_prefix_value(s: Seq<Word>, end: int)
    requires
        0 <= end <= s.len(),
        zero_beyond(s, end),
    ensures
        to_nat(s.subrange(0, end)) == to_nat(s),
{
    lemma_to_nat_take_zero_tail(s, end);
    assert(s.subrange(0, end) =~= s.take(end));
}

/// Extended greatest common divisor of two non-zero numbers given as words, by the binary
/// algorithm.
///
/// `g`, zero-filled and at least as long as one of the operands, receives `gcd(x, y)`.
/// The Bézout coefficients `a`, `b` with `a x + b y == gcd(x, y)` come back as magnitudes,
/// `|a|` in `rhs` and `|b|` in `lhs`, and their signs are returned as `(sign of a, sign of b)`.
/// With `bonly`, `rhs` is left as scratch space and only `b` is meaningful:
/// `b y == gcd(x, y)` modulo `x`.
#[verifier::rlimit(100)]
#[verifier::spinoff_prover]
pub fn xgcd_in_place(lhs: &mut [Word], rhs: &mut [Word], g: &mut [Word], bonly: bool) -> (signs: (
    Sign,
    Sign,
))
    requires
        to_nat(old(lhs)@) > 0,
        to_nat(old(rhs)@) > 0,
        old(lhs)@.len() + old(rhs)@.len() <= MAX_LEN,
        zero_beyond(old(g)@, 0),
        old(g)@.len() >= old(lhs)@.len() || old(g)@.len() >= old(rhs)@.len(),
    ensures
        final(lhs)@.len() == old(lhs)@.len(),
        final(rhs)@.len() == old(rhs)@.len(),
        final(g)@.len() == old(g)@.len(),
        to_nat(final(g)@) == spec_gcd(to_nat(old(lhs)@), to_nat(old(rhs)@)),
        !bonly ==> signs.0.factor() * to_nat(final(rhs)@) * to_nat(old(lhs)@) + signs.1.factor()
            * to_nat(final(lhs)@) * to_nat(old(rhs)@) == spec_gcd(
            to_nat(old(lhs)@),
            to_nat(old(rhs)@),
        ),
        (signs.1.factor() * to_nat(final(lhs)@) * to_nat(old(rhs)@) - spec_gcd(
            to_nat(old(lhs)@),
            to_nat(old(rhs)@),
        )) % (to_nat(old(lhs)@) as int) == 0,
{
    let ghost x0 = to_nat(lhs@);
    let ghost y0 = to_nat(rhs@);
    let ghost g0 = spec_gcd(x0, y0);
    let ln = lhs.len();
    let rn = rhs.len();
    proof {
        assert(lhs@.subrange(0, ln as int) =~= lhs@);
        assert(rhs@.subrange(0, rn as int) =~= rhs@);
        lemma_to_nat_bound(lhs@);
        lemma_to_nat_bound(rhs@);
        if ln == 0 {
            assert(lhs@ =~= Seq::<Word>::empty());
        }
        if rn == 0 {
            assert(rhs@ =~= Seq::<Word>::empty());
        }
    }
    // find common factors of 2
    let (mut l0, mut l1, lhs_zeros) = remove_factors_of_two(lhs, 0, ln);
    let (mut r0, mut r1, rhs_zeros) = remove_factors_of_two(rhs, 0, rn);
    let ghost lw0 = window(lhs@, l0 as int, l1 as int);
    let ghost rw0 = window(rhs@, r0 as int, r1 as int);
    // allocate memory for coefficients
    let mut s0 = zero_vec(rn);
    let mut s1 = zero_vec(rn);
    let mut t0 = zero_vec(ln);
    let mut t1 = zero_vec(ln);
    let mut s0_end: usize = 1;
    let mut s1_end: usize = 1;
    let mut t0_end: usize = 1;
    let mut t1_end: usize = 1;
    // U and V are the inputs without their common factors of 2
    let ghost u;
    let ghost v;
    proof {
        lemma_odd_part(x0, lhs_zeros as nat);
        lemma_odd_part(y0, rhs_zeros as nat);
    }
    let init_zeros: usize;
    let mut shift: usize;
    if lhs_zeros == rhs_zeros {
        s0.set(0, 1);
        t1.set(0, 1);
        init_zeros = lhs_zeros;
        shift = 0;
        proof {
            vstd::arithmetic::power2::lemma2_to64();
            u = lw0;
            v = rw0;
            lemma_power_in_words(rn as nat, 0, 1);
            lemma_power_in_words(ln as nat, 0, 1);
            assert(s0@ =~= zero_seq(rn as nat).update(0, 1));
            assert(t1@ =~= zero_seq(ln as nat).update(0, 1));
        }
    } else if lhs_zeros > rhs_zeros {
        shift = lhs_zeros - rhs_zeros;
        init_zeros = rhs_zeros;
        proof {
            u = pow2(shift as nat) * lw0;
            v = rw0;
            lemma_exponent_fits(x0, lhs_zeros as nat, lw0, shift as nat, ln as nat);
            vstd::arithmetic::power2::lemma2_to64();
            lemma_power_in_words(rn as nat, 0, 1);
        }
        s0.set(0, 1);
        let w = crate::shift_ops::pow2_word(low_bits(shift));
        t1.set(shift / 64, w);
        t1_end = t1_end + shift / 64;
        proof {
            lemma_power_in_words(ln as nat, shift as nat, w);
            assert(s0@ =~= zero_seq(rn as nat).update(0, 1));
            assert(t1@ =~= zero_seq(ln as nat).update((shift / 64) as int, w));
        }
    } else {
        shift = rhs_zeros - lhs_zeros;
        init_zeros = lhs_zeros;
        proof {
            u = lw0;
            v = pow2(shift as nat) * rw0;
            lemma_exponent_fits(y0, rhs_zeros as nat, rw0, shift as nat, rn as nat);
            vstd::arithmetic::power2::lemma2_to64();
            lemma_power_in_words(ln as nat, 0, 1);
        }
        let w = crate::shift_ops::pow2_word(low_bits(shift));
        s0.set(shift / 64, w);
        s0_end = s0_end + shift / 64;
        t1.set(0, 1);
        proof {
            lemma_power_in_words(rn as nat, shift as nat, w);
            assert(s0@ =~= zero_seq(rn as nat).update((shift / 64) as int, w));
            assert(t1@ =~= zero_seq(ln as nat).update(0, 1));
        }
    }
    let ghost go = spec_gcd(lw0, rw0);
    proof {
        lemma_init_state(x0, y0, lhs_zeros as nat, rhs_zeros as nat, lw0, rw0, init_zeros as nat, shift as nat, u, v, ln as nat, rn as nat);
        vstd::arithmetic::power2::lemma2_to64();
        assert(to_nat(zero_seq(ln as nat)) == 0) by {
            crate::value::lemma_to_nat_zero_iff(zero_seq(ln as nat));
        }
        assert(to_nat(zero_seq(rn as nat)) == 0) by {
            crate::value::lemma_to_nat_zero_iff(zero_seq(rn as nat));
        }
        assert(t0@ =~= zero_seq(ln as nat));
        assert(s1@ =~= zero_seq(rn as nat));
        assert(to_nat(t1@) * lw0 + to_nat(t0@) * rw0 == u) by (nonlinear_arith)
            requires
                to_nat(t0@) == 0,
                to_nat(t1@) == (if lhs_zeros > rhs_zeros { pow2(shift as nat) } else { 1 }),
                u == (if lhs_zeros > rhs_zeros { pow2(shift as nat) * lw0 } else { lw0 }),
        ;
        assert(to_nat(s1@) * lw0 + to_nat(s0@) * rw0 == v) by (nonlinear_arith)
            requires
                to_nat(s1@) == 0,
                to_nat(s0@) == (if lhs_zeros < rhs_zeros { pow2(shift as nat) } else { 1 }),
                v == (if lhs_zeros < rhs_zeros { pow2(shift as nat) * rw0 } else { rw0 }),
        ;
    }
    // Binary algorithm on the windows lhs[l0..l1] and rhs[r0..r1]
    let (l0, l1, r0, r1, s0_end, s1_end, t0_end, t1_end, shift) = binary_steps(
        lhs,
        rhs,
        l0,
        l1,
        r0,
        r1,
        &mut s0,
        &mut s1,
        &mut t0,
        &mut t1,
        s0_end,
        s1_end,
        t0_end,
        t1_end,
        shift,
        Ghost(u),
        Ghost(v),
        Ghost(go),
    );
    let ghost h = window(lhs@, l0 as int, l1 as int);
    let ghost glen = g@.len();
    let ghost bnd = if glen >= ln { x0 } else { y0 };
    proof {
        vstd::arithmetic::div_mod::lemma_mod_self_0(h as int);
        assert(spec_gcd(h, 0) == h);
        assert(spec_gcd(h, h) == spec_gcd(h, h % h));
        lemma_gcd_divides(x0, y0);
        lemma_divides_le(g0, x0);
        lemma_divides_le(g0, y0);
        let res = lhs@.subrange(l0 as int, l1 as int);
        assert(res.last() == lhs@[l1 - 1]);
        lemma_to_nat_normalized_lower(res);
        if glen >= ln {
            lemma_pow_base_mono(ln as nat, glen);
        } else {
            lemma_pow_base_mono(rn as nat, glen);
        }
        result_fits(bnd, g0, h, (l1 - l0) as nat, init_zeros as nat, glen);
    }
    // copy the result from lhs to g, shifted back by the common factors of 2
    let m = l1 - l0;
    let shift_words = init_zeros / 64;
    let win = window_mut(lhs, l0, l1);
    let carry = crate::shift::shl_in_place(win, low_bits(init_zeros));
    let ghost shifted = win@;
    let ghost zs = g@.take(shift_words as int);
    proof {
        assert(lhs@.subrange(l0 as int, l1 as int) =~= shifted);
        result_value(zs, shifted, carry, h, init_zeros as nat, bnd, g0, glen);
    }
    crate::add::copy_words(
        window_mut(g, shift_words, shift_words + m),
        vstd::slice::slice_subrange(lhs, l0, l1),
    );
    if carry > 0 {
        g[shift_words + m] = carry;
        proof {
            assert(g@.take(shift_words + m + 1) =~= zs + shifted.push(carry));
            lemma_to_nat_take_zero_tail(g@, shift_words + m + 1);
        }
    } else {
        proof {
            assert(g@.take(shift_words + m) =~= zs + shifted);
            lemma_to_nat_take_zero_tail(g@, (shift_words + m) as int);
        }
    }
    let (ssign, tsign) = finish_coefficients(
        &mut s0,
        &mut s1,
        &mut t0,
        &mut t1,
        s0_end,
        s1_end,
        t0_end,
        t1_end,
        shift,
        Ghost(u),
        Ghost(v),
        Ghost(h),
    );
    proof {
        vstd::arithmetic::power2::lemma2_to64();
        let ca = ssign.factor() * to_nat(s0@);
        let cb = tsign.factor() * to_nat(t0@);
        lemma_bezout_scale(ca, cb, u as int, v as int, h as int, pow2(init_zeros as nat) as int, x0 as int, y0 as int, g0 as int);
    }
    // move the coefficient of x to rhs and the one of y to lhs
    crate::add::copy_words(lhs, t0.as_slice());
    if !bonly {
        crate::add::copy_words(rhs, s0.as_slice());
    }
    let nt = tsign.negate();
    proof {
        let ca = ssign.factor() * to_nat(s0@);
        let cb = tsign.factor() * to_nat(t0@);
        let tv = to_nat(t0@) as int;
        assert(nt.factor() * tv == -cb) by (nonlinear_arith)
            requires
                nt.factor() == -tsign.factor(),
                cb == tsign.factor() * tv,
        ;
        assert(nt.factor() * tv * y0 - g0 == -ca * x0) by (nonlinear_arith)
            requires
                nt.factor() * tv == -cb,
                ca * x0 - cb * y0 == g0,
        ;
        assert(ssign.factor() * to_nat(s0@) * x0 + nt.factor() * tv * y0 == g0) by (nonlinear_arith)
            requires
                nt.factor() * tv == -cb,
                ca * x0 - cb * y0 == g0,
                ca == ssign.factor() * to_nat(s0@),
        ;
        vstd::arithmetic::div_mod::lemma_mod_multiples_basic(-ca, x0 as int);
        assert(-ca * x0 == (-ca) * x0);
    }
    (ssign, nt)
}

/// The state of the binary algorithm on the windows `lw[l0..l1]` and `rw[r0..r1]`, both odd and
/// normalized, with `U == T1 L + T0 R`, `V == S1 L + S0 R` and `T1 S0 - T0 S1 == 2^shift`.
pub open spec fn steps_inv(
    lw: Seq<Word>,
    rw: Seq<Word>,
    l0: int,
    l1: int,
    r0: int,
    r1: int,
    s0: Seq<Word>,
    s1: Seq<Word>,
    t0: Seq<Word>,
    t1: Seq<Word>,
    s0_end: int,
    s1_end: int,
    t0_end: int,
    t1_end: int,
    shift: nat,
    u: nat,
    v: nat,
    go: nat,
) -> bool {
    let ln = lw.len();
    let rn = rw.len();
    &&& s0.len() == rn
    &&& s1.len() == rn
    &&& t0.len() == ln
    &&& t1.len() == ln
    &&& ln + rn <= MAX_LEN
    &&& 0 <= l0 < l1 <= ln
    &&& 0 <= r0 < r1 <= rn
    &&& lw[l1 - 1] != 0
    &&& rw[r1 - 1] != 0
    &&& window(lw, l0, l1) % 2 == 1
    &&& window(rw, r0, r1) % 2 == 1
    &&& spec_gcd(window(lw, l0, l1), window(rw, r0, r1)) == go
    &&& 0 <= s0_end <= rn
    &&& 0 <= s1_end <= rn
    &&& 0 <= t0_end <= ln
    &&& 0 <= t1_end <= ln
    &&& zero_beyond(s0, s0_end)
    &&& zero_beyond(s1, s1_end)
    &&& zero_beyond(t0, t0_end)
    &&& zero_beyond(t1, t1_end)
    &&& to_nat(t1) * window(lw, l0, l1) + to_nat(t0) * window(rw, r0, r1) == u
    &&& to_nat(s1) * window(lw, l0, l1) + to_nat(s0) * window(rw, r0, r1) == v
    &&& to_nat(t1) * to_nat(s0) - to_nat(t0) * to_nat(s1) == pow2(shift)
    &&& pow2(shift) * window(lw, l0, l1) * window(rw, r0, r1) <= u * v
    &&& u < pow_base(ln)
    &&& v < pow_base(rn)
    &&& u * v < pow_base(ln + rn)
}

/// Runs the binary algorithm until both windows hold the same number, updating the coefficients.
#[verifier::rlimit(60)]
fn binary_steps(
    lhs: &mut [Word],
    rhs: &mut [Word],
    l0: usize,
    l1: usize,
    r0: usize,
    r1: usize,
    s0: &mut Vec<Word>,
    s1: &mut Vec<Word>,
    t0: &mut Vec<Word>,
    t1: &mut Vec<Word>,
    s0_end: usize,
    s1_end: usize,
    t0_end: usize,
    t1_end: usize,
    shift: usize,
    Ghost(u): Ghost<nat>,
    Ghost(v): Ghost<nat>,
    Ghost(go): Ghost<nat>,
) -> (res: (usize, usize, usize, usize, usize, usize, usize, usize, usize))
    requires
        steps_inv(
            old(lhs)@,
            old(rhs)@,
            l0 as int,
            l1 as int,
            r0 as int,
            r1 as int,
            old(s0)@,
            old(s1)@,
            old(t0)@,
            old(t1)@,
            s0_end as int,
            s1_end as int,
            t0_end as int,
            t1_end as int,
            shift as nat,
            u,
            v,
            go,
        ),
    ensures
        final(lhs)@.len() == old(lhs)@.len(),
        final(rhs)@.len() == old(rhs)@.len(),
        steps_inv(
            final(lhs)@,
            final(rhs)@,
            res.0 as int,
            res.1 as int,
            res.2 as int,
            res.3 as int,
            final(s0)@,
            final(s1)@,
            final(t0)@,
            final(t1)@,
            res.4 as int,
            res.5 as int,
            res.6 as int,
            res.7 as int,
            res.8 as nat,
            u,
            v,
            go,
        ),
        window(final(lhs)@, res.0 as int, res.1 as int) == window(
            final(rhs)@,
            res.2 as int,
            res.3 as int,
        ),
{
    let ln = lhs.len();
    let rn = rhs.len();
    let mut l0 = l0;
    let mut l1 = l1;
    let mut r0 = r0;
    let mut r1 = r1;
    let mut s0_end = s0_end;
    let mut s1_end = s1_end;
    let mut t0_end = t0_end;
    let mut t1_end = t1_end;
    let mut shift = shift;
    // Binary algorithm on the windows lhs[l0..l1] and rhs[r0..r1], keeping
    // U == T1 L + T0 R and V == S1 L + S0 R, with T1 S0 - T0 S1 == 2^shift.
    loop
        invariant
            lhs@.len() == ln,
            rhs@.len() == rn,
            steps_inv(
                lhs@,
                rhs@,
                l0 as int,
                l1 as int,
                r0 as int,
                r1 as int,
                s0@,
                s1@,
                t0@,
                t1@,
                s0_end as int,
                s1_end as int,
                t0_end as int,
                t1_end as int,
                shift as nat,
                u,
                v,
                go,
            ),
        ensures
            window(lhs@, l0 as int, l1 as int) == window(rhs@, r0 as int, r1 as int),
        decreases window(lhs@, l0 as int, l1 as int) + window(rhs@, r0 as int, r1 as int),
    {
        let ghost lv = window(lhs@, l0 as int, l1 as int);
        let ghost rv = window(rhs@, r0 as int, r1 as int);
        let ghost (tt0, tt1, ss0, ss1) = (to_nat(t0@), to_nat(t1@), to_nat(s0@), to_nat(s1@));
        proof {
            assert(lhs@.subrange(l0 as int, l1 as int).last() == lhs@[l1 - 1]);
            assert(rhs@.subrange(r0 as int, r1 as int).last() == rhs@[r1 - 1]);
        }
        let order = compare_normalized(
            vstd::slice::slice_subrange(lhs, l0, l1),
            vstd::slice::slice_subrange(rhs, r0, r1),
        );
        match order {
            Order::Equal => {
                break;
            },
            Order::Greater => {
                // lhs -= rhs
                let win = window_mut(lhs, l0, l1);
                sub_in_place(win, vstd::slice::slice_subrange(rhs, r0, r1));
                proof {
                    assert(lhs@.subrange(l0 as int, l1 as int) =~= win@);
                    lemma_to_nat_bound(win@);
                    lemma_gcd_sub(lv, rv);
                }
                // remove the factors of 2
                let (a, b, z) = remove_factors_of_two(lhs, l0, l1);
                let ghost ld = window(lhs@, a as int, b as int);
                proof {
                    lemma_odd_part((lv - rv) as nat, z as nat);
                    lemma_gcd_pow2(z as nat, ld, rv);
                    lemma_coeff_sub_step(
                        lv as int,
                        rv as int,
                        z as nat,
                        ld as int,
                        tt0 as int,
                        tt1 as int,
                        ss0 as int,
                        ss1 as int,
                        u as int,
                        v as int,
                        pow2(shift as nat) as int,
                    );
                    lemma_shift_bound_step(shift as nat, z as nat, lv as int, rv as int, ld as int, (u * v) as int);
                    lemma_pow2_adds(shift as nat, z as nat);
                    lemma_shift_fits(shift as nat, z as nat, ld as int, rv as int, (u * v) as int, (ln + rn) as nat);
                }
                l0 = a;
                l1 = b;
                shift = shift + z;
                proof {
                    lemma_prefix_value(t1@, t1_end as int);
                    lemma_prefix_value(s1@, s1_end as int);
                }
                let (_, e) = add_in_place_with_pos(
                    t0.as_mut_slice(),
                    t0_end,
                    vstd::slice::slice_subrange(t1.as_slice(), 0, t1_end),
                );
                t0_end = e;
                t1_end = shl_any_in_place_with_pos(t1.as_mut_slice(), t1_end, z);
                let (_, e) = add_in_place_with_pos(
                    s0.as_mut_slice(),
                    s0_end,
                    vstd::slice::slice_subrange(s1.as_slice(), 0, s1_end),
                );
                s0_end = e;
                s1_end = shl_any_in_place_with_pos(s1.as_mut_slice(), s1_end, z);
                proof {
                    assert(to_nat(t0@) == tt0 + tt1);
                    assert(to_nat(t1@) == tt1 * pow2(z as nat));
                    assert(to_nat(s0@) == ss0 + ss1);
                    assert(to_nat(s1@) == ss1 * pow2(z as nat));
                    assert(pow2(shift as nat) == pow2((shift - z) as nat) * pow2(z as nat));
                }
            },
            Order::Less => {
                // rhs -= lhs
                let win = window_mut(rhs, r0, r1);
                sub_in_place(win, vstd::slice::slice_subrange(lhs, l0, l1));
                proof {
                    assert(rhs@.subrange(r0 as int, r1 as int) =~= win@);
                    lemma_to_nat_bound(win@);
                    lemma_gcd_comm(lv, rv);
                    lemma_gcd_sub(rv, lv);
                }
                let (a, b, z) = remove_factors_of_two(rhs, r0, r1);
                let ghost rd = window(rhs@, a as int, b as int);
                proof {
                    lemma_odd_part((rv - lv) as nat, z as nat);
                    lemma_gcd_pow2(z as nat, rd, lv);
                    lemma_gcd_comm(rd, lv);
                    lemma_coeff_sub_step(
                        rv as int,
                        lv as int,
                        z as nat,
                        rd as int,
                        tt1 as int,
                        tt0 as int,
                        ss1 as int,
                        ss0 as int,
                        u as int,
                        v as int,
                        -pow2(shift as nat),
                    );
                    assert(pow2(shift as nat) * rv * lv == pow2(shift as nat) * lv * rv) by (nonlinear_arith);
                    lemma_shift_bound_step(shift as nat, z as nat, rv as int, lv as int, rd as int, (u * v) as int);
                    lemma_pow2_adds(shift as nat, z as nat);
                    lemma_shift_fits(shift as nat, z as nat, rd as int, lv as int, (u * v) as int, (ln + rn) as nat);
                    assert(pow2((shift + z) as nat) * lv * rd == pow2((shift + z) as nat) * rd * lv)
                        by (nonlinear_arith);
                }
                r0 = a;
                r1 = b;
                shift = shift + z;
                proof {
                    lemma_prefix_value(t0@, t0_end as int);
                    lemma_prefix_value(s0@, s0_end as int);
                }
                let (_, e) = add_in_place_with_pos(
                    t1.as_mut_slice(),
                    t1_end,
                    vstd::slice::slice_subrange(t0.as_slice(), 0, t0_end),
                );
                t1_end = e;
                t0_end = shl_any_in_place_with_pos(t0.as_mut_slice(), t0_end, z);
                let (_, e) = add_in_place_with_pos(
                    s1.as_mut_slice(),
                    s1_end,
                    vstd::slice::slice_subrange(s0.as_slice(), 0, s0_end),
                );
                s1_end = e;
                s0_end = shl_any_in_place_with_pos(s0.as_mut_slice(), s0_end, z);
                proof {
                    assert(to_nat(t1@) == tt1 + tt0);
                    assert(to_nat(t0@) == tt0 * pow2(z as nat));
                    assert(to_nat(s1@) == ss1 + ss0);
                    assert(to_nat(s0@) == ss0 * pow2(z as nat));
                    let p = pow2(z as nat) as int;
                    let d = pow2((shift - z) as nat) as int;
                    assert(-(-d * p) == d * p) by (nonlinear_arith);
                }
            },
        }
    }
    (l0, l1, r0, r1, s0_end, s1_end, t0_end, t1_end, shift)
}

/// The coefficients at the end of the binary algorithm, with `L == R == h`, turned into
/// Bézout coefficients: returns signs such that `a U - b V == h`, where `a` is `s0` and `b` is
/// `t0` with those signs.
#[verifier::rlimit(40)]
fn finish_coefficients(
    s0: &mut Vec<Word>,
    s1: &mut Vec<Word>,
    t0: &mut Vec<Word>,
    t1: &mut Vec<Word>,
    s0_end: usize,
    s1_end: usize,
    t0_end: usize,
    t1_end: usize,
    shift: usize,
    Ghost(u): Ghost<nat>,
    Ghost(v): Ghost<nat>,
    Ghost(h): Ghost<nat>,
) -> (signs: (Sign, Sign))
    requires
        old(s0)@.len() == old(s1)@.len(),
        old(t0)@.len() == old(t1)@.len(),
        old(s0)@.len() >= 1,
        old(t0)@.len() >= 1,
        s0_end <= old(s0)@.len(),
        s1_end <= old(s0)@.len(),
        t0_end <= old(t0)@.len(),
        t1_end <= old(t0)@.len(),
        zero_beyond(old(s0)@, s0_end as int),
        zero_beyond(old(s1)@, s1_end as int),
        zero_beyond(old(t0)@, t0_end as int),
        zero_beyond(old(t1)@, t1_end as int),
        to_nat(old(t1)@) * h + to_nat(old(t0)@) * h == u,
        to_nat(old(s1)@) * h + to_nat(old(s0)@) * h == v,
        to_nat(old(t1)@) * to_nat(old(s0)@) - to_nat(old(t0)@) * to_nat(old(s1)@) == pow2(
            shift as nat,
        ),
        h >= 1,
        u % 2 == 1 || v % 2 == 1,
        u < pow_base(old(t0)@.len()),
        v < pow_base(old(s0)@.len()),
    ensures
        final(s0)@.len() == old(s0)@.len(),
        final(t0)@.len() == old(t0)@.len(),
        signs.0.factor() * to_nat(final(s0)@) * u - signs.1.factor() * to_nat(final(t0)@) * v
            == h,
{
    let rn = s0.len();
    let ln = t0.len();
    let mut s0_end = s0_end;
    let mut s1_end = s1_end;
    let mut t0_end = t0_end;
    let mut t1_end = t1_end;
    // now U == (T1 + T0) h and V == (S1 + S0) h: compute U / h in t1 and V / h in s1
    let ghost (tt0, tt1, ss0, ss1) = (to_nat(t0@), to_nat(t1@), to_nat(s0@), to_nat(s1@));
    proof {
        lemma_prefix_value(s0@, s0_end as int);
        lemma_prefix_value(t0@, t0_end as int);
        assert(ss1 + ss0 <= v && tt1 + tt0 <= u) by (nonlinear_arith)
            requires
                ss1 * h + ss0 * h == v,
                tt1 * h + tt0 * h == u,
                h >= 1,
        ;
    }
    let (_, e) = add_in_place_with_pos(
        s1.as_mut_slice(),
        s1_end,
        vstd::slice::slice_subrange(s0.as_slice(), 0, s0_end),
    );
    s1_end = e;
    let (_, e) = add_in_place_with_pos(
        t1.as_mut_slice(),
        t1_end,
        vstd::slice::slice_subrange(t0.as_slice(), 0, t0_end),
    );
    t1_end = e;
    let ghost ug = to_nat(t1@);
    let ghost vg = to_nat(s1@);
    proof {
        assert(ss0 * ug - tt0 * vg == pow2(shift as nat)) by (nonlinear_arith)
            requires
                ug == tt1 + tt0,
                vg == ss1 + ss0,
                tt1 * ss0 - tt0 * ss1 == pow2(shift as nat),
        ;
        assert(ss0 <= vg && tt0 <= ug);
        assert(u == ug * h && v == vg * h) by (nonlinear_arith)
            requires
                ug == tt1 + tt0,
                vg == ss1 + ss0,
                tt1 * h + tt0 * h == u,
                ss1 * h + ss0 * h == v,
        ;
        lemma_odd_cofactor(u, ug, h);
        lemma_odd_cofactor(v, vg, h);
    }
    // now 2^shift == S0 U/h - T0 V/h; remove the powers of two, using
    // S0 U/h - T0 V/h == (S0 + V/h) U/h - (T0 + U/h) V/h
    let mut i: usize = 0;
    while i < shift
        invariant
            i <= shift,
            s0@.len() == rn,
            s1@.len() == rn,
            t0@.len() == ln,
            t1@.len() == ln,
            rn >= 1,
            ln >= 1,
            s0_end <= rn,
            s1_end <= rn,
            t0_end <= ln,
            t1_end <= ln,
            zero_beyond(s0@, s0_end as int),
            zero_beyond(s1@, s1_end as int),
            zero_beyond(t0@, t0_end as int),
            zero_beyond(t1@, t1_end as int),
            to_nat(s1@) == vg,
            to_nat(t1@) == ug,
            to_nat(s0@) * ug - to_nat(t0@) * vg == pow2((shift - i) as nat),
            to_nat(s0@) <= vg,
            to_nat(t0@) <= ug,
            ug % 2 == 1 || vg % 2 == 1,
        decreases shift - i,
    {
        let ghost a = to_nat(s0@);
        let ghost b = to_nat(t0@);
        let low = (s0[0] | t0[0]) & 1;
        proof {
            lemma_parity(s0@);
            lemma_parity(t0@);
            let (x, y) = (s0@[0], t0@[0]);
            assert(((x | y) & 1 > 0) == (x % 2 == 1 || y % 2 == 1)) by (bit_vector);
            lemma_halving_parity(a as int, b as int, ug as int, vg as int, (shift - i) as nat);
        }
        let mut s_carry = false;
        let mut t_carry = false;
        if low > 0 {
            proof {
                lemma_prefix_value(s1@, s1_end as int);
                lemma_prefix_value(t1@, t1_end as int);
            }
            let (c, e) = add_in_place_with_pos(
                s0.as_mut_slice(),
                s0_end,
                vstd::slice::slice_subrange(s1.as_slice(), 0, s1_end),
            );
            s_carry = c;
            s0_end = e;
            let (c, e) = add_in_place_with_pos(
                t0.as_mut_slice(),
                t0_end,
                vstd::slice::slice_subrange(t1.as_slice(), 0, t1_end),
            );
            t_carry = c;
            t0_end = e;
        }
        let ghost sa = if low > 0 { a + vg } else { a };
        let ghost sb = if low > 0 { b + ug } else { b };
        halve_with_carry(s0.as_mut_slice(), s0_end, s_carry);
        halve_with_carry(t0.as_mut_slice(), t0_end, t_carry);
        proof {
            vstd::arithmetic::power2::lemma_pow2_unfold((shift - i) as nat);
            lemma_halve_identity(a as int, b as int, ug as int, vg as int, low > 0, pow2((shift - i - 1) as nat) as int);
        }
        i += 1;
    }
    // now S0 U/h - T0 V/h == 1; take S0 - V/h and T0 - U/h instead if that is smaller
    let reduce = if crate::compare::ge_same_len(s0.as_slice(), s1.as_slice()) {
        true
    } else {
        sub_in_place(s1.as_mut_slice(), s0.as_slice());
        let r = crate::compare::ge_same_len(s0.as_slice(), s1.as_slice());
        add_in_place(s1.as_mut_slice(), s0.as_slice());
        proof {
            lemma_to_nat_bound(s1@);
        }
        r
    };
    let ghost (fs0, ft0) = (to_nat(s0@), to_nat(t0@));
    let mut ssign = Sign::Positive;
    let mut tsign = Sign::Positive;
    if reduce {
        ssign = crate::add::sub_in_place_with_sign(s0.as_mut_slice(), s1.as_slice());
        tsign = crate::add::sub_in_place_with_sign(t0.as_mut_slice(), t1.as_slice());
    }
    proof {
        vstd::arithmetic::power2::lemma2_to64();
        let ca = ssign.factor() * to_nat(s0@);
        let cb = tsign.factor() * to_nat(t0@);
        lemma_sign_mul(ssign, to_nat(s0@) as int);
        lemma_sign_mul(tsign, to_nat(t0@) as int);
        assert(ca * ug - cb * vg == 1) by (nonlinear_arith)
            requires
                fs0 * ug - ft0 * vg == 1,
                reduce ==> ca == fs0 - vg && cb == ft0 - ug,
                !reduce ==> ca == fs0 && cb == ft0,
        ;
    }
    proof {
        let ca = ssign.factor() * to_nat(s0@);
        let cb = tsign.factor() * to_nat(t0@);
        assert(ca * u - cb * v == h) by (nonlinear_arith)
            requires
                ca * ug - cb * vg == 1,
                u == ug * h,
                v == vg * h,
        ;
    }
    (ssign, tsign)
}

/// Halves in place the even number held in `words` plus `carry` times `B^len`.
fn halve_with_carry(words: &mut [Word], end: usize, carry: bool)
    requires
        end <= old(words)@.len(),
        zero_beyond(old(words)@, end as int),
        carry ==> end == old(words)@.len(),
        (to_nat(old(words)@) + (if carry {
            pow_base(old(words)@.len())
        } else {
            0
        })) % 2 == 0,
    ensures
        final(words)@.len() == old(words)@.len(),
        zero_beyond(final(words)@, end as int),
        to_nat(final(words)@) == (to_nat(old(words)@) + (if carry {
            pow_base(old(words)@.len())
        } else {
            0
        })) / 2,
{
    let ghost w0 = words@;
    let ghost total = to_nat(w0) + (if carry {
        pow_base(w0.len())
    } else {
        0
    });
    let top: Word = if carry {
        0x8000_0000_0000_0000
    } else {
        0
    };
    proof {
        lemma_prefix_value(w0, end as int);
        vstd::arithmetic::power2::lemma2_to64_rest();
        assert(pow2(63) == 0x8000_0000_0000_0000);
        assert((64 - 1) as nat == 63);
        if carry {
            vstd::arithmetic::div_mod::lemma_mod_self_0(0x8000_0000_0000_0000int);
        } else {
            vstd::arithmetic::div_mod::lemma_small_mod(0, 0x8000_0000_0000_0000nat);
        }
        assert((top as int) % (pow2((64 - 1) as nat) as int) == 0);
    }
    let win = window_mut(words, 0, end);
    let ghost low0 = win@;
    let r = crate::shift::shr_in_place_with_carry(win, 1, top);
    let ghost halved = win@;
    proof {
        vstd::arithmetic::power2::lemma2_to64();
        assert(low0 =~= w0.subrange(0, end as int));
        if carry {
            assert((top as int) / (pow2(63) as int) == 1);
            assert(((top as int) / (pow2(63) as int)) * pow_base(end as nat) == pow_base(end as nat));
        } else {
            assert((top as int) / (pow2(63) as int) == 0);
            assert(((top as int) / (pow2(63) as int)) * pow_base(end as nat) == 0);
        }
        assert(to_nat(halved) * 2 + r == total);
        assert(r == 0);
        assert(words@.subrange(0, end as int) =~= halved);
        assert(zero_beyond(words@, end as int));
        lemma_prefix_value(words@, end as int);
    }
}

/// Multiplying by the factor of a sign.
proof fn lemma_sign_mul(sign: Sign, x: int)
    ensures
        sign.factor() * x == (if sign == Sign::Positive { x } else { -x }),
{
}

/// A factor of an odd number is odd.
proof fn lemma_odd_cofactor(x: nat, a: nat, b: nat)
    requires
        x == a * b,
    ensures
        x % 2 == 1 ==> a % 2 == 1,
{
    if x % 2 == 1 && a % 2 == 0 {
        vstd::arithmetic::div_mod::lemma_fundamental_div_mod(a as int, 2);
        assert(x == 2 * ((a / 2) * b)) by (nonlinear_arith)
            requires
                x == a * b,
                a == 2 * (a / 2),
        ;
        vstd::arithmetic::div_mod::lemma_mod_multiples_basic(((a / 2) * b) as int, 2);
        assert(2 * ((a / 2) * b) == ((a / 2) * b) * 2) by (nonlinear_arith);
    }
}

/// The identity `a u - b v == 2e` becomes `a' u - b' v == e` after halving `a (+ v)`, `b (+ u)`.
proof fn lemma_halve_identity(a: int, b: int, u: int, v: int, add: bool, e: int)
    requires
        a * u - b * v == 2 * e,
        (if add { a + v } else { a }) % 2 == 0,
        (if add { b + u } else { b }) % 2 == 0,
    ensures
        ((if add { a + v } else { a }) / 2) * u - ((if add { b + u } else { b }) / 2) * v == e,
{
    let sa = if add { a + v } else { a };
    let sb = if add { b + u } else { b };
    assert(sa * u - sb * v == 2 * e) by (nonlinear_arith)
        requires
            a * u - b * v == 2 * e,
            sa == (if add { a + v } else { a }),
            sb == (if add { b + u } else { b }),
    ;
    vstd::arithmetic::div_mod::lemma_fundamental_div_mod(sa, 2);
    vstd::arithmetic::div_mod::lemma_fundamental_div_mod(sb, 2);
    assert((sa / 2) * u - (sb / 2) * v == e) by (nonlinear_arith)
        requires
            sa * u - sb * v == 2 * e,
            sa == 2 * (sa / 2),
            sb == 2 * (sb / 2),
    ;
}

/// From `a U - b V == h`, with `x == 2^z U`, `y == 2^z V` and `g == 2^z h`: `a x - b y == g`.
proof fn lemma_bezout_scale(a: int, b: int, u: int, v: int, h: int, p: int, x: int, y: int, g: int)
    requires
        a * u - b * v == h,
        x == p * u,
        y == p * v,
        g == p * h,
    ensures
        a * x - b * y == g,
{
    assert(a * x == p * (a * u)) by (nonlinear_arith)
        requires
            x == p * u,
    ;
    assert(b * y == p * (b * v)) by (nonlinear_arith)
        requires
            y == p * v,
    ;
    assert(p * (a * u) - p * (b * v) == p * (a * u - b * v)) by (nonlinear_arith);
}

/// A single power of two `2^shift` written in `n` zero words.
proof fn lemma_power_in_words(n: nat, shift: nat, w: Word)
    requires
        shift / 64 < n,
        w == pow2(shift % 64),
    ensures
        to_nat(zero_seq(n).update((shift / 64) as int, w)) == pow2(shift),
        zero_beyond(zero_seq(n).update((shift / 64) as int, w), (shift / 64 + 1) as int),
{
    let k = shift / 64;
    crate::value::lemma_to_nat_zero_iff(zero_seq(n));
    crate::value::lemma_to_nat_update(zero_seq(n), k as int, w);
    crate::shift_ops::lemma_pow2_split(shift);
    vstd::arithmetic::mul::lemma_mul_is_commutative(w as int, pow_base(k) as int);
}

/// The exponent of a power of two dividing a number held in `n` words is below `64 n`.
proof fn lemma_exponent_fits(x: nat, z: nat, odd: nat, shift: nat, n: nat)
    requires
        x == pow2(z) * odd,
        odd % 2 == 1,
        shift <= z,
        x < pow_base(n),
    ensures
        shift / 64 < n,
        pow2(shift) * odd <= x,
{
    lemma_pow2_adds(shift, (z - shift) as nat);
    lemma_pow2_pos(shift);
    lemma_pow2_pos((z - shift) as nat);
    assert(pow2(shift) <= pow2(shift) * odd <= x) by (nonlinear_arith)
        requires
            x == (pow2(shift) * pow2((z - shift) as nat)) * odd,
            odd >= 1,
            pow2((z - shift) as nat) >= 1,
            pow2(shift) >= 1,
    ;
    lemma_pow2_below_pow_base(shift, n);
}

/// The starting state: `x == 2^init U`, `y == 2^init V`, one of `U`, `V` odd, and the bounds.
proof fn lemma_init_state(
    x: nat,
    y: nat,
    lz: nat,
    rz: nat,
    lw: nat,
    rw: nat,
    init: nat,
    shift: nat,
    u: nat,
    v: nat,
    ln: nat,
    rn: nat,
)
    requires
        x == pow2(lz) * lw,
        y == pow2(rz) * rw,
        lw % 2 == 1,
        rw % 2 == 1,
        init == (if lz < rz { lz } else { rz }),
        shift == (if lz < rz { rz - lz } else { lz - rz }),
        u == (if lz > rz { pow2(shift) * lw } else { lw }),
        v == (if lz < rz { pow2(shift) * rw } else { rw }),
        x < pow_base(ln),
        y < pow_base(rn),
    ensures
        x == pow2(init) * u,
        y == pow2(init) * v,
        u % 2 == 1 || v % 2 == 1,
        spec_gcd(x, y) == pow2(init) * spec_gcd(lw, rw),
        u <= x,
        v <= y,
        u < pow_base(ln),
        v < pow_base(rn),
        u * v < pow_base(ln + rn),
        pow2(shift) * lw * rw == u * v,
{
    lemma_gcd_odd_parts(lz, lw, rz, rw);
    lemma_pow2_adds(init, shift);
    lemma_pow2_pos(init);
    lemma_pow2_pos(shift);
    if lz > rz {
        assert(x == pow2(init) * u) by (nonlinear_arith)
            requires
                x == pow2(lz) * lw,
                pow2(lz) == pow2(init) * pow2(shift),
                u == pow2(shift) * lw,
        ;
    } else if lz < rz {
        assert(y == pow2(init) * v) by (nonlinear_arith)
            requires
                y == pow2(rz) * rw,
                pow2(rz) == pow2(init) * pow2(shift),
                v == pow2(shift) * rw,
        ;
    } else {
        vstd::arithmetic::power2::lemma2_to64();
    }
    assert(u <= x && v <= y) by (nonlinear_arith)
        requires
            x == pow2(init) * u,
            y == pow2(init) * v,
            pow2(init) >= 1,
    ;
    crate::value::lemma_pow_base_add(ln, rn);
    assert(u * v < pow_base(ln) * pow_base(rn)) by (nonlinear_arith)
        requires
            u < pow_base(ln),
            v < pow_base(rn),
    ;
    assert(pow2(shift) * lw * rw == u * v) by (nonlinear_arith)
        requires
            u == (if lz > rz { pow2(shift) * lw } else { lw }),
            v == (if lz < rz { pow2(shift) * rw } else { rw }),
            lz == rz ==> pow2(shift) == 1,
    ;
}

/// The accumulated shift stays below `64 (ln + rn)`, so it fits in a `usize`.
proof fn lemma_shift_fits(shift: nat, z: nat, ld: int, r: int, uv: int, n: nat)
    requires
        pow2(shift + z) * ld * r <= uv,
        ld >= 1,
        r >= 1,
        uv < pow_base(n),
    ensures
        shift + z < 64 * n,
{
    lemma_pow2_pos(shift + z);
    assert(pow2(shift + z) <= pow2(shift + z) * ld * r) by (nonlinear_arith)
        requires
            ld >= 1,
            r >= 1,
            pow2(shift + z) >= 1,
    ;
    lemma_pow2_below_pow_base(shift + z, n);
}

/// `n` zero words, as a sequence.
pub open spec fn zero_seq(n: nat) -> Seq<Word> {
    Seq::new(n, |i: int| 0u64)
}

} // verus!
