//! The greatest common divisor of natural numbers, and its laws.

use vstd::arithmetic::power2::{lemma_pow2_adds, lemma_pow2_pos, lemma_pow2_unfold, pow2};
use vstd::prelude::*;

verus! {

/// `d` divides `x`.
pub open spec fn divides(d: nat, x: nat) -> bool {
    d > 0 && x % d == 0
}

/// Greatest common divisor, by Euclid's algorithm.
pub open spec fn spec_gcd(a: nat, b: nat) -> nat
    decreases b,
{
    if b == 0 {
        a
    } else {
        spec_gcd(b, a % b)
    }
}

/// `d` divides `x` exactly when `x` is a multiple of `d`.
proof fn lemma_divides_mul(d: nat, k: nat)
    requires
        d > 0,
    ensures
        divides(d, d * k),
{
    vstd::arithmetic::div_mod::lemma_mod_multiples_basic(k as int, d as int);
    vstd::arithmetic::mul::lemma_mul_is_commutative(k as int, d as int);
}

/// The quotient of a divisible number.
proof fn lemma_divides_quotient(d: nat, x: nat)
    requires
        divides(d, x),
    ensures
        x == d * (x / d),
{
    vstd::arithmetic::div_mod::lemma_fundamental_div_mod(x as int, d as int);
}

/// A divisor of `x` and `y` divides `x + y`.
proof fn lemma_divides_add(d: nat, x: nat, y: nat)
    requires
        divides(d, x),
        divides(d, y),
    ensures
        divides(d, x + y),
{
    lemma_divides_quotient(d, x);
    lemma_divides_quotient(d, y);
    let kx = x / d;
    let ky = y / d;
    assert(x + y == d * (kx + ky)) by (nonlinear_arith)
        requires
            x == d * kx,
            y == d * ky,
    ;
    lemma_divides_mul(d, (kx + ky) as nat);
}

/// A divisor of `x` and `y` divides `x - y`.
proof fn lemma_divides_sub(d: nat, x: nat, y: nat)
    requires
        divides(d, x),
        divides(d, y),
        x >= y,
    ensures
        divides(d, (x - y) as nat),
{
    lemma_divides_quotient(d, x);
    lemma_divides_quotient(d, y);
    let kx = x / d;
    let ky = y / d;
    assert(kx >= ky) by (nonlinear_arith)
        requires
            x == d * kx,
            y == d * ky,
            x >= y,
            d > 0,
    ;
    assert(x - y == d * (kx - ky)) by (nonlinear_arith)
        requires
            x == d * kx,
            y == d * ky,
    ;
    lemma_divides_mul(d, (kx - ky) as nat);
}

/// A divisor of `x` divides every multiple of `x`.
proof fn lemma_divides_multiple(d: nat, x: nat, k: nat)
    requires
        divides(d, x),
    ensures
        divides(d, k * x),
{
    lemma_divides_quotient(d, x);
    let q = x / d;
    assert(k * x == d * (k * q)) by (nonlinear_arith)
        requires
            x == d * q,
    ;
    lemma_divides_mul(d, k * q);
}

/// A divisor of a positive number is at most that number.
pub proof fn lemma_divides_le(d: nat, x: nat)
    requires
        divides(d, x),
        x > 0,
    ensures
        d <= x,
{
    lemma_divides_quotient(d, x);
    let q = x / d;
    assert(d <= x) by (nonlinear_arith)
        requires
            x == d * q,
            x > 0,
            d > 0,
    ;
}

/// Two positive numbers that divide each other are equal.
pub proof fn lemma_divides_antisym(x: nat, y: nat)
    requires
        divides(x, y),
        divides(y, x),
    ensures
        x == y,
{
    lemma_divides_le(x, y);
    lemma_divides_le(y, x);
}

/// The gcd of numbers not both zero is a positive common divisor.
pub proof fn lemma_gcd_divides(a: nat, b: nat)
    requires
        a + b > 0,
    ensures
        spec_gcd(a, b) > 0,
        divides(spec_gcd(a, b), a),
        divides(spec_gcd(a, b), b),
    decreases b,
{
    if b == 0 {
        vstd::arithmetic::div_mod::lemma_mod_self_0(a as int);
        vstd::arithmetic::div_mod::lemma_small_mod(0, a);
    } else {
        vstd::arithmetic::div_mod::lemma_mod_bound(a as int, b as int);
        lemma_gcd_divides(b, a % b);
        let g = spec_gcd(a, b);
        // a == b * (a / b) + a % b
        vstd::arithmetic::div_mod::lemma_fundamental_div_mod(a as int, b as int);
        lemma_divides_multiple(g, b, a / b);
        vstd::arithmetic::mul::lemma_mul_is_commutative(b as int, (a / b) as int);
        lemma_divides_add(g, (b * (a / b)) as nat, a % b);
    }
}

/// Every common divisor divides the gcd.
pub proof fn lemma_gcd_greatest(a: nat, b: nat, d: nat)
    requires
        divides(d, a),
        divides(d, b),
    ensures
        divides(d, spec_gcd(a, b)),
    decreases b,
{
    if b > 0 {
        vstd::arithmetic::div_mod::lemma_fundamental_div_mod(a as int, b as int);
        vstd::arithmetic::div_mod::lemma_mod_bound(a as int, b as int);
        lemma_divides_multiple(d, b, a / b);
        vstd::arithmetic::mul::lemma_mul_is_commutative(b as int, (a / b) as int);
        lemma_divides_sub(d, a, (b * (a / b)) as nat);
        lemma_gcd_greatest(b, a % b, d);
    }
}

/// Two pairs with the same common divisors have the same gcd.
proof fn lemma_gcd_same_divisors(a: nat, b: nat, c: nat, e: nat)
    requires
        a + b > 0,
        c + e > 0,
        divides(spec_gcd(a, b), c) && divides(spec_gcd(a, b), e),
        divides(spec_gcd(c, e), a) && divides(spec_gcd(c, e), b),
    ensures
        spec_gcd(a, b) == spec_gcd(c, e),
{
    lemma_gcd_divides(a, b);
    lemma_gcd_divides(c, e);
    lemma_gcd_greatest(c, e, spec_gcd(a, b));
    lemma_gcd_greatest(a, b, spec_gcd(c, e));
    lemma_divides_antisym(spec_gcd(a, b), spec_gcd(c, e));
}

/// `gcd(a, b) == gcd(b, a)`.
pub proof fn lemma_gcd_comm(a: nat, b: nat)
    ensures
        spec_gcd(a, b) == spec_gcd(b, a),
{
    if a + b == 0 {
        assert(a == 0 && b == 0);
    } else {
        lemma_gcd_divides(a, b);
        lemma_gcd_divides(b, a);
        lemma_gcd_same_divisors(a, b, b, a);
    }
}

/// `gcd(a - b, b) == gcd(a, b)` for `a >= b`.
pub proof fn lemma_gcd_sub(a: nat, b: nat)
    requires
        a >= b,
    ensures
        spec_gcd((a - b) as nat, b) == spec_gcd(a, b),
{
    if a + b == 0 {
    } else if a - b + b == 0 {
    } else {
        let g = spec_gcd(a, b);
        let h = spec_gcd((a - b) as nat, b);
        lemma_gcd_divides(a, b);
        lemma_gcd_divides((a - b) as nat, b);
        lemma_divides_sub(g, a, b);
        lemma_divides_add(h, (a - b) as nat, b);
        lemma_gcd_same_divisors(a, b, (a - b) as nat, b);
    }
}

/// `gcd(a % b, b) == gcd(a, b)` for `b > 0`.
pub proof fn lemma_gcd_mod(a: nat, b: nat)
    requires
        b > 0,
    ensures
        spec_gcd(a % b, b) == spec_gcd(a, b),
{
    lemma_gcd_comm(a % b, b);
}

/// `gcd(0, b) == b`.
pub proof fn lemma_gcd_zero(b: nat)
    ensures
        spec_gcd(0, b) == b,
{
    if b > 0 {
        vstd::arithmetic::div_mod::lemma_small_mod(0, b);
        assert(spec_gcd(b, 0) == b);
    }
}

/// An odd divisor of `2 x` divides `x`.
proof fn lemma_odd_divides_half(d: nat, x: nat)
    requires
        divides(d, 2 * x),
        d % 2 == 1,
    ensures
        divides(d, x),
{
    lemma_divides_quotient(d, 2 * x);
    let k = (2 * x) / d;
    // d * k is even with d odd, so k is even.
    vstd::arithmetic::div_mod::lemma_fundamental_div_mod(k as int, 2);
    vstd::arithmetic::div_mod::lemma_fundamental_div_mod(d as int, 2);
    let k2 = k / 2;
    let d2 = d / 2;
    if k % 2 == 1 {
        assert(2 * x == 2 * (d * k2 + d2 * 2 * k2 + d2) + 1) by (nonlinear_arith)
            requires
                2 * x == d * k,
                k == 2 * k2 + 1,
                d == 2 * d2 + 1,
        ;
        assert(false) by (nonlinear_arith)
            requires
                2 * x == 2 * (d * k2 + d2 * 2 * k2 + d2) + 1,
        ;
    }
    assert(x == d * k2) by (nonlinear_arith)
        requires
            2 * x == d * k,
            k == 2 * k2,
    ;
    lemma_divides_mul(d, k2);
}

/// A divisor of an odd number is odd.
pub proof fn lemma_divisor_of_odd(d: nat, b: nat)
    requires
        divides(d, b),
        b % 2 == 1,
    ensures
        d % 2 == 1,
{
    lemma_divides_quotient(d, b);
    let q = b / d;
    if d % 2 == 0 {
        vstd::arithmetic::div_mod::lemma_fundamental_div_mod(d as int, 2);
        let d2 = d / 2;
        assert(b == 2 * (d2 * q)) by (nonlinear_arith)
            requires
                b == d * q,
                d == 2 * d2,
        ;
        vstd::arithmetic::div_mod::lemma_mod_multiples_basic((d2 * q) as int, 2);
        vstd::arithmetic::mul::lemma_mul_is_commutative((d2 * q) as int, 2);
    }
}

/// `gcd(a / 2, b) == gcd(a, b)` for `a` even and `b` odd.
pub proof fn lemma_gcd_half(a: nat, b: nat)
    requires
        a % 2 == 0,
        b % 2 == 1,
    ensures
        spec_gcd(a / 2, b) == spec_gcd(a, b),
{
    vstd::arithmetic::div_mod::lemma_fundamental_div_mod(a as int, 2);
    let h = a / 2;
    assert(a == 2 * h);
    let g = spec_gcd(a, b);
    let g2 = spec_gcd(h, b);
    lemma_gcd_divides(a, b);
    lemma_gcd_divides(h, b);
    lemma_divisor_of_odd(g, b);
    lemma_odd_divides_half(g, h);
    lemma_divides_multiple(g2, h, 2);
    lemma_gcd_same_divisors(a, b, h, b);
}

/// `gcd(2^k x, b) == gcd(x, b)` for `b` odd.
pub proof fn lemma_gcd_pow2(k: nat, x: nat, b: nat)
    requires
        b % 2 == 1,
    ensures
        spec_gcd(pow2(k) * x, b) == spec_gcd(x, b),
    decreases k,
{
    if k == 0 {
        vstd::arithmetic::power2::lemma2_to64();
    } else {
        lemma_pow2_unfold(k);
        lemma_pow2_pos((k - 1) as nat);
        let y = pow2((k - 1) as nat) * x;
        assert(pow2(k) * x == 2 * y) by (nonlinear_arith)
            requires
                pow2(k) == 2 * pow2((k - 1) as nat),
                y == pow2((k - 1) as nat) * x,
        ;
        vstd::arithmetic::div_mod::lemma_mod_multiples_basic(y as int, 2);
        vstd::arithmetic::mul::lemma_mul_is_commutative(y as int, 2);
        vstd::arithmetic::div_mod::lemma_div_multiples_vanish(y as int, 2);
        lemma_gcd_half(2 * y, b);
        lemma_gcd_pow2((k - 1) as nat, x, b);
    }
}

/// `(k a) % (k b) == k (a % b)`.
proof fn lemma_mod_scale(k: nat, a: nat, b: nat)
    requires
        k > 0,
        b > 0,
    ensures
        (k * a) % (k * b) == k * (a % b),
{
    vstd::arithmetic::div_mod::lemma_fundamental_div_mod(a as int, b as int);
    vstd::arithmetic::div_mod::lemma_mod_bound(a as int, b as int);
    let q = a / b;
    let r = a % b;
    assert(k * a == q * (k * b) + k * r) by (nonlinear_arith)
        requires
            a == b * q + r,
    ;
    assert(0 <= k * r < k * b) by (nonlinear_arith)
        requires
            0 <= r < b,
            k > 0,
    ;
    assert(k * b > 0) by (nonlinear_arith)
        requires
            k > 0,
            b > 0,
    ;
    vstd::arithmetic::div_mod::lemma_fundamental_div_mod_converse(
        (k * a) as int,
        (k * b) as int,
        q as int,
        (k * r) as int,
    );
}

/// `gcd(k a, k b) == k gcd(a, b)`.
pub proof fn lemma_gcd_scale(k: nat, a: nat, b: nat)
    requires
        k > 0,
    ensures
        spec_gcd(k * a, k * b) == k * spec_gcd(a, b),
    decreases b,
{
    if b == 0 {
        assert(k * b == 0) by (nonlinear_arith)
            requires
                b == 0,
        ;
    } else {
        assert(k * b > 0) by (nonlinear_arith)
            requires
                k > 0,
                b > 0,
        ;
        lemma_mod_scale(k, a, b);
        vstd::arithmetic::div_mod::lemma_mod_bound(a as int, b as int);
        lemma_gcd_scale(k, b, a % b);
    }
}

/// Removing the factors of two: `gcd(2^za a, 2^zb b) == 2^min(za, zb) gcd(a, b)` for `a` and
/// `b` odd.
pub proof fn lemma_gcd_odd_parts(za: nat, a: nat, zb: nat, b: nat)
    requires
        a % 2 == 1,
        b % 2 == 1,
    ensures
        spec_gcd(pow2(za) * a, pow2(zb) * b) == pow2(if za < zb {
            za
        } else {
            zb
        }) * spec_gcd(a, b),
{
    let z = if za < zb {
        za
    } else {
        zb
    };
    lemma_pow2_adds(z, (za - z) as nat);
    lemma_pow2_adds(z, (zb - z) as nat);
    lemma_pow2_pos(z);
    let pz = pow2(z);
    let x = pow2((za - z) as nat) * a;
    let y = pow2((zb - z) as nat) * b;
    assert(pow2(za) * a == pz * x) by (nonlinear_arith)
        requires
            pow2(za) == pz * pow2((za - z) as nat),
            x == pow2((za - z) as nat) * a,
    ;
    assert(pow2(zb) * b == pz * y) by (nonlinear_arith)
        requires
            pow2(zb) == pz * pow2((zb - z) as nat),
            y == pow2((zb - z) as nat) * b,
    ;
    lemma_gcd_scale(pz, x, y);
    if za < zb {
        vstd::arithmetic::power2::lemma2_to64();
        assert(x == a);
        lemma_gcd_comm(a, y);
        lemma_gcd_pow2((zb - z) as nat, b, a);
        lemma_gcd_comm(b, a);
    } else {
        vstd::arithmetic::power2::lemma2_to64();
        assert(y == b);
        lemma_gcd_pow2((za - z) as nat, a, b);
    }
}

} // verus!
