//! Greatest common divisor.

use crate::bits::{is_trailing_zeros, spec_bit};
use crate::gcd_spec::{
    divides, lemma_divides_le, lemma_divisor_of_odd, lemma_gcd_comm, lemma_gcd_divides,
    lemma_gcd_greatest, lemma_gcd_half, lemma_gcd_mod, lemma_gcd_odd_parts, lemma_gcd_pow2,
    lemma_gcd_scale, lemma_gcd_sub, lemma_gcd_zero, spec_gcd,
};
use crate::ibig::{abs, IBig};
use crate::sign::Sign;
use crate::ubig::{fits, UBig};
use vstd::arithmetic::power2::{lemma_pow2_pos, pow2};
use vstd::prelude::*;

verus! {

/// A number with `k` trailing zeros is `2^k` times an odd number.
proof fn lemma_trailing_zeros_split(x: nat, k: nat)
    requires
        is_trailing_zeros(x, k),
    ensures
        x == pow2(k) * (x / pow2(k)),
        (x / pow2(k)) % 2 == 1,
{
    lemma_pow2_pos(k);
    vstd::arithmetic::div_mod::lemma_fundamental_div_mod(x as int, pow2(k) as int);
}

/// Bit 0 is the parity.
proof fn lemma_bit0(x: nat)
    ensures
        spec_bit(x, 0) == (x % 2 == 1),
{
    vstd::arithmetic::power2::lemma2_to64();
    vstd::arithmetic::div_mod::lemma_div_basics_2(x as int);
}

/// The gcd of numbers not both zero is at most the larger, so it fits when both do.
proof fn lemma_gcd_fits(a: nat, b: nat)
    requires
        a + b > 0,
        fits(a),
        fits(b),
    ensures
        fits(spec_gcd(a, b)),
{
    lemma_gcd_divides(a, b);
    if a > 0 {
        lemma_divides_le(spec_gcd(a, b), a);
    } else {
        lemma_divides_le(spec_gcd(a, b), b);
    }
}

impl UBig {
    /// Greatest common divisor.
    pub fn gcd(&self, rhs: &UBig) -> (r: UBig)
        requires
            self@ != 0 || rhs@ != 0,
        ensures
            r@ == spec_gcd(self@, rhs@),
    {
        let mut a = self.clone();
        let mut b = rhs.clone();
        let ta = a.trailing_zeros();
        let tb = b.trailing_zeros();
        self.value_fits();
        rhs.value_fits();
        let zeros = match (ta, tb) {
            (None, _) => {
                proof {
                    lemma_gcd_zero(rhs@);
                }
                return b;
            },
            (_, None) => {
                return a;
            },
            (Some(a_zeros), Some(b_zeros)) => {
                proof {
                    lemma_trailing_zeros_split(self@, a_zeros as nat);
                    lemma_trailing_zeros_split(rhs@, b_zeros as nat);
                }
                a.shr_assign(a_zeros);
                b.shr_assign(b_zeros);
                proof {
                    lemma_gcd_odd_parts(a_zeros as nat, a@, b_zeros as nat, b@);
                }
                crate::math::min_usize(a_zeros, b_zeros)
            },
        };
        let ghost g = spec_gcd(self@, rhs@);
        proof {
            lemma_gcd_fits(self@, rhs@);
        }
        // One round of Euclidean algorithm.
        if a.lt(&b) {
            proof {
                lemma_gcd_comm(a@, b@);
            }
            std::mem::swap(&mut a, &mut b);
        }
        proof {
            lemma_gcd_mod(a@, b@);
        }
        a.rem_assign(&b);
        // Binary algorithm.
        loop
            invariant_except_break
                b@ % 2 == 1,
            invariant
                g == spec_gcd(self@, rhs@),
                g == pow2(zeros as nat) * spec_gcd(a@, b@),
                fits(g),
            ensures
                b@ % 2 == 1,
                a@ == 0,
            decreases a@ + b@,
        {
            // b is odd
            match a.trailing_zeros() {
                None => break,
                Some(a_zeros) => {
                    proof {
                        lemma_trailing_zeros_split(a@, a_zeros as nat);
                        lemma_gcd_pow2(a_zeros as nat, a@ / pow2(a_zeros as nat), b@);
                        lemma_pow2_pos(a_zeros as nat);
                    }
                    a.shr_assign(a_zeros);
                },
            }
            // a is odd
            if a.lt(&b) {
                proof {
                    lemma_gcd_comm(a@, b@);
                }
                std::mem::swap(&mut a, &mut b);
            }
            proof {
                lemma_gcd_sub(a@, b@);
            }
            a.sub_assign(&b);
        }
        proof {
            lemma_gcd_zero(b@);
            vstd::arithmetic::mul::lemma_mul_is_commutative(b@ as int, pow2(zeros as nat) as int);
        }
        b.shl(zeros)
    }

    /// Greatest common divisor `g`, with `x` and `y` such that `g == self * x + rhs * y`.
    pub fn extended_gcd(&self, rhs: &UBig) -> (r: (UBig, IBig, IBig))
        requires
            self@ != 0 || rhs@ != 0,
            fits(2 * self@),
            fits(2 * rhs@),
        ensures
            r.0@ == spec_gcd(self@, rhs@),
            r.0@ == self@ * r.1@ + rhs@ * r.2@,
            abs(r.1@) <= max_one(rhs@),
            abs(r.2@) <= max_one(self@),
    {
        let ta = self.trailing_zeros();
        let tb = rhs.trailing_zeros();
        self.value_fits();
        rhs.value_fits();
        let ghost mut za: nat = 0;
        let ghost mut zb: nat = 0;
        let zeros = match (ta, tb) {
            (None, _) => {
                proof {
                    lemma_gcd_zero(rhs@);
                    assert(self@ * 0 + rhs@ * 1 == rhs@) by (nonlinear_arith);
                }
                return (rhs.clone(), IBig::zero(), IBig::one());
            },
            (_, None) => {
                proof {
                    assert(self@ * 1 + rhs@ * 0 == self@) by (nonlinear_arith);
                }
                return (self.clone(), IBig::one(), IBig::zero());
            },
            (Some(a_zeros), Some(b_zeros)) => {
                proof {
                    za = a_zeros as nat;
                    zb = b_zeros as nat;
                }
                crate::math::min_usize(a_zeros, b_zeros)
            },
        };
        let u = self.shr(zeros);
        let v = rhs.shr(zeros);
        proof {
            lemma_xgcd_setup(self@, rhs@, za, zb, zeros as nat, u@, v@);
            lemma_gcd_fits(self@, rhs@);
        }
        let mut a;
        let mut b;
        let mut ax;
        let mut ay;
        let mut bx;
        let mut by;
        // One round of Euclidean algorithm.
        if !v.lt(&u) {
            let (q, r) = v.div_rem(&u);
            proof {
                lemma_xgcd_first_round_le(u@, v@, q@, r@);
            }
            a = u.clone();
            ax = UBig::from_word(1);
            ay = UBig::from_word(0);
            b = r;
            bx = v.sub(&q);
            by = u.sub(&UBig::from_word(1));
        } else {
            let (q, r) = u.div_rem(&v);
            proof {
                lemma_xgcd_first_round_gt(u@, v@, q@, r@);
            }
            a = v.clone();
            ax = v.clone();
            ay = u.sub(&UBig::from_word(1));
            b = r;
            bx = UBig::from_word(1);
            by = q;
        }
        let ghost m = if u@ < v@ {
            u@
        } else {
            v@
        };
        // At least one of a and b is odd (because gcd(u, v) is odd). Make b odd.
        proof {
            lemma_bit0(b@);
            lemma_bit0(a@);
            lemma_xgcd_one_odd(a@, b@, u@, v@);
        }
        if !b.bit(0) {
            proof {
                lemma_gcd_comm(a@, b@);
            }
            std::mem::swap(&mut a, &mut b);
            std::mem::swap(&mut ax, &mut bx);
            std::mem::swap(&mut ay, &mut by);
        }
        // Binary algorithm.
        while !a.is_zero()
            invariant
                u@ >= 1,
                v@ >= 1,
                fits(2 * u@),
                fits(2 * v@),
                u@ % 2 == 1 || v@ % 2 == 1,
                m == (if u@ < v@ {
                    u@
                } else {
                    v@
                }),
                b@ % 2 == 1,
                a@ <= m,
                b@ <= m,
                ax@ <= v@,
                bx@ <= v@,
                ay@ <= u@,
                by@ <= u@,
                a@ == ax@ * u@ - ay@ * v@,
                b@ == bx@ * u@ - by@ * v@,
                spec_gcd(a@, b@) == spec_gcd(u@, v@),
            decreases a@ + b@,
        {
            let ghost a_start = a@;
            // b is odd
            loop
                invariant_except_break
                    a@ > 0,
                invariant
                    a@ <= a_start,
                    u@ >= 1,
                    v@ >= 1,
                    fits(2 * u@),
                    fits(2 * v@),
                    u@ % 2 == 1 || v@ % 2 == 1,
                    b@ % 2 == 1,
                    a@ <= m,
                    ax@ <= v@,
                    ay@ <= u@,
                    a@ == ax@ * u@ - ay@ * v@,
                    spec_gcd(a@, b@) == spec_gcd(u@, v@),
                ensures
                    a@ > 0,
                    a@ % 2 == 1,
                decreases a@,
            {
                proof {
                    lemma_bit0(a@);
                }
                if a.bit(0) {
                    break;
                }
                // a is even
                proof {
                    lemma_bit0(ax@);
                    lemma_bit0(ay@);
                }
                let ghost ax0 = ax@;
                let ghost ay0 = ay@;
                if ax.bit(0) || ay.bit(0) {
                    ax.add_assign(&v);
                    ay.add_assign(&u);
                }
                proof {
                    lemma_xgcd_halve(a@, ax0 as int, ay0 as int, ax@ as int, ay@ as int, u@ as int, v@ as int);
                    lemma_gcd_half(a@, b@);
                }
                // Now ax, ay are even.
                a.shr_assign(1);
                ax.shr_assign(1);
                ay.shr_assign(1);
                proof {
                    vstd::arithmetic::power2::lemma2_to64();
                }
            }
            // Both a and b are odd.
            if a.lt(&b) {
                proof {
                    lemma_gcd_comm(a@, b@);
                }
                std::mem::swap(&mut a, &mut b);
                std::mem::swap(&mut ax, &mut bx);
                std::mem::swap(&mut ay, &mut by);
            }
            proof {
                lemma_gcd_sub(a@, b@);
            }
            let ghost a0 = a@;
            a.sub_assign(&b);
            let ghost ax0 = ax@;
            let ghost ay0 = ay@;
            let adjust = ax.lt(&bx);
            if adjust {
                ax.add_assign(&v);
                ay.add_assign(&u);
            }
            proof {
                lemma_xgcd_sub_step(
                    a0 as int,
                    b@ as int,
                    ax@ as int,
                    ay@ as int,
                    bx@ as int,
                    by@ as int,
                    u@ as int,
                    v@ as int,
                    m as int,
                    adjust,
                    ax0 as int,
                    ay0 as int,
                );
            }
            ax.sub_assign(&bx);
            ay.sub_assign(&by);
        }
        proof {
            lemma_gcd_zero(b@);
            lemma_xgcd_result(self@, rhs@, zeros as nat, u@, v@, b@, bx@, by@);
        }
        (b.shl(zeros), IBig::from_ubig(bx), IBig::from_ubig(by).into_neg())
    }
}

/// The larger of `n` and one: the bound on the Bezout coefficients.
pub open spec fn max_one(n: nat) -> nat {
    if n == 0 {
        1
    } else {
        n
    }
}

/// The odd parts and the common factor of two for the extended algorithm.
proof fn lemma_xgcd_setup(x: nat, y: nat, za: nat, zb: nat, z: nat, u: nat, v: nat)
    requires
        is_trailing_zeros(x, za),
        is_trailing_zeros(y, zb),
        z == (if za < zb {
            za
        } else {
            zb
        }),
        u == x / pow2(z),
        v == y / pow2(z),
        fits(2 * x),
        fits(2 * y),
    ensures
        x == pow2(z) * u,
        y == pow2(z) * v,
        u >= 1,
        v >= 1,
        u % 2 == 1 || v % 2 == 1,
        fits(2 * u),
        fits(2 * v),
        spec_gcd(x, y) == pow2(z) * spec_gcd(u, v),
{
    lemma_trailing_zeros_split(x, za);
    lemma_trailing_zeros_split(y, zb);
    lemma_pow2_pos(z);
    vstd::arithmetic::power2::lemma_pow2_adds(z, (za - z) as nat);
    vstd::arithmetic::power2::lemma_pow2_adds(z, (zb - z) as nat);
    lemma_pow2_pos((za - z) as nat);
    lemma_pow2_pos((zb - z) as nat);
    let ox = x / pow2(za);
    let oy = y / pow2(zb);
    let ex = pow2((za - z) as nat) * ox;
    let ey = pow2((zb - z) as nat) * oy;
    assert(x == pow2(z) * ex) by (nonlinear_arith)
        requires
            x == pow2(za) * ox,
            pow2(za) == pow2(z) * pow2((za - z) as nat),
            ex == pow2((za - z) as nat) * ox,
    ;
    assert(y == pow2(z) * ey) by (nonlinear_arith)
        requires
            y == pow2(zb) * oy,
            pow2(zb) == pow2(z) * pow2((zb - z) as nat),
            ey == pow2((zb - z) as nat) * oy,
    ;
    vstd::arithmetic::div_mod::lemma_div_multiples_vanish(ex as int, pow2(z) as int);
    vstd::arithmetic::div_mod::lemma_div_multiples_vanish(ey as int, pow2(z) as int);
    vstd::arithmetic::power2::lemma2_to64();
    assert(ex >= 1) by (nonlinear_arith)
        requires
            ox % 2 == 1,
            pow2((za - z) as nat) > 0,
            ex == pow2((za - z) as nat) * ox,
    ;
    assert(ey >= 1) by (nonlinear_arith)
        requires
            oy % 2 == 1,
            pow2((zb - z) as nat) > 0,
            ey == pow2((zb - z) as nat) * oy,
    ;
    assert(ex <= x && ey <= y) by (nonlinear_arith)
        requires
            x == pow2(z) * ex,
            y == pow2(z) * ey,
            pow2(z) >= 1,
            ex >= 1,
            ey >= 1,
    ;
    lemma_gcd_scale(pow2(z), ex, ey);
}

/// The first Euclidean round when `u <= v`.
proof fn lemma_xgcd_first_round_le(u: nat, v: nat, q: nat, r: nat)
    requires
        1 <= u <= v,
        q == v / u,
        r == v % u,
    ensures
        u == 1 * u - 0 * v,
        r == (v - q) * u - (u - 1) * v,
        q <= v,
        r < u,
        spec_gcd(u, r) == spec_gcd(u, v),
{
    vstd::arithmetic::div_mod::lemma_fundamental_div_mod(v as int, u as int);
    vstd::arithmetic::div_mod::lemma_mod_bound(v as int, u as int);
    assert(q <= v) by (nonlinear_arith)
        requires
            v == u * q + r,
            u >= 1,
            r >= 0,
    ;
    assert(r == (v - q) * u - (u - 1) * v) by (nonlinear_arith)
        requires
            v == u * q + r,
    ;
    lemma_gcd_comm(u, v);
}

/// The first Euclidean round when `u > v`.
proof fn lemma_xgcd_first_round_gt(u: nat, v: nat, q: nat, r: nat)
    requires
        1 <= v < u,
        q == u / v,
        r == u % v,
    ensures
        v == v * u - (u - 1) * v,
        r == 1 * u - q * v,
        q <= u,
        r < v,
        spec_gcd(v, r) == spec_gcd(u, v),
{
    vstd::arithmetic::div_mod::lemma_fundamental_div_mod(u as int, v as int);
    vstd::arithmetic::div_mod::lemma_mod_bound(u as int, v as int);
    assert(q <= u) by (nonlinear_arith)
        requires
            u == v * q + r,
            v >= 1,
            r >= 0,
    ;
    assert(v == v * u - (u - 1) * v) by (nonlinear_arith);
    assert(r == 1 * u - q * v) by (nonlinear_arith)
        requires
            u == v * q + r,
    ;
}

/// Of two numbers whose gcd is the gcd of `u` and `v`, one of which is odd, one is odd.
proof fn lemma_xgcd_one_odd(a: nat, b: nat, u: nat, v: nat)
    requires
        u % 2 == 1 || v % 2 == 1,
        spec_gcd(a, b) == spec_gcd(u, v),
    ensures
        a % 2 == 1 || b % 2 == 1,
{
    if a % 2 == 0 && b % 2 == 0 {
        assert(divides(2, a) && divides(2, b));
        lemma_gcd_greatest(a, b, 2);
        lemma_gcd_divides(u, v);
        let g = spec_gcd(u, v);
        crate::gcd_spec::lemma_divides_antisym(g, g);
        if u % 2 == 1 {
            lemma_divisor_of_odd(g, u);
        } else {
            lemma_divisor_of_odd(g, v);
        }
        // 2 divides g, which is odd.
        vstd::arithmetic::div_mod::lemma_fundamental_div_mod(g as int, 2);
        let k = g / 2;
        assert(g == 2 * k);
        vstd::arithmetic::div_mod::lemma_mod_multiples_basic(k as int, 2);
        vstd::arithmetic::mul::lemma_mul_is_commutative(k as int, 2);
    }
}

/// Halving an even `a == ax * u - ay * v`: after the adjustment both coefficients are even.
proof fn lemma_xgcd_halve(a: nat, ax0: int, ay0: int, ax: int, ay: int, u: int, v: int)
    requires
        a % 2 == 0,
        a == ax0 * u - ay0 * v,
        u % 2 == 1 || v % 2 == 1,
        u >= 1,
        v >= 1,
        ax0 >= 0,
        ay0 >= 0,
        (ax0 % 2 == 1 || ay0 % 2 == 1) ==> ax == ax0 + v && ay == ay0 + u,
        !(ax0 % 2 == 1 || ay0 % 2 == 1) ==> ax == ax0 && ay == ay0,
    ensures
        ax % 2 == 0,
        ay % 2 == 0,
        a == ax * u - ay * v,
        a / 2 == (ax / 2) * u - (ay / 2) * v,
{
    assert(ax0 * u - ay0 * v == ax * u - ay * v) by (nonlinear_arith)
        requires
            ax == ax0 + v && ay == ay0 + u || ax == ax0 && ay == ay0,
    ;
    let pa = ax0 % 2;
    let pb = ay0 % 2;
    let pu = u % 2;
    let pv = v % 2;
    vstd::arithmetic::div_mod::lemma_fundamental_div_mod(ax0, 2);
    vstd::arithmetic::div_mod::lemma_fundamental_div_mod(ay0, 2);
    vstd::arithmetic::div_mod::lemma_fundamental_div_mod(u, 2);
    vstd::arithmetic::div_mod::lemma_fundamental_div_mod(v, 2);
    vstd::arithmetic::div_mod::lemma_fundamental_div_mod(a as int, 2);
    let xa = ax0 / 2;
    let xb = ay0 / 2;
    let xu = u / 2;
    let xv = v / 2;
    let ha = (a / 2) as int;
    // a == (2xa + pa)(2xu + pu) - (2xb + pb)(2xv + pv), and a is even, so pa pu == pb pv mod 2.
    assert(ax0 * u == 4 * (xa * xu) + 2 * (xa * pu) + 2 * (pa * xu) + pa * pu) by (nonlinear_arith)
        requires
            ax0 == 2 * xa + pa,
            u == 2 * xu + pu,
    ;
    assert(ay0 * v == 4 * (xb * xv) + 2 * (xb * pv) + 2 * (pb * xv) + pb * pv) by (nonlinear_arith)
        requires
            ay0 == 2 * xb + pb,
            v == 2 * xv + pv,
    ;
    assert(xa * pu == pu * xa && pa * xu == xu * pa && xb * pv == pv * xb && pb * xv == xv * pb)
        by (nonlinear_arith);
    assert(2 * ha == 2 * (2 * (xa * xu) + xa * pu + pa * xu - 2 * (xb * xv) - xb * pv - pb * xv) + pa
        * pu - pb * pv);
    assert(0 <= pa < 2 && 0 <= pb < 2 && 0 <= pu < 2 && 0 <= pv < 2);
    assert(pa * pu == pb * pv) by (nonlinear_arith)
        requires
            2 * ha == 2 * (2 * (xa * xu) + xa * pu + pa * xu - 2 * (xb * xv) - xb * pv - pb * xv) + pa
                * pu - pb * pv,
            0 <= pa < 2,
            0 <= pb < 2,
            0 <= pu < 2,
            0 <= pv < 2,
    ;
    if pa == 1 || pb == 1 {
        // Adding (v, u) makes both even.
        assert(ax == 2 * (xa + xv) + pa + pv);
        assert(ay == 2 * (xb + xu) + pb + pu);
        assert(pa + pv == 2 || pa + pv == 0) by (nonlinear_arith)
            requires
                pa * pu == pb * pv,
                pa == 1 || pb == 1,
                pu == 1 || pv == 1,
                0 <= pa < 2,
                0 <= pb < 2,
                0 <= pu < 2,
                0 <= pv < 2,
        ;
        assert(pb + pu == 2 || pb + pu == 0) by (nonlinear_arith)
            requires
                pa * pu == pb * pv,
                pa == 1 || pb == 1,
                pu == 1 || pv == 1,
                0 <= pa < 2,
                0 <= pb < 2,
                0 <= pu < 2,
                0 <= pv < 2,
        ;
        vstd::arithmetic::div_mod::lemma_mod_multiples_vanish(xa + xv, pa + pv, 2);
        vstd::arithmetic::div_mod::lemma_mod_multiples_vanish(xb + xu, pb + pu, 2);
        assert(ax % 2 == 0);
        assert(ay % 2 == 0);
    }
    vstd::arithmetic::div_mod::lemma_fundamental_div_mod(ax, 2);
    vstd::arithmetic::div_mod::lemma_fundamental_div_mod(ay, 2);
    let hx = ax / 2;
    let hy = ay / 2;
    assert(ha == hx * u - hy * v) by (nonlinear_arith)
        requires
            a == ax * u - ay * v,
            a == 2 * ha,
            ax == 2 * hx,
            ay == 2 * hy,
    ;
}

/// One subtraction step of the extended algorithm keeps the coefficients in range.
proof fn lemma_xgcd_sub_step(
    a0: int,
    b: int,
    ax: int,
    ay: int,
    bx: int,
    by: int,
    u: int,
    v: int,
    m: int,
    adjust: bool,
    ax0: int,
    ay0: int,
)
    requires
        a0 == ax0 * u - ay0 * v,
        b == bx * u - by * v,
        1 <= b <= a0 <= m,
        m <= u,
        m <= v,
        u >= 1,
        v >= 1,
        0 <= ax0 <= v,
        0 <= bx <= v,
        0 <= ay0 <= u,
        0 <= by <= u,
        adjust == (ax0 < bx),
        adjust ==> ax == ax0 + v && ay == ay0 + u,
        !adjust ==> ax == ax0 && ay == ay0,
    ensures
        ax >= bx,
        ay >= by,
        ax - bx <= v,
        ay - by <= u,
        a0 - b == (ax - bx) * u - (ay - by) * v,
{
    assert(a0 - b == (ax - bx) * u - (ay - by) * v) by (nonlinear_arith)
        requires
            a0 == ax0 * u - ay0 * v,
            b == bx * u - by * v,
            adjust ==> ax == ax0 + v && ay == ay0 + u,
            !adjust ==> ax == ax0 && ay == ay0,
    ;
    let nx = ax - bx;
    let ny = ay - by;
    let na = a0 - b;
    assert(0 <= nx <= v);
    assert(0 <= na < v);
    // ny * v == nx * u - na, which is above -v and at most v * u.
    assert(ny * v > -v) by (nonlinear_arith)
        requires
            na == nx * u - ny * v,
            0 <= nx,
            u >= 1,
            na < v,
    ;
    assert(ny > -1) by (nonlinear_arith)
        requires
            ny * v > -v,
            v >= 1,
    ;
    assert(ny * v <= u * v) by (nonlinear_arith)
        requires
            na == nx * u - ny * v,
            nx <= v,
            na >= 0,
            u >= 1,
    ;
    assert(ny <= u) by (nonlinear_arith)
        requires
            ny * v <= u * v,
            v >= 1,
    ;
}

/// The result of the extended algorithm, scaled back by the common power of two.
proof fn lemma_xgcd_result(x: nat, y: nat, z: nat, u: nat, v: nat, b: nat, bx: nat, by: nat)
    requires
        x == pow2(z) * u,
        y == pow2(z) * v,
        spec_gcd(x, y) == pow2(z) * spec_gcd(u, v),
        b == spec_gcd(u, v),
        b == bx * u - by * v,
        bx <= v,
        by <= u,
    ensures
        b * pow2(z) == spec_gcd(x, y),
        b * pow2(z) == x * bx + y * (-(by as int)),
        bx <= y,
        by <= x,
{
    lemma_pow2_pos(z);
    assert(v <= y && u <= x) by (nonlinear_arith)
        requires
            x == pow2(z) * u,
            y == pow2(z) * v,
            pow2(z) >= 1,
    ;
    assert(b * pow2(z) == x * bx + y * (-(by as int))) by (nonlinear_arith)
        requires
            x == pow2(z) * u,
            y == pow2(z) * v,
            b == bx * u - by * v,
    ;
    vstd::arithmetic::mul::lemma_mul_is_commutative(b as int, pow2(z) as int);
}

impl IBig {
    /// Greatest common divisor of the magnitudes.
    pub fn gcd(&self, rhs: &IBig) -> (r: IBig)
        requires
            self@ != 0 || rhs@ != 0,
        ensures
            r@ == spec_gcd(abs(self@), abs(rhs@)),
    {
        IBig::from_ubig(self.magnitude().gcd(rhs.magnitude()))
    }

    /// Greatest common divisor `g`, with `x` and `y` such that `g == self * x + rhs * y`.
    pub fn extended_gcd(&self, rhs: &IBig) -> (r: (IBig, IBig, IBig))
        requires
            self@ != 0 || rhs@ != 0,
            fits(2 * abs(self@)),
            fits(2 * abs(rhs@)),
        ensures
            r.0@ == spec_gcd(abs(self@), abs(rhs@)),
            r.0@ == self@ * r.1@ + rhs@ * r.2@,
            abs(r.1@) <= max_one(abs(rhs@)),
            abs(r.2@) <= max_one(abs(self@)),
    {
        let (g, x0, y0) = self.magnitude().extended_gcd(rhs.magnitude());
        let x = if self.is_negative() {
            x0.into_neg()
        } else {
            x0
        };
        let y = if rhs.is_negative() {
            y0.into_neg()
        } else {
            y0
        };
        proof {
            assert(abs(self@) * x0@ == self@ * x@) by (nonlinear_arith)
                requires
                    self@ < 0 ==> abs(self@) == -self@ && x@ == -x0@,
                    self@ >= 0 ==> abs(self@) == self@ && x@ == x0@,
            ;
            assert(abs(rhs@) * y0@ == rhs@ * y@) by (nonlinear_arith)
                requires
                    rhs@ < 0 ==> abs(rhs@) == -rhs@ && y@ == -y0@,
                    rhs@ >= 0 ==> abs(rhs@) == rhs@ && y@ == y0@,
            ;
        }
        (IBig::from_ubig(g), x, y)
    }
}

} // verus!
