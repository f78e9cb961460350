//! Modular arithmetic.
//!
//! Values `Modulo` belong to a ring of integers modulo a positive integer, `ModuloRing`.
//! A value is stored shifted left so that the modulus fills its top word: the normalized
//! modulus `m * 2^shift` has its top bit set.

use crate::ibig::{abs, IBig};
use crate::primitive::{word_base, Word};
use crate::convert::ubig_from_ibig;
use crate::gcd_spec::spec_gcd;
use crate::sign::Sign;
use crate::ubig::{fits, UBig};
use crate::value::{lemma_pow_base_pos, lemma_to_nat_bound, lemma_to_nat_normalized_lower, pow_base, to_nat};
use vstd::arithmetic::div_mod::{
    lemma_fundamental_div_mod, lemma_mod_bound, lemma_mod_multiples_basic, lemma_small_mod,
};
use vstd::arithmetic::power2::{lemma2_to64, lemma2_to64_rest, lemma_pow2_adds, lemma_pow2_pos, pow2};
use vstd::prelude::*;

verus! {

/// Products of two residues modulo `m`, with a word to spare, fit in a `UBig`.
pub open spec fn modulus_fits(m: nat) -> bool {
    fits(m * m * word_base())
}

/// `x` lies in the top word of a number of `k + 1` words, with the top bit of that word set.
pub open spec fn normalized_at(x: nat, k: nat) -> bool {
    pow_base(k) * pow2(63) <= x < pow_base(k) * word_base()
}

/// Shifting `m` left by `shift` bits sets the top bit of its top word.
pub open spec fn is_normalizing_shift(m: nat, shift: nat) -> bool {
    shift < 64 && exists|k: nat| #[trigger] normalized_at(m * pow2(shift), k)
}

/// The shift that normalizes a modulus is unique.
pub proof fn lemma_normalizing_shift_unique(m: nat, s1: nat, s2: nat)
    requires
        m >= 1,
        is_normalizing_shift(m, s1),
        is_normalizing_shift(m, s2),
    ensures
        s1 == s2,
{
    if s1 != s2 {
        let (a, b) = if s1 < s2 {
            (s1, s2)
        } else {
            (s2, s1)
        };
        let ka = choose|k: nat| #[trigger] normalized_at(m * pow2(a), k);
        let kb = choose|k: nat| #[trigger] normalized_at(m * pow2(b), k);
        let d = (b - a) as nat;
        lemma_pow2_adds(a, d);
        assert(a + d == b);
        lemma2_to64();
        lemma2_to64_rest();
        vstd::arithmetic::power2::lemma_pow2_strictly_increases(0, d);
        if d < 63 {
            vstd::arithmetic::power2::lemma_pow2_strictly_increases(d, 63);
        }
        let x = m * pow2(a);
        let y = m * pow2(b);
        assert(y == x * pow2(d)) by (nonlinear_arith)
            requires
                pow2(b) == pow2(a) * pow2(d),
                x == m * pow2(a),
                y == m * pow2(b),
        ;
        lemma_pow_base_pos(ka);
        lemma_pow_base_pos(kb);
        let pa = pow_base(ka);
        let pb = pow_base(kb);
        // y >= 2 x >= pa * 2^64 and y < 2^63 x < pa * 2^127.
        assert(pa * word_base() <= y < pa * word_base() * pow2(63)) by (nonlinear_arith)
            requires
                pa * pow2(63) <= x < pa * word_base(),
                y == x * pow2(d),
                2 <= pow2(d) <= pow2(63),
                pow2(63) * 2 == word_base(),
                pa > 0,
        ;
        if kb <= ka {
            crate::value::lemma_pow_base_mono(kb, ka);
            assert(pb * word_base() <= pa * word_base()) by (nonlinear_arith)
                requires
                    pb <= pa,
            ;
        } else {
            crate::value::lemma_pow_base_mono(ka + 1, kb);
            crate::value::lemma_pow_base_step(ka);
            assert(pa * word_base() * pow2(63) <= pb * pow2(63)) by (nonlinear_arith)
                requires
                    pa * word_base() <= pb,
                    pow2(63) > 0,
            ;
        }
    }
}

/// A ring of integers modulo a positive integer.
#[derive(Debug)]
pub struct ModuloRing {
    normalized_modulus: UBig,
    shift: u32,
}

impl View for ModuloRing {
    type V = nat;

    /// The modulus.
    closed spec fn view(&self) -> nat {
        self.normalized_modulus@ / pow2(self.shift as nat)
    }
}

impl ModuloRing {
    #[verifier::type_invariant]
    closed spec fn wf(&self) -> bool {
        &&& self@ >= 1
        &&& self.normalized_modulus@ == self@ * pow2(self.shift as nat)
        &&& is_normalizing_shift(self@, self.shift as nat)
        &&& modulus_fits(self@)
    }

    /// The normalized modulus and the shift are those of the modulus.
    proof fn lemma_shift(&self)
        requires
            self.wf(),
        ensures
            self.shift < 64,
            pow2(self.shift as nat) >= 1,
            pow2(self.shift as nat) <= pow2(63),
            self.normalized_modulus@ == self@ * pow2(self.shift as nat),
            self.normalized_modulus@ >= self@,
            self.normalized_modulus@ * 2 <= self@ * word_base(),
            fits(self@ * self@ * word_base()),
    {
        lemma_pow2_pos(self.shift as nat);
        lemma2_to64();
        lemma2_to64_rest();
        if self.shift < 63 {
            vstd::arithmetic::power2::lemma_pow2_strictly_increases(self.shift as nat, 63);
        }
        let p = pow2(self.shift as nat);
        assert(self@ * p >= self@) by (nonlinear_arith)
            requires
                p >= 1,
        ;
        assert(self@ * p * 2 <= self@ * word_base()) by (nonlinear_arith)
            requires
                p <= pow2(63),
                pow2(63) * 2 == word_base(),
        ;
    }

    /// Two rings with the same modulus have the same normalized modulus and shift.
    proof fn lemma_same_modulus(&self, other: &ModuloRing)
        requires
            self.wf(),
            other.wf(),
            self@ == other@,
        ensures
            self.shift == other.shift,
            self.normalized_modulus@ == other.normalized_modulus@,
    {
        lemma_normalizing_shift_unique(self@, self.shift as nat, other.shift as nat);
    }

    /// Create a new ring of integers modulo `n`.
    pub fn new(n: &UBig) -> (r: ModuloRing)
        requires
            n@ > 0,
            modulus_fits(n@),
        ensures
            r@ == n@,
    {
        let words = n.as_words();
        let len = words.len();
        let last = words[len - 1];
        let shift = last.leading_zeros();
        proof {
            let k = (len - 1) as nat;
            let lo = words@.drop_last();
            crate::math::lemma_leading_zeros_normalizes(last);
            lemma_to_nat_bound(lo);
            lemma_pow_base_pos(k);
            lemma2_to64();
            lemma2_to64_rest();
            let p = pow2(shift as nat);
            lemma_pow2_pos(shift as nat);
            lemma_pow2_adds(shift as nat, (64 - shift) as nat);
            assert(shift as nat + (64 - shift) as nat == 64);
            // The top word stays below 2^64 even with the lower words shifted in.
            let q = pow2((64 - shift) as nat);
            assert(last < q) by (nonlinear_arith)
                requires
                    last * p < p * q,
                    p > 0,
            ;
            let pk = pow_base(k);
            let low = to_nat(lo);
            assert(n@ == low + last * pk);
            assert(n@ * p >= pow2(63) * pk) by (nonlinear_arith)
                requires
                    n@ == low + last * pk,
                    0 <= low,
                    last * p >= pow2(63),
                    p > 0,
                    pk > 0,
            ;
            assert(n@ * p < word_base() * pk) by (nonlinear_arith)
                requires
                    n@ == low + last * pk,
                    0 <= low < pk,
                    last + 1 <= q,
                    p * q == word_base(),
                    p > 0,
                    pk > 0,
            ;
            assert(normalized_at(n@ * p, k));
            assert(n@ * p < n@ * n@ * word_base()) by (nonlinear_arith)
                requires
                    n@ >= 1,
                    p < word_base(),
            ;
        }
        let normalized_modulus = n.shl(shift as usize);
        proof {
            vstd::arithmetic::div_mod::lemma_div_multiples_vanish(n@ as int, pow2(shift as nat) as int);
            vstd::arithmetic::mul::lemma_mul_is_commutative(n@ as int, pow2(shift as nat) as int);
        }
        ModuloRing { normalized_modulus, shift }
    }

    /// A copy of the ring.
    pub fn clone(&self) -> (r: ModuloRing)
        ensures
            r@ == self@,
    {
        proof {
            use_type_invariant(self);
        }
        ModuloRing { normalized_modulus: self.normalized_modulus.clone(), shift: self.shift }
    }

    /// The modulus.
    pub fn modulus(&self) -> (r: UBig)
        ensures
            r@ == self@,
    {
        self.normalized_modulus.shr(self.shift as usize)
    }

    /// The element of the ring that `value` falls in.
    pub fn from_ubig(&self, value: UBig) -> (r: Modulo)
        ensures
            r@ == (self@, value@ % self@),
    {
        proof {
            use_type_invariant(self);
            self.lemma_shift();
        }
        let m = self.modulus();
        let reduced = value.rem(&m);
        proof {
            lemma_mod_bound(value@ as int, m@ as int);
            let p = pow2(self.shift as nat);
            assert(reduced@ * p < self@ * p) by (nonlinear_arith)
                requires
                    reduced@ < self@,
                    p >= 1,
            ;
        }
        self.normalized_modulus.value_fits();
        let normalized_value = reduced.shl(self.shift as usize);
        let ring = self.clone();
        proof {
            use_type_invariant(&ring);
            ring.lemma_same_modulus(self);
        }
        proof {
            vstd::arithmetic::div_mod::lemma_div_multiples_vanish(reduced@ as int, pow2(self.shift as nat) as int);
            vstd::arithmetic::mul::lemma_mul_is_commutative(reduced@ as int, pow2(self.shift as nat) as int);
            lemma_mod_multiples_basic(reduced@ as int, pow2(self.shift as nat) as int);
        }
        Modulo { ring, normalized_value }
    }

    /// The element of the ring that `source` falls in.
    pub fn from(&self, source: IBig) -> (r: Modulo)
        ensures
            r@ == (self@, (source@ % (self@ as int)) as nat),
    {
        proof {
            use_type_invariant(self);
        }
        let (sign, magnitude) = source.into_sign_magnitude();
        let modulo = self.from_ubig(magnitude);
        match sign {
            Sign::Positive => {
                proof {
                    assert(source@ == magnitude@);
                    assert(modulo@ == (self@, magnitude@ % self@));
                    assert((source@ % (self@ as int)) as nat == magnitude@ % self@);
                    assert(modulo@ == (self@, (source@ % (self@ as int)) as nat));
                }
                modulo
            },
            Sign::Negative => {
                let r = modulo.neg();
                proof {
                    let m = self@ as int;
                    let a = abs(source@) as int;
                    assert(source@ == -a);
                    lemma_mod_bound(a, m);
                    if a % m == 0 {
                        vstd::arithmetic::div_mod::lemma_fundamental_div_mod(a, m);
                        assert(-a == m * (-(a / m))) by (nonlinear_arith)
                            requires
                                a == m * (a / m),
                        ;
                        lemma_mod_multiples_basic(-(a / m), m);
                        vstd::arithmetic::mul::lemma_mul_is_commutative(-(a / m), m);
                        vstd::arithmetic::div_mod::lemma_mod_self_0(m);
                    } else {
                        lemma_small_mod((m - a % m) as nat, m as nat);
                        vstd::arithmetic::div_mod::lemma_fundamental_div_mod(a, m);
                        let q = a / m;
                        assert(-a == m * (-q - 1) + (m - a % m)) by (nonlinear_arith)
                            requires
                                a == m * q + a % m,
                        ;
                        vstd::arithmetic::div_mod::lemma_fundamental_div_mod_converse_mod(
                            -a,
                            m,
                            -q - 1,
                            m - a % m,
                        );
                    }
                    assert(r@ == (self@, (source@ % (self@ as int)) as nat));
                }
                r
            },
        }
    }
}

/// An element of a ring of integers modulo a positive integer.
#[derive(Debug)]
pub struct Modulo {
    ring: ModuloRing,
    normalized_value: UBig,
}

impl View for Modulo {
    type V = (nat, nat);

    /// The modulus and the residue in `0..modulus`.
    closed spec fn view(&self) -> (nat, nat) {
        (self.ring@, self.normalized_value@ / pow2(self.ring.shift as nat))
    }
}

impl Modulo {
    #[verifier::type_invariant]
    closed spec fn wf(&self) -> bool {
        &&& self.ring.wf()
        &&& self.normalized_value@ == self@.1 * pow2(self.ring.shift as nat)
        &&& self@.1 < self@.0
    }

    /// Facts about a value that follow from its invariant.
    proof fn lemma_parts(&self)
        requires
            self.wf(),
        ensures
            self.ring.wf(),
            self.normalized_value@ == self@.1 * pow2(self.ring.shift as nat),
            self.normalized_value@ < self.ring.normalized_modulus@,
            self@.1 < self@.0,
            self@.0 == self.ring@,
            self.normalized_value@ == 0 <==> self@.1 == 0,
    {
        self.ring.lemma_shift();
        let p = pow2(self.ring.shift as nat);
        assert(self@.1 * p < self@.0 * p) by (nonlinear_arith)
            requires
                self@.1 < self@.0,
                p >= 1,
        ;
        if self@.1 != 0 {
            assert(self@.1 * p > 0) by (nonlinear_arith)
                requires
                    self@.1 >= 1,
                    p >= 1,
            ;
        }
    }

    /// A value from its normalized value in `ring`.
    fn from_normalized_value(normalized_value: UBig, ring: &ModuloRing) -> (r: Modulo)
        requires
            ring.wf(),
            normalized_value@ % pow2(ring.shift as nat) == 0,
            normalized_value@ < ring.normalized_modulus@,
        ensures
            r@ == (ring@, normalized_value@ / pow2(ring.shift as nat)),
    {
        let ring_copy = ring.clone();
        proof {
            use_type_invariant(&ring_copy);
            ring_copy.lemma_same_modulus(ring);
            let p = pow2(ring.shift as nat) as int;
            ring.lemma_shift();
            lemma_fundamental_div_mod(normalized_value@ as int, p);
            let v = normalized_value@ as int / p;
            assert(v < ring@) by (nonlinear_arith)
                requires
                    normalized_value@ == p * v,
                    normalized_value@ < ring@ * p,
                    p > 0,
            ;
            vstd::arithmetic::mul::lemma_mul_is_commutative(v, p);
        }
        let r = Modulo { ring: ring_copy, normalized_value };
        proof {
            let p = pow2(ring.shift as nat) as int;
            lemma_fundamental_div_mod(normalized_value@ as int, p);
            let v = normalized_value@ as int / p;
            assert(v < ring@) by (nonlinear_arith)
                requires
                    normalized_value@ == p * v,
                    normalized_value@ < ring@ * p,
                    p > 0,
            ;
            vstd::arithmetic::mul::lemma_mul_is_commutative(v, p);
        }
        r
    }

    /// The modulus is positive and the residue is below it.
    pub fn value_bounds(&self)
        ensures
            self@.0 >= 1,
            self@.1 < self@.0,
    {
        proof {
            use_type_invariant(self);
        }
    }

    /// The ring of this value.
    pub fn ring(&self) -> (r: &ModuloRing)
        ensures
            r@ == self@.0,
    {
        &self.ring
    }

    /// The residue in `0..n` in a ring of `n` elements.
    pub fn residue(&self) -> (r: UBig)
        ensures
            r@ == self@.1,
            r@ < self@.0,
    {
        proof {
            use_type_invariant(self);
        }
        self.normalized_value.shr(self.ring.shift as usize)
    }

    /// A copy of the value.
    pub fn clone(&self) -> (r: Modulo)
        ensures
            r@ == self@,
    {
        proof {
            use_type_invariant(self);
        }
        let ring = self.ring.clone();
        proof {
            use_type_invariant(&ring);
            ring.lemma_same_modulus(&self.ring);
        }
        Modulo { ring, normalized_value: self.normalized_value.clone() }
    }

    /// `-self`.
    pub fn neg(&self) -> (r: Modulo)
        ensures
            r@.0 == self@.0,
            r@.1 == (self@.0 - self@.1) % (self@.0 as int),
    {
        proof {
            use_type_invariant(self);
            self.lemma_parts();
        }
        if self.normalized_value.is_zero() {
            proof {
                lemma_mod_multiples_basic(1, self@.0 as int);
            }
            self.clone()
        } else {
            let value = self.ring.normalized_modulus.sub(&self.normalized_value);
            proof {
                let p = pow2(self.ring.shift as nat) as int;
                let m = self@.0 as int;
                let v = self@.1 as int;
                assert(value@ == (m - v) * p) by (nonlinear_arith)
                    requires
                        value@ == m * p - v * p,
                ;
                lemma_mod_multiples_basic(m - v, p);
                vstd::arithmetic::mul::lemma_mul_is_commutative(m - v, p);
                vstd::arithmetic::div_mod::lemma_div_multiples_vanish(m - v, p);
                lemma_small_mod((m - v) as nat, m as nat);
                assert(self.normalized_value@ > 0);
                assert(value@ < self.ring.normalized_modulus@);
            }
            Modulo::from_normalized_value(value, &self.ring)
        }
    }

    /// `self + rhs`.
    pub fn add(&self, rhs: &Modulo) -> (r: Modulo)
        requires
            self@.0 == rhs@.0,
        ensures
            r@.0 == self@.0,
            r@.1 == (self@.1 + rhs@.1) % self@.0,
    {
        proof {
            use_type_invariant(self);
            use_type_invariant(rhs);
            self.lemma_parts();
            rhs.lemma_parts();
            self.ring.lemma_same_modulus(&rhs.ring);
            self.ring.lemma_shift();
        }
        let ghost p = pow2(self.ring.shift as nat) as int;
        let ghost m = self@.0 as int;
        let ghost s = (self@.1 + rhs@.1) as int;
        proof {
            assert(self.normalized_value@ + rhs.normalized_value@ == s * p) by (nonlinear_arith)
                requires
                    self.normalized_value@ == self@.1 * p,
                    rhs.normalized_value@ == rhs@.1 * p,
                    s == self@.1 + rhs@.1,
            ;
            assert(s * p < 2 * (m * p)) by (nonlinear_arith)
                requires
                    s < 2 * m,
                    p >= 1,
            ;
            assert(2 * (m * p) <= m * m * word_base()) by (nonlinear_arith)
                requires
                    m * p * 2 <= m * word_base(),
                    m >= 1,
            ;
        }
        let mut val = self.normalized_value.add(&rhs.normalized_value);
        let ghost t = s;
        if !val.lt(&self.ring.normalized_modulus) {
            val = val.sub(&self.ring.normalized_modulus);
            proof {
                assert(val@ == (s - m) * p) by (nonlinear_arith)
                    requires
                        val@ == s * p - m * p,
                ;
                assert(s >= m) by (nonlinear_arith)
                    requires
                        s * p >= m * p,
                        p >= 1,
                ;
                vstd::arithmetic::div_mod::lemma_fundamental_div_mod_converse_mod(s, m, 1, s - m);
                assert(s - m < m);
            }
        } else {
            proof {
                assert(s < m) by (nonlinear_arith)
                    requires
                        s * p < m * p,
                        p >= 1,
                ;
                lemma_small_mod(s as nat, m as nat);
            }
        }
        proof {
            let t = s % m;
            lemma_mod_bound(s, m);
            lemma_mod_multiples_basic(t, p);
            vstd::arithmetic::mul::lemma_mul_is_commutative(t, p);
            vstd::arithmetic::div_mod::lemma_div_multiples_vanish(t, p);
            if s >= m {
                assert(val@ == t * p);
            } else {
                assert(val@ == t * p);
            }
            assert(t * p < m * p) by (nonlinear_arith)
                requires
                    t < m,
                    p >= 1,
            ;
        }
        Modulo::from_normalized_value(val, &self.ring)
    }

    /// `self - rhs`.
    pub fn sub(&self, rhs: &Modulo) -> (r: Modulo)
        requires
            self@.0 == rhs@.0,
        ensures
            r@.0 == self@.0,
            r@.1 == (self@.1 - rhs@.1) % (self@.0 as int),
    {
        proof {
            use_type_invariant(self);
            use_type_invariant(rhs);
            self.lemma_parts();
            rhs.lemma_parts();
            self.ring.lemma_same_modulus(&rhs.ring);
            self.ring.lemma_shift();
        }
        let ghost p = pow2(self.ring.shift as nat) as int;
        let ghost m = self@.0 as int;
        let ghost a = self@.1 as int;
        let ghost b = rhs@.1 as int;
        let val = if self.normalized_value.lt(&rhs.normalized_value) {
            let gap = self.ring.normalized_modulus.sub(&rhs.normalized_value);
            proof {
                assert(self.normalized_value@ + gap@ < self.ring.normalized_modulus@);
            }
            self.ring.normalized_modulus.value_fits();
            let v = self.normalized_value.add(&gap);
            proof {
                assert(v@ == (a - b + m) * p) by (nonlinear_arith)
                    requires
                        v@ == a * p + (m * p - b * p),
                ;
                assert(a < b) by (nonlinear_arith)
                    requires
                        a * p < b * p,
                        p >= 1,
                ;
                vstd::arithmetic::div_mod::lemma_fundamental_div_mod_converse_mod(a - b, m, -1, a - b + m);
            }
            v
        } else {
            let v = self.normalized_value.sub(&rhs.normalized_value);
            proof {
                assert(v@ == (a - b) * p) by (nonlinear_arith)
                    requires
                        v@ == a * p - b * p,
                ;
                assert(a >= b) by (nonlinear_arith)
                    requires
                        a * p >= b * p,
                        p >= 1,
                ;
                lemma_small_mod((a - b) as nat, m as nat);
            }
            v
        };
        proof {
            let t = (a - b) % m;
            lemma_mod_bound(a - b, m);
            lemma_mod_multiples_basic(t, p);
            vstd::arithmetic::mul::lemma_mul_is_commutative(t, p);
            vstd::arithmetic::div_mod::lemma_div_multiples_vanish(t, p);
            assert(val@ == t * p);
            assert(t * p < m * p) by (nonlinear_arith)
                requires
                    t < m,
                    p >= 1,
            ;
        }
        Modulo::from_normalized_value(val, &self.ring)
    }

    /// `self * rhs`.
    pub fn mul(&self, rhs: &Modulo) -> (r: Modulo)
        requires
            self@.0 == rhs@.0,
        ensures
            r@.0 == self@.0,
            r@.1 == (self@.1 * rhs@.1) % self@.0,
    {
        proof {
            use_type_invariant(self);
            use_type_invariant(rhs);
            self.lemma_parts();
            rhs.lemma_parts();
            self.ring.lemma_same_modulus(&rhs.ring);
            self.ring.lemma_shift();
        }
        let ghost p = pow2(self.ring.shift as nat) as int;
        let ghost m = self@.0 as int;
        let ghost a = self@.1 as int;
        let ghost b = rhs@.1 as int;
        let lhs = self.normalized_value.shr(self.ring.shift as usize);
        proof {
            vstd::arithmetic::div_mod::lemma_div_multiples_vanish(a, p);
            vstd::arithmetic::mul::lemma_mul_is_commutative(a, p);
            assert(lhs@ == a);
            assert(a * (b * p) < m * m * word_base()) by (nonlinear_arith)
                requires
                    0 <= a < m,
                    0 <= b < m,
                    1 <= p,
                    m * p * 2 <= m * word_base(),
            ;
        }
        let product = lhs.mul(&rhs.normalized_value);
        let val = product.rem(&self.ring.normalized_modulus);
        proof {
            let t = (a * b) % m;
            assert(product@ == (a * b) * p) by (nonlinear_arith)
                requires
                    product@ == a * (b * p),
            ;
            lemma_fundamental_div_mod(a * b, m);
            vstd::arithmetic::div_mod::lemma_mod_bound(a * b, m);
            let q = (a * b) / m;
            assert((a * b) * p == (m * p) * q + t * p) by (nonlinear_arith)
                requires
                    a * b == m * q + t,
            ;
            assert(t * p < m * p) by (nonlinear_arith)
                requires
                    0 <= t < m,
                    p >= 1,
            ;
            vstd::arithmetic::div_mod::lemma_fundamental_div_mod_converse_mod((a * b) * p, m * p, q, t * p);
            lemma_mod_multiples_basic(t, p);
            vstd::arithmetic::mul::lemma_mul_is_commutative(t, p);
            vstd::arithmetic::div_mod::lemma_div_multiples_vanish(t, p);
        }
        Modulo::from_normalized_value(val, &self.ring)
    }
}

impl Modulo {
    /// The multiplicative inverse, or `None` where the residue and the modulus have a common
    /// factor.
    pub fn inverse(&self) -> (r: Option<Modulo>)
        ensures
            r is Some <==> spec_gcd(self@.1, self@.0) == 1,
            r matches Some(v) ==> v@.0 == self@.0 && v@.1 < self@.0 && (self@.1 * v@.1) % self@.0
                == 1nat % self@.0,
    {
        proof {
            use_type_invariant(self);
            self.lemma_parts();
            self.ring.lemma_shift();
        }
        let a = self.residue();
        let b = self.ring.modulus();
        proof {
            let m = self@.0;
            assert(2 * a@ <= m * m * word_base()) by (nonlinear_arith)
                requires
                    a@ < m,
                    m >= 1,
            ;
            assert(2 * m <= m * m * word_base()) by (nonlinear_arith)
                requires
                    m >= 1,
            ;
        }
        let (g, x, _y) = a.extended_gcd(&b);
        if g.is_one() {
            let ghost m = self@.0 as int;
            let ghost av = a@ as int;
            let modulus = IBig::from_ubig(b);
            let reduced = x.rem_euclid(&modulus);
            let w = match ubig_from_ibig(reduced) {
                Ok(w) => w,
                Err(_) => {
                    proof {
                        lemma_mod_bound(x@, m);
                    }
                    return None;
                },
            };
            let r = self.ring.from_ubig(w);
            proof {
                lemma_mod_bound(x@, m);
                lemma_small_mod(w@, m as nat);
                // a x + m y == 1, so a x == 1 (mod m), and w == x (mod m).
                let y = _y@;
                assert(av * x@ == m * (-y) + 1) by (nonlinear_arith)
                    requires
                        1 == av * x@ + m * y,
                ;
                vstd::arithmetic::div_mod::lemma_mod_multiples_vanish(-y, 1, m);
                vstd::arithmetic::div_mod::lemma_mul_mod_noop_right(av, x@, m);
            }
            Some(r)
        } else {
            None
        }
    }

    /// The multiplicative inverse, or `None` where there is none or the residue is zero.
    pub fn inv(&self) -> (r: Option<Modulo>)
        ensures
            r is Some <==> self@.1 != 0 && spec_gcd(self@.1, self@.0) == 1,
            r matches Some(v) ==> v@.0 == self@.0 && v@.1 < self@.0 && (self@.1 * v@.1) % self@.0
                == 1nat % self@.0,
    {
        proof {
            use_type_invariant(self);
            self.lemma_parts();
        }
        if self.normalized_value.is_zero() {
            None
        } else {
            self.inverse()
        }
    }

    /// `self / rhs`: the value that `rhs` multiplies to `self`.
    pub fn div(&self, rhs: &Modulo) -> (r: Modulo)
        requires
            self@.0 == rhs@.0,
            spec_gcd(rhs@.1, rhs@.0) == 1,
        ensures
            r@.0 == self@.0,
            r@.1 < self@.0,
            (r@.1 * rhs@.1) % self@.0 == self@.1,
    {
        proof {
            use_type_invariant(self);
            self.lemma_parts();
        }
        let inv_rhs = match rhs.inverse() {
            Some(v) => v,
            None => {
                return self.clone();
            },
        };
        let r = self.mul(&inv_rhs);
        proof {
            use_type_invariant(&r);
            r.lemma_parts();
            let m = self@.0 as int;
            let s = self@.1 as int;
            let w = inv_rhs@.1 as int;
            let b = rhs@.1 as int;
            // (s w mod m) b == s (w b) == s (mod m)
            vstd::arithmetic::div_mod::lemma_mul_mod_noop_left(s * w, b, m);
            assert((s * w) * b == s * (w * b)) by (nonlinear_arith);
            assert(w * b == b * w) by (nonlinear_arith);
            vstd::arithmetic::div_mod::lemma_mul_mod_noop_right(s, w * b, m);
            vstd::arithmetic::div_mod::lemma_mul_mod_noop_right(s, 1, m);
            lemma_small_mod(s as nat, m as nat);
        }
        r
    }
}

impl PartialEq for Modulo {
    fn eq(&self, other: &Self) -> (r: bool) {
        proof {
            use_type_invariant(self);
            use_type_invariant(other);
            self.lemma_parts();
            other.lemma_parts();
            if self@.0 == other@.0 {
                self.ring.lemma_same_modulus(&other.ring);
            }
        }
        self.ring.shift == other.ring.shift && self.ring.normalized_modulus
            == other.ring.normalized_modulus && self.normalized_value == other.normalized_value
    }
}

impl vstd::std_specs::cmp::PartialEqSpecImpl for Modulo {
    open spec fn obeys_eq_spec() -> bool {
        true
    }

    open spec fn eq_spec(&self, other: &Modulo) -> bool {
        self@ == other@
    }
}

/// Subtracting what was added gives the value back: `(a + b) - b == a` modulo `m`.
pub proof fn lemma_modulo_add_sub(a: nat, b: nat, m: nat)
    requires
        a < m,
        b < m,
    ensures
        (((a + b) % m) as int - b) % (m as int) == a,
{
    let mi = m as int;
    if a + b >= m {
        vstd::arithmetic::div_mod::lemma_fundamental_div_mod_converse_mod((a + b) as int, mi, 1, a + b - m);
    } else {
        lemma_small_mod(a + b, m);
    }
    vstd::arithmetic::div_mod::lemma_sub_mod_noop((a + b) as int, b as int, mi);
    lemma_mod_bound((a + b) as int, mi);
    lemma_small_mod(a, m);
    lemma_small_mod(b, m);
    assert((a + b) as int - b == a as int);
}

/// A value plus its negation is zero modulo `m`.
pub proof fn lemma_modulo_add_neg(a: nat, m: nat)
    requires
        a < m,
    ensures
        (a + ((m - a) % (m as int))) % (m as int) == 0,
{
    let mi = m as int;
    vstd::arithmetic::div_mod::lemma_add_mod_noop_right(a as int, mi - a, mi);
    vstd::arithmetic::div_mod::lemma_mod_self_0(mi);
    lemma_mod_bound(mi - a, mi);
}

/// Dividing a product by a factor that has an inverse `w` gives the other factor back: the
/// residue `q < m` with `q b == a b (mod m)` is `a`.
pub proof fn lemma_modulo_mul_div(a: nat, b: nat, w: nat, q: nat, m: nat)
    requires
        a < m,
        q < m,
        (b * w) % m == 1nat % m,
        (q * b) % m == (a * b) % m,
    ensures
        q == a,
{
    let mi = m as int;
    let (ai, bi, wi, qi) = (a as int, b as int, w as int, q as int);
    // t * (b w) == t (mod m) for every t
    assert forall|t: int| #![trigger (t * (bi * wi)) % mi] (t * (bi * wi)) % mi == t % mi by {
        vstd::arithmetic::div_mod::lemma_mul_mod_noop_right(t, bi * wi, mi);
        vstd::arithmetic::div_mod::lemma_mul_mod_noop_right(t, 1, mi);
    }
    assert((qi * (bi * wi)) % mi == qi % mi);
    assert((ai * (bi * wi)) % mi == ai % mi);
    assert(qi * (bi * wi) == (qi * bi) * wi) by (nonlinear_arith);
    assert(ai * (bi * wi) == (ai * bi) * wi) by (nonlinear_arith);
    vstd::arithmetic::div_mod::lemma_mul_mod_noop_left(qi * bi, wi, mi);
    vstd::arithmetic::div_mod::lemma_mul_mod_noop_left(ai * bi, wi, mi);
    lemma_small_mod(a, m);
    lemma_small_mod(q, m);
}

} // verus!
