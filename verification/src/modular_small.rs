//! Modular arithmetic modulo a single word.
//!
//! A value is kept shifted left as in `ModuloRing`: the normalized modulus has its top bit
//! set, and division by it uses a precomputed reciprocal.

use crate::fast_divide::FastDivisorNormalized;
use crate::modular_pow::mpow;
use crate::primitive::{extend_word, word_base, DoubleWord, Word, WORD_BITS};
use vstd::arithmetic::div_mod::{lemma_fundamental_div_mod, lemma_mod_bound, lemma_mod_multiples_basic};
use vstd::arithmetic::power::{lemma_pow0, lemma_pow1, lemma_pow_adds, lemma_pow_multiplies, pow};
use vstd::arithmetic::power2::{lemma2_to64, lemma2_to64_rest, lemma_pow2_adds, lemma_pow2_pos, pow2};
use vstd::prelude::*;

verus! {

/// A ring of integers modulo a positive word.
#[derive(Clone, Copy)]
pub struct ModuloRingSmall {
    normalized_modulus: Word,
    shift: u32,
    fast_div: FastDivisorNormalized,
}

impl View for ModuloRingSmall {
    type V = nat;

    /// The modulus.
    closed spec fn view(&self) -> nat {
        self.normalized_modulus as nat / pow2(self.shift as nat)
    }
}

impl ModuloRingSmall {
    /// The normalized modulus is the modulus shifted left by `shift`, with its top bit set,
    /// and the reciprocal is that of the normalized modulus.
    pub closed spec fn wf(&self) -> bool {
        &&& self.shift < 64
        &&& self@ >= 1
        &&& self.normalized_modulus == self@ * pow2(self.shift as nat)
        &&& self.normalized_modulus >= 0x8000_0000_0000_0000
        &&& self.fast_div.wf()
        &&& self.fast_div.spec_divisor() == self.normalized_modulus
    }

    /// The shift of a well-formed ring.
    pub closed spec fn spec_shift(&self) -> nat {
        self.shift as nat
    }

    /// Facts about a well-formed ring.
    proof fn lemma_wf(&self)
        requires
            self.wf(),
        ensures
            pow2(self.shift as nat) >= 1,
            pow2(self.shift as nat) <= pow2(63),
            self.normalized_modulus as nat == self@ * pow2(self.shift as nat),
            self@ <= self.normalized_modulus,
            self@ < word_base(),
    {
        lemma_pow2_pos(self.shift as nat);
        lemma2_to64();
        lemma2_to64_rest();
        if self.shift < 63 {
            vstd::arithmetic::power2::lemma_pow2_strictly_increases(self.shift as nat, 63);
        }
        let p = pow2(self.shift as nat);
        assert(self@ * p >= self@) by (nonlinear_arith)
            requires
                p >= 1,
        ;
    }

    /// A ring of integers modulo `n`.
    pub fn new(n: Word) -> (r: ModuloRingSmall)
        requires
            n > 0,
        ensures
            r.wf(),
            r@ == n,
    {
        let shift = n.leading_zeros();
        proof {
            crate::math::lemma_leading_zeros_normalizes(n);
            vstd::bits::lemma_u64_shl_is_mul(n, shift as u64);
            lemma_pow2_pos(shift as nat);
        }
        let normalized_modulus = n << shift;
        let fast_div = FastDivisorNormalized::new(normalized_modulus);
        proof {
            vstd::arithmetic::div_mod::lemma_div_multiples_vanish(n as int, pow2(shift as nat) as int);
            vstd::arithmetic::mul::lemma_mul_is_commutative(n as int, pow2(shift as nat) as int);
        }
        ModuloRingSmall { normalized_modulus, shift, fast_div }
    }

    /// The modulus.
    pub fn modulus(&self) -> (r: Word)
        requires
            self.wf(),
        ensures
            r == self@,
    {
        proof {
            vstd::bits::lemma_u64_shr_is_div(self.normalized_modulus, self.shift as u64);
        }
        self.normalized_modulus >> self.shift
    }

    /// The normalized modulus of a well-formed ring.
    pub closed spec fn spec_normalized_modulus(&self) -> Word {
        self.normalized_modulus
    }

    /// The normalized modulus.
    pub fn normalized_modulus(&self) -> (r: Word)
        ensures
            r == self.spec_normalized_modulus(),
    {
        self.normalized_modulus
    }

    /// The shift of the modulus.
    pub fn shift(&self) -> (r: u32)
        ensures
            r == self.spec_shift(),
    {
        self.shift
    }
}

/// A value modulo a word, without its ring: the residue shifted left by the ring's shift.
#[derive(Clone, Copy, Debug, PartialEq, Eq)]
pub struct ModuloSmallRaw {
    normalized: Word,
}

impl ModuloSmallRaw {
    /// The normalized value.
    pub closed spec fn spec_normalized(&self) -> Word {
        self.normalized
    }

    /// The value belongs to `ring`: it is a multiple of `2^shift` below the normalized
    /// modulus.
    pub closed spec fn is_in(&self, ring: ModuloRingSmall) -> bool {
        &&& ring.wf()
        &&& self.normalized < ring.spec_normalized_modulus()
        &&& self.normalized as nat % pow2(ring.spec_shift()) == 0
    }

    /// The residue in `ring`.
    pub closed spec fn value_in(&self, ring: ModuloRingSmall) -> nat {
        self.normalized as nat / pow2(ring.spec_shift())
    }

    /// The value with a given normalized representation.
    pub fn from_normalized(normalized: Word) -> (r: ModuloSmallRaw)
        ensures
            r.spec_normalized() == normalized,
    {
        ModuloSmallRaw { normalized }
    }

    /// The residue of a value that belongs to `ring` is below the modulus.
    pub proof fn lemma_value_below(&self, ring: ModuloRingSmall)
        requires
            self.is_in(ring),
        ensures
            self.value_in(ring) < ring@,
    {
        self.lemma_value_bound(ring);
    }

    /// Zero belongs to every ring.
    pub proof fn lemma_zero_in(&self, ring: ModuloRingSmall)
        requires
            ring.wf(),
            self.spec_normalized() == 0,
        ensures
            self.is_in(ring),
            self.value_in(ring) == 0,
    {
        lemma_pow2_pos(ring.shift as nat);
        vstd::arithmetic::div_mod::lemma_div_basics(pow2(ring.shift as nat) as int);
        vstd::arithmetic::div_mod::lemma_mod_self_0(pow2(ring.shift as nat) as int);
        vstd::arithmetic::div_mod::lemma_small_mod(0, pow2(ring.shift as nat));
    }

    /// The normalized value.
    pub fn normalized(self) -> (r: Word)
        ensures
            r == self.spec_normalized(),
    {
        self.normalized
    }

    /// The residue in `0..n` in a ring modulo `n`.
    pub fn residue(self, ring: &ModuloRingSmall) -> (r: Word)
        requires
            self.is_in(*ring),
        ensures
            r == self.value_in(*ring),
            r < ring@,
    {
        proof {
            ring.lemma_wf();
            vstd::bits::lemma_u64_shr_is_div(self.normalized, ring.shift as u64);
            self.lemma_value_bound(*ring);
        }
        self.normalized >> ring.shift
    }

    /// The residue is below the modulus, and the normalized value is it shifted.
    proof fn lemma_value_bound(&self, ring: ModuloRingSmall)
        requires
            self.is_in(ring),
        ensures
            self.value_in(ring) < ring@,
            self.normalized as nat == self.value_in(ring) * pow2(ring.spec_shift()),
    {
        ring.lemma_wf();
        let p = pow2(ring.shift as nat) as int;
        lemma_fundamental_div_mod(self.normalized as int, p);
        let v = self.normalized as int / p;
        assert(v < ring@) by (nonlinear_arith)
            requires
                self.normalized == p * v,
                self.normalized < ring@ * p,
                p > 0,
        ;
        vstd::arithmetic::mul::lemma_mul_is_commutative(v, p);
    }

    /// The normalized value of `value * 2^shift mod (m * 2^shift)` is the residue of `value`,
    /// shifted.
    proof fn lemma_reduce(ring: ModuloRingSmall, value: nat, rem: nat)
        requires
            ring.wf(),
            rem == (value * pow2(ring.spec_shift())) % (ring.normalized_modulus as nat),
        ensures
            rem % pow2(ring.spec_shift()) == 0,
            rem < ring.normalized_modulus,
            rem / pow2(ring.spec_shift()) == value % ring@,
    {
        ring.lemma_wf();
        let p = pow2(ring.shift as nat) as int;
        let m = ring@ as int;
        let t = (value % ring@) as int;
        lemma_fundamental_div_mod(value as int, m);
        lemma_mod_bound(value as int, m);
        let q = value as int / m;
        assert(value * p == (m * p) * q + t * p) by (nonlinear_arith)
            requires
                value == m * q + t,
        ;
        assert(0 <= t * p < m * p) by (nonlinear_arith)
            requires
                0 <= t < m,
                p >= 1,
        ;
        vstd::arithmetic::div_mod::lemma_fundamental_div_mod_converse_mod(value * p, m * p, q, t * p);
        lemma_mod_multiples_basic(t, p);
        vstd::arithmetic::mul::lemma_mul_is_commutative(t, p);
        vstd::arithmetic::div_mod::lemma_div_multiples_vanish(t, p);
    }

    /// `word` in `ring`.
    pub fn from_word(word: Word, ring: &ModuloRingSmall) -> (r: ModuloSmallRaw)
        requires
            ring.wf(),
        ensures
            r.is_in(*ring),
            r.value_in(*ring) == (word as nat) % ring@,
    {
        proof {
            ring.lemma_wf();
            lemma2_to64_rest();
            vstd::bits::lemma_u64_pow2_no_overflow(ring.shift as nat);
            vstd::bits::lemma_u64_shl_is_mul(1, ring.shift as u64);
            let p = pow2(ring.shift as nat);
            let h = pow2(63);
            let nm = ring.normalized_modulus as nat;
            assert(word * p < word_base() * nm) by (nonlinear_arith)
                requires
                    word < word_base(),
                    0 < p <= h,
                    h <= nm,
            ;
        }
        let factor: Word = 1 << ring.shift;
        let (_, rem) = ring.fast_div.div_rem(extend_word(word) * extend_word(factor));
        proof {
            ModuloSmallRaw::lemma_reduce(*ring, word as nat, rem as nat);
        }
        ModuloSmallRaw { normalized: rem }
    }

    /// `self * rhs` in `ring`.
    pub fn mul(self, rhs: ModuloSmallRaw, ring: &ModuloRingSmall) -> (r: ModuloSmallRaw)
        requires
            self.is_in(*ring),
            rhs.is_in(*ring),
        ensures
            r.is_in(*ring),
            r.value_in(*ring) == (self.value_in(*ring) * rhs.value_in(*ring)) % ring@,
    {
        let ghost a = self.value_in(*ring);
        let ghost b = rhs.value_in(*ring);
        let ghost p = pow2(ring.spec_shift());
        proof {
            ring.lemma_wf();
            self.lemma_value_bound(*ring);
            rhs.lemma_value_bound(*ring);
            vstd::bits::lemma_u64_shr_is_div(self.normalized, ring.shift as u64);
            lemma2_to64_rest();
            assert(a * (b * p) < ring.normalized_modulus * word_base()) by (nonlinear_arith)
                requires
                    a < ring@,
                    ring@ < word_base(),
                    b * p < ring.normalized_modulus,
                    ring.normalized_modulus == ring@ * p,
            ;
        }
        let product = extend_word(self.normalized >> ring.shift) * extend_word(rhs.normalized);
        let (_, rem) = ring.fast_div.div_rem(product);
        proof {
            assert(product == (a * b) * p) by (nonlinear_arith)
                requires
                    product == a * (b * p),
            ;
            ModuloSmallRaw::lemma_reduce(*ring, a * b, rem as nat);
        }
        ModuloSmallRaw { normalized: rem }
    }

    /// `self^exp` in `ring`.
    pub fn pow_word(self, exp: Word, ring: &ModuloRingSmall) -> (r: ModuloSmallRaw)
        requires
            self.is_in(*ring),
        ensures
            r.is_in(*ring),
            r.value_in(*ring) == mpow(self.value_in(*ring), exp as nat, ring@),
    {
        proof {
            ring.lemma_wf();
            self.lemma_value_bound(*ring);
        }
        if exp == 0 {
            proof {
                lemma_pow0(self.value_in(*ring) as int);
            }
            return ModuloSmallRaw::from_word(1, ring);
        }
        let bits = WORD_BITS - 1 - exp.leading_zeros();
        proof {
            crate::math::lemma_leading_zeros_normalizes(exp);
            lemma_top_bit(exp, bits as nat);
            lemma_pow1(self.value_in(*ring) as int);
            vstd::arithmetic::div_mod::lemma_small_mod(self.value_in(*ring), ring@);
        }
        let r = self.pow_helper(bits, self, exp, ring);
        proof {
            let x = self.value_in(*ring);
            let m = ring@;
            // x^(2^bits) x^(exp mod 2^bits) == x^exp
            crate::modular_pow::lemma_mpow_mul(x, pow2(bits as nat), (exp as nat) % pow2(bits as nat), m);
        }
        r
    }

    /// `self^(2^bits) * base^(exp mod 2^bits)` in `ring`: square and multiply over the low
    /// `bits` bits of `exp`, from the top.
    pub fn pow_helper(self, bits: u32, base: ModuloSmallRaw, exp: Word, ring: &ModuloRingSmall) -> (r:
        ModuloSmallRaw)
        requires
            self.is_in(*ring),
            base.is_in(*ring),
            bits <= 64,
        ensures
            r.is_in(*ring),
            r.value_in(*ring) == (mpow(self.value_in(*ring), pow2(bits as nat), ring@) * mpow(
                base.value_in(*ring),
                (exp as nat) % pow2(bits as nat),
                ring@,
            )) % ring@,
    {
        let ghost s = self.value_in(*ring);
        let ghost x = base.value_in(*ring);
        let ghost m = ring@;
        let ghost b0 = bits as nat;
        proof {
            ring.lemma_wf();
            self.lemma_value_bound(*ring);
            base.lemma_value_bound(*ring);
        }
        let mut res = self;
        let mut bits = bits;
        proof {
            lemma_helper_start(s, x, exp as nat, b0, m);
        }
        while bits > 0
            invariant
                bits <= b0 <= 64,
                res.is_in(*ring),
                ring.wf(),
                s == self.value_in(*ring),
                x == base.value_in(*ring),
                base.is_in(*ring),
                m == ring@,
                m >= 1,
                x < m,
                res.value_in(*ring) == (mpow(s, pow2((b0 - bits) as nat), m) * mpow(
                    x,
                    ((exp as nat) % pow2(b0)) / pow2(bits as nat),
                    m,
                )) % m,
            decreases bits,
        {
            let ghost before = res.value_in(*ring);
            res = res.mul(res, ring);
            bits -= 1;
            proof {
                lemma_square_step(s, x, exp as nat, b0, bits as nat, m, before);
                lemma_shl_bit(exp, bits);
            }
            if exp & (1 << bits) != 0 {
                let ghost sq = res.value_in(*ring);
                res = res.mul(base, ring);
                proof {
                    lemma_multiply_step(s, x, exp as nat, b0, bits as nat, m, sq, true);
                }
            } else {
                proof {
                    lemma_multiply_step(s, x, exp as nat, b0, bits as nat, m, res.value_in(*ring), false);
                }
            }
        }
        proof {
            lemma2_to64();
            vstd::arithmetic::div_mod::lemma_div_basics(((exp as nat) % pow2(b0)) as int);
        }
        res
    }
}

/// The top bit of a non-zero word.
proof fn lemma_top_bit(exp: Word, bits: nat)
    requires
        exp != 0,
        bits == 63 - vstd::std_specs::bits::u64_leading_zeros(exp),
        exp * pow2(vstd::std_specs::bits::u64_leading_zeros(exp) as nat) < 0x1_0000_0000_0000_0000,
        exp * pow2(vstd::std_specs::bits::u64_leading_zeros(exp) as nat) >= 0x8000_0000_0000_0000,
    ensures
        bits < 64,
        pow2(bits) <= exp < 2 * pow2(bits),
        exp as nat == pow2(bits) + (exp as nat) % pow2(bits),
{
    let z = vstd::std_specs::bits::u64_leading_zeros(exp) as nat;
    lemma2_to64();
    lemma2_to64_rest();
    lemma_pow2_adds(z, bits);
    assert(z + bits == 63);
    lemma_pow2_pos(z);
    lemma_pow2_pos(bits);
    vstd::arithmetic::power2::lemma_pow2_unfold(64);
    let pz = pow2(z);
    let pb = pow2(bits);
    assert(pz * pb == 0x8000_0000_0000_0000);
    assert(pb <= exp) by (nonlinear_arith)
        requires
            exp * pz >= pz * pb,
            pz > 0,
    ;
    assert(exp < 2 * pb) by (nonlinear_arith)
        requires
            exp * pz < 2 * (pz * pb),
            pz > 0,
    ;
    lemma_fundamental_div_mod(exp as int, pb as int);
    lemma_mod_bound(exp as int, pb as int);
    let q = exp as int / (pb as int);
    assert(q == 1) by (nonlinear_arith)
        requires
            exp == pb * q + (exp as int) % (pb as int),
            0 <= (exp as int) % (pb as int) < pb,
            pb <= exp < 2 * pb,
    ;
    assert((exp as nat) % pow2(bits) == (exp as int) % (pb as int));
    assert(pb * q == pb) by (nonlinear_arith)
        requires
            q == 1,
    ;
}

/// At the start of the square-and-multiply loop nothing is consumed.
proof fn lemma_helper_start(s: nat, x: nat, e: nat, b0: nat, m: nat)
    requires
        m >= 1,
        s < m,
    ensures
        (mpow(s, pow2(0), m) * mpow(x, (e % pow2(b0)) / pow2(b0), m)) % m == s,
{
    lemma2_to64();
    lemma_pow1(s as int);
    vstd::arithmetic::div_mod::lemma_small_mod(s, m);
    lemma_pow2_pos(b0);
    lemma_mod_bound(e as int, pow2(b0) as int);
    vstd::arithmetic::div_mod::lemma_basic_div((e % pow2(b0)) as int, pow2(b0) as int);
    lemma_pow0(x as int);
    vstd::arithmetic::div_mod::lemma_mul_mod_noop_right(s as int, 1, m as int);
    assert(s * 1 == s);
}

/// Squaring doubles both exponents.
proof fn lemma_square_step(s: nat, x: nat, e: nat, b0: nat, bits: nat, m: nat, before: nat)
    requires
        bits < b0,
        m >= 1,
        before == (mpow(s, pow2((b0 - (bits + 1)) as nat), m) * mpow(
            x,
            (e % pow2(b0)) / pow2(bits + 1),
            m,
        )) % m,
    ensures
        (before * before) % m == (mpow(s, pow2((b0 - bits) as nat), m) * mpow(
            x,
            2 * ((e % pow2(b0)) / pow2(bits + 1)),
            m,
        )) % m,
{
    let a = mpow(s, pow2((b0 - (bits + 1)) as nat), m) as int;
    let c = mpow(x, (e % pow2(b0)) / pow2(bits + 1), m) as int;
    let mi = m as int;
    // (a c mod m)^2 == a^2 c^2 (mod m)
    vstd::arithmetic::div_mod::lemma_mul_mod_noop(a * c, a * c, mi);
    vstd::arithmetic::div_mod::lemma_mod_twice(a * c, mi);
    assert((a * c) * (a * c) == (a * a) * (c * c)) by (nonlinear_arith);
    vstd::arithmetic::div_mod::lemma_mul_mod_noop(a * a, c * c, mi);
    crate::modular_pow::lemma_mpow_mul(s, pow2((b0 - (bits + 1)) as nat), pow2((b0 - (bits + 1)) as nat), m);
    crate::modular_pow::lemma_mpow_mul(x, (e % pow2(b0)) / pow2(bits + 1), (e % pow2(b0)) / pow2(bits + 1), m);
    vstd::arithmetic::power2::lemma_pow2_unfold((b0 - bits) as nat);
    assert(((b0 - bits) - 1) as nat == (b0 - (bits + 1)) as nat);
    assert(pow2((b0 - (bits + 1)) as nat) + pow2((b0 - (bits + 1)) as nat) == pow2((b0 - bits) as nat));
    lemma_mod_bound(before as int, mi);
    lemma_mod_bound(a * c, mi);
    assert(before == (a * c) % mi);
}

/// Multiplying by the base where bit `bits` of `e` is set adds it to the exponent.
proof fn lemma_multiply_step(s: nat, x: nat, e: nat, b0: nat, bits: nat, m: nat, sq: nat, set: bool)
    requires
        bits < b0 <= 64,
        m >= 1,
        x < m,
        sq == (mpow(s, pow2((b0 - bits) as nat), m) * mpow(
            x,
            2 * ((e % pow2(b0)) / pow2(bits + 1)),
            m,
        )) % m,
        set == ((e / pow2(bits)) % 2 == 1),
    ensures
        set ==> (sq * x) % m == (mpow(s, pow2((b0 - bits) as nat), m) * mpow(
            x,
            (e % pow2(b0)) / pow2(bits),
            m,
        )) % m,
        !set ==> sq == (mpow(s, pow2((b0 - bits) as nat), m) * mpow(
            x,
            (e % pow2(b0)) / pow2(bits),
            m,
        )) % m,
{
    let f = e % pow2(b0);
    lemma_pow2_pos(b0);
    lemma_pow2_pos(bits);
    // f / 2^bits == 2 (f / 2^(bits + 1)) + bit
    vstd::arithmetic::power2::lemma_pow2_unfold(bits + 1);
    lemma_div_denominator_nat(f, pow2(bits), 2);
    lemma_fundamental_div_mod((f / pow2(bits)) as int, 2);
    // the bit of f at `bits` is that of e
    lemma_pow2_adds(bits, (b0 - bits) as nat);
    assert(bits + (b0 - bits) as nat == b0);
    lemma_pow2_pos((b0 - bits) as nat);
    vstd::arithmetic::div_mod::lemma_mod_breakdown(e as int, pow2(bits) as int, pow2((b0 - bits) as nat) as int);
    lemma_mod_bound(e as int, pow2(bits) as int);
    let h = (e / pow2(bits)) as int;
    vstd::arithmetic::power2::lemma_pow2_unfold((b0 - bits) as nat);
    let q2 = pow2(((b0 - bits) - 1) as nat) as int;
    lemma_pow2_pos(((b0 - bits) - 1) as nat);
    vstd::arithmetic::div_mod::lemma_mod_mod(h, 2, q2);
    vstd::arithmetic::mul::lemma_mul_is_commutative(2, q2);
    let fi = f as int;
    let p = pow2(bits) as int;
    vstd::arithmetic::div_mod::lemma_hoist_over_denominator((e as int) % p, h % (pow2((b0 - bits) as nat) as int), p as nat);
    vstd::arithmetic::div_mod::lemma_basic_div((e as int) % p, p);
    assert(fi / p == h % (pow2((b0 - bits) as nat) as int));
    assert((fi / p) % 2 == h % 2);
    let k = (f / pow2(bits + 1)) as nat;
    let a = mpow(s, pow2((b0 - bits) as nat), m) as int;
    let mi = m as int;
    if set {
        assert(f / pow2(bits) == 2 * k + 1);
        crate::modular_pow::lemma_mpow_mul(x, 2 * k, 1, m);
        lemma_pow1(x as int);
        vstd::arithmetic::div_mod::lemma_small_mod(x, m);
        let c = mpow(x, 2 * k, m) as int;
        vstd::arithmetic::div_mod::lemma_mul_mod_noop_left(a * c, x as int, mi);
        assert((a * c) * x == a * (c * x)) by (nonlinear_arith);
        vstd::arithmetic::div_mod::lemma_mul_mod_noop_right(a, c * x, mi);
    } else {
        assert(f / pow2(bits) == 2 * k);
    }
}

/// `(x / a) / b == x / (a b)` for naturals.
proof fn lemma_div_denominator_nat(x: nat, a: nat, b: nat)
    requires
        a > 0,
        b > 0,
    ensures
        (x / a) / b == x / (a * b),
{
    vstd::arithmetic::div_mod::lemma_div_denominator(x as int, a as int, b as int);
}

/// The bit tested by a mask is the bit of the exponent.
proof fn lemma_shl_bit(exp: Word, bits: u32)
    requires
        bits < 64,
    ensures
        (exp & (1u64 << bits)) != 0 <==> ((exp as nat / pow2(bits as nat)) % 2 == 1),
{
    crate::bits::lemma_word_bit(exp, bits as u64);
}

} // verus!
