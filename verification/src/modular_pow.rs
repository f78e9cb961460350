//! Modular exponentiation by sliding windows.

use crate::bits::{is_ilog2, is_trailing_zeros, lemma_bit_of_words, lemma_word_bit, spec_bit};
use crate::gcd_spec::spec_gcd;
use crate::ibig::{abs, IBig};
use crate::math::ones;
use crate::modular::Modulo;
use crate::modular_small::{ModuloRingSmall, ModuloSmallRaw};
use crate::primitive::{double_word, split_double_word, word_base, Word, WORD_BITS, WORD_BITS_USIZE};
use crate::sign::Sign;
use crate::ubig::UBig;
use crate::value::{pow_base, to_nat};
use vstd::arithmetic::div_mod::{
    lemma_div_denominator, lemma_fundamental_div_mod, lemma_fundamental_div_mod_converse_mod,
    lemma_mod_bound, lemma_mod_breakdown, lemma_mod_multiples_vanish,
};
use vstd::arithmetic::power::{lemma_pow0, lemma_pow1, lemma_pow_adds, pow};
use vstd::arithmetic::power2::{lemma2_to64, lemma2_to64_rest, lemma_pow2_adds, lemma_pow2_pos, pow2};
use vstd::prelude::*;

verus! {

/// `x^e mod m`.
pub open spec fn mpow(x: nat, e: nat, m: nat) -> nat {
    (pow(x as int, e) % (m as int)) as nat
}

/// Multiplying powers of `x` modulo `m` adds the exponents.
pub proof fn lemma_mpow_mul(x: nat, a: nat, b: nat, m: nat)
    requires
        m >= 1,
    ensures
        (mpow(x, a, m) * mpow(x, b, m)) % m == mpow(x, a + b, m),
{
    lemma_pow_adds(x as int, a, b);
    crate::pow::lemma_pow_nonneg(x as int, a);
    crate::pow::lemma_pow_nonneg(x as int, b);
    vstd::arithmetic::div_mod::lemma_mul_mod_noop(pow(x as int, a), pow(x as int, b), m as int);
    lemma_mod_bound(pow(x as int, a), m as int);
    lemma_mod_bound(pow(x as int, b), m as int);
}

/// Cost of sliding-window exponentiation of `n`-bit exponents with a window of
/// `window_size` bits: the size of the table of odd powers plus the expected number of
/// multiplications.
pub open spec fn pow_window_cost(n: nat, window_size: nat) -> int {
    pow2((window_size - 1) as nat) - 1 + n / (window_size + 1)
}

/// Window sizes are below this limit: the bits of a word and of a `usize`.
pub open spec fn pow_window_limit() -> nat {
    if usize::BITS < 64 {
        usize::BITS as nat
    } else {
        64
    }
}

/// The cost of a window size.
fn window_cost(n: usize, window_size: u32) -> (r: usize)
    requires
        1 <= window_size < pow_window_limit(),
    ensures
        r == pow_window_cost(n as nat, window_size as nat),
{
    let shift = (window_size - 1) as usize;
    proof {
        assert(usize::BITS == 32 || usize::BITS == 64);
        vstd::arithmetic::power2::lemma_pow2_strictly_increases(shift as nat, (usize::BITS - 1) as nat);
        lemma_pow2_pos(shift as nat);
        vstd::bits::lemma_usize_pow2_no_overflow(shift as nat);
        vstd::bits::lemma_usize_shl_is_mul(1, shift);
        lemma2_to64();
        lemma2_to64_rest();
        if usize::BITS == 32 {
            assert(usize::MAX == 0xffff_ffff);
            assert(pow2(shift as nat) <= 0x4000_0000) by {
                if shift < 30 {
                    vstd::arithmetic::power2::lemma_pow2_strictly_increases(shift as nat, 30);
                }
            }
        } else {
            assert(usize::MAX == 0xffff_ffff_ffff_ffff);
            assert(pow2(shift as nat) <= 0x4000_0000_0000_0000) by {
                if shift < 62 {
                    vstd::arithmetic::power2::lemma_pow2_strictly_increases(shift as nat, 62);
                }
            }
        }
        assert(n as nat / (window_size as nat + 1) <= n as nat / 2) by {
            vstd::arithmetic::div_mod::lemma_div_is_ordered_by_denominator(n as int, 2, window_size + 1);
        }
    }
    (1usize << shift) - 1 + n / (window_size as usize + 1)
}

/// Choose the window size for `n`-bit exponents: the first size at which a larger window
/// does not lower the cost.
fn choose_pow_window_len(n: usize) -> (r: u32)
    ensures
        1 <= r < pow_window_limit(),
        forall|w: nat|
            1 <= w < r ==> #[trigger] pow_window_cost(n as nat, w + 1) < pow_window_cost(
                n as nat,
                w,
            ),
        r + 1 == pow_window_limit() || pow_window_cost(n as nat, r as nat) <= pow_window_cost(
            n as nat,
            (r + 1) as nat,
        ),
{
    let limit: u32 = if usize::BITS < WORD_BITS {
        usize::BITS
    } else {
        WORD_BITS
    };
    proof {
        assert(usize::BITS == 32 || usize::BITS == 64);
    }
    let mut window_size: u32 = 1;
    let mut c = window_cost(n, window_size);
    while window_size + 1 < limit
        invariant
            limit == pow_window_limit(),
            1 <= window_size < limit,
            c == pow_window_cost(n as nat, window_size as nat),
            forall|w: nat|
                1 <= w < window_size ==> #[trigger] pow_window_cost(n as nat, w + 1)
                    < pow_window_cost(n as nat, w),
        ensures
            1 <= window_size < limit,
            forall|w: nat|
                1 <= w < window_size ==> #[trigger] pow_window_cost(n as nat, w + 1)
                    < pow_window_cost(n as nat, w),
            window_size + 1 == limit || pow_window_cost(n as nat, window_size as nat)
                <= pow_window_cost(n as nat, (window_size + 1) as nat),
        decreases limit - window_size,
    {
        let c2 = window_cost(n, window_size + 1);
        if c <= c2 {
            break;
        }
        window_size += 1;
        c = c2;
    }
    window_size
}

/// The bits of the exponent `e` in the window ending at bit `bit`, read from its words.
proof fn lemma_exp_window(s: Seq<Word>, bit: nat, wl: nat, next: Word, cur: Word)
    requires
        1 <= wl < 64,
        bit / 64 < s.len(),
        cur == s[(bit / 64) as int],
        next == if bit / 64 == 0 {
            0
        } else {
            s[(bit / 64 - 1) as int]
        },
    ensures
        ((next + cur * word_base()) as nat / pow2((bit % 64 + 65 - wl) as nat)) % pow2(wl) == (to_nat(s) * pow2(
            (wl - 1) as nat,
        ) / pow2(bit)) % pow2(wl),
{
    let e = to_nat(s) as int;
    let w = bit / 64;
    let k = (bit % 64 + 65 - wl) as nat;
    let bb = word_base() as int;
    let d = next + cur * bb;
    let x = e * bb / (pow_base(w) as int);
    lemma2_to64_rest();
    crate::value::lemma_pow_base_pos(w);
    // x == d + B^2 h for some h >= 0.
    let h: int;
    if w == 0 {
        crate::value::lemma_to_nat_skip_next(s, 0);
        assert(s.skip(0) =~= s);
        let r = to_nat(s.skip(1)) as int;
        assert(pow_base(w) == 1);
        vstd::arithmetic::div_mod::lemma_div_basics(e * bb);
        assert(x == e * bb);
        assert(x == d + (bb * bb) * r) by (nonlinear_arith)
            requires
                e == cur + bb * r,
                x == e * bb,
                d == cur * bb,
        ;
        h = r;
    } else {
        crate::value::lemma_to_nat_split(s, (w - 1) as int);
        crate::value::lemma_to_nat_bound(s.take((w - 1) as int));
        crate::value::lemma_to_nat_skip_next(s, (w - 1) as int);
        crate::value::lemma_to_nat_skip_next(s, w as int);
        crate::value::lemma_pow_base_step((w - 1) as nat);
        crate::value::lemma_pow_base_pos((w - 1) as nat);
        assert((w - 1) as nat + 1 == w);
        let lo = to_nat(s.take((w - 1) as int)) as int;
        let pw1 = pow_base((w - 1) as nat) as int;
        let u = to_nat(s.skip((w - 1) as int)) as int;
        let r = to_nat(s.skip(w as int + 1)) as int;
        assert(s.skip((w - 1) as int + 1) == s.skip(w as int));
        assert(u == d + (bb * bb) * r) by (nonlinear_arith)
            requires
                u == next + bb * to_nat(s.skip(w as int)),
                to_nat(s.skip(w as int)) == cur + bb * r,
                d == next + cur * bb,
        ;
        assert(e * bb == (pw1 * bb) * u + lo * bb) by (nonlinear_arith)
            requires
                e == lo + pw1 * u,
        ;
        assert(0 <= lo * bb < pw1 * bb) by (nonlinear_arith)
            requires
                0 <= lo < pw1,
                bb > 0,
        ;
        vstd::arithmetic::div_mod::lemma_div_multiples_vanish_fancy(u, lo * bb, pw1 * bb);
        h = r;
    }
    assert(h >= 0);
    // Dividing by 2^k keeps the low `wl` bits of d.
    lemma_pow2_pos(k);
    lemma_pow2_adds(k, (128 - k) as nat);
    lemma_pow2_adds(wl, (128 - k - wl) as nat);
    lemma_pow2_adds(64, 64);
    let pk = pow2(k) as int;
    let pr = pow2((128 - k) as nat) as int;
    assert(bb * bb == pk * pr);
    vstd::arithmetic::div_mod::lemma_hoist_over_denominator(d, pr * h, pk as nat);
    assert(x == d + (pr * h) * pk) by (nonlinear_arith)
        requires
            x == d + (bb * bb) * h,
            bb * bb == pk * pr,
    ;
    let pw = pow2(wl) as int;
    let pq = pow2((128 - k - wl) as nat) as int;
    assert(pr * h == pw * (pq * h)) by (nonlinear_arith)
        requires
            pr == pw * pq,
    ;
    lemma_pow2_pos(wl);
    lemma_mod_multiples_vanish(pq * h, d / pk, pw);
    // x / 2^k == e 2^(wl - 1) / 2^bit.
    crate::shift_ops::lemma_pow_base_pow2(w);
    lemma_div_denominator(e * bb, pow_base(w) as int, pk);
    lemma_pow2_adds(64 * w, k);
    assert(64 * w + k == bit + 65 - wl);
    let a = (wl - 1) as nat;
    let c = (65 - wl) as nat;
    lemma_pow2_adds(a, c);
    lemma_pow2_adds(bit, c);
    lemma_pow2_pos(c);
    lemma_pow2_pos(bit);
    assert(a + c == 64);
    assert(e * bb == (e * pow2(a)) * pow2(c)) by (nonlinear_arith)
        requires
            bb == pow2(a) * pow2(c),
    ;
    crate::pow::lemma_pow_nonneg(2, a);
    assert(e * pow2(a) >= 0) by (nonlinear_arith)
        requires
            e >= 0,
            pow2(a) >= 0,
    ;
    lemma_div_denominator(e * bb, pow2(c) as int, pow2(bit) as int);
    vstd::arithmetic::div_mod::lemma_div_multiples_vanish(e * pow2(a), pow2(c) as int);
    vstd::arithmetic::mul::lemma_mul_is_commutative(e * pow2(a), pow2(c) as int);
    vstd::arithmetic::mul::lemma_mul_is_commutative(pow2(c) as int, pow2(bit) as int);
    assert(pow2((bit + 65 - wl) as nat) == pow2(bit) * pow2(c));
}

/// The top bit of the window ending at a set bit of the exponent is set.
proof fn lemma_window_top_bit(e: nat, bit: nat, wl: nat)
    requires
        1 <= wl,
        spec_bit(e, bit),
    ensures
        (e * pow2((wl - 1) as nat) / pow2(bit)) % pow2(wl) >= pow2((wl - 1) as nat),
{
    let a = (wl - 1) as nat;
    let pa = pow2(a) as int;
    let pb = pow2(bit) as int;
    lemma_pow2_pos(a);
    lemma_pow2_pos(bit);
    let x = (e * pa) / pb;
    assert(e * pa >= 0) by (nonlinear_arith)
        requires
            pa > 0,
    ;
    vstd::arithmetic::div_mod::lemma_div_pos_is_pos(e * pa, pb);
    lemma_div_denominator(e * pa, pb, pa);
    lemma_div_denominator(e * pa, pa, pb);
    vstd::arithmetic::mul::lemma_mul_is_commutative(pa, pb);
    vstd::arithmetic::div_mod::lemma_div_multiples_vanish(e as int, pa);
    vstd::arithmetic::mul::lemma_mul_is_commutative(e as int, pa);
    assert(x / pa == (e as int) / pb);
    vstd::arithmetic::power2::lemma_pow2_unfold(wl);
    assert(a + 1 == wl);
    lemma_mod_breakdown(x, pa, 2);
    lemma_mod_bound(x, pa);
    vstd::arithmetic::mul::lemma_mul_is_commutative(pa, 2);
}

/// The window of an exponent after dropping its trailing zeros: it is the bits of the
/// exponent from bit `bit - (num_bits - 1)` to bit `bit`.
proof fn lemma_window_exponent(e: nat, bit: nat, wl: nat, tz: nat)
    requires
        1 <= wl,
        spec_bit(e, bit),
        is_trailing_zeros((e * pow2((wl - 1) as nat) / pow2(bit)) % pow2(wl), tz),
    ensures
        tz < wl,
        bit + tz + 1 >= wl,
        ((e * pow2((wl - 1) as nat) / pow2(bit)) % pow2(wl)) / pow2(tz) == (e / pow2(
            (bit + tz + 1 - wl) as nat,
        )) % pow2((wl - tz) as nat),
        e / pow2((bit + tz + 1 - wl) as nat) == (e / pow2(bit + 1)) * pow2((wl - tz) as nat) + ((e
            * pow2((wl - 1) as nat) / pow2(bit)) % pow2(wl)) / pow2(tz),
        (((e * pow2((wl - 1) as nat) / pow2(bit)) % pow2(wl)) / pow2(tz)) % 2 == 1,
{
    let a = (wl - 1) as nat;
    let pa = pow2(a) as int;
    let pb = pow2(bit) as int;
    lemma_pow2_pos(a);
    lemma_pow2_pos(bit);
    lemma_pow2_pos(wl);
    lemma_pow2_pos(tz);
    let x = (e * pa) / pb;
    assert(e * pa >= 0) by (nonlinear_arith)
        requires
            pa > 0,
    ;
    vstd::arithmetic::div_mod::lemma_div_pos_is_pos(e * pa, pb);
    let raw = x % (pow2(wl) as int);
    // (i) x / 2^a == e / 2^bit
    lemma_div_denominator(e * pa, pb, pa);
    lemma_div_denominator(e * pa, pa, pb);
    vstd::arithmetic::mul::lemma_mul_is_commutative(pa, pb);
    vstd::arithmetic::div_mod::lemma_div_multiples_vanish(e as int, pa);
    vstd::arithmetic::mul::lemma_mul_is_commutative(e as int, pa);
    assert(x / pa == (e as int) / pb);
    // (ii) the top bit of the window is set
    vstd::arithmetic::power2::lemma_pow2_unfold(wl);
    assert(a + 1 == wl);
    lemma_mod_breakdown(x, pa, 2);
    lemma_mod_bound(x, pa);
    assert(raw == pa * ((x / pa) % 2) + x % pa);
    assert(raw >= pa);
    lemma_mod_bound(x, pow2(wl) as int);
    // (iii) tz < wl
    lemma_fundamental_div_mod(raw, pow2(tz) as int);
    vstd::arithmetic::div_mod::lemma_div_pos_is_pos(raw, pow2(tz) as int);
    let w = raw / (pow2(tz) as int);
    assert(w >= 1);
    assert(raw >= pow2(tz)) by (nonlinear_arith)
        requires
            raw == pow2(tz) * w + raw % (pow2(tz) as int),
            raw % (pow2(tz) as int) == 0,
            w >= 1,
            pow2(tz) > 0,
    ;
    if tz >= wl {
        if tz > wl {
            vstd::arithmetic::power2::lemma_pow2_strictly_increases(wl, tz);
        }
    }
    assert(tz < wl);
    let nb = (wl - tz) as nat;
    let pt = pow2(tz) as int;
    let pn = pow2(nb) as int;
    lemma_pow2_adds(tz, nb);
    assert(tz + nb == wl);
    lemma_pow2_pos(nb);
    // (iv) w == (x / 2^tz) % 2^nb
    lemma_mod_breakdown(x, pt, pn);
    lemma_mod_bound(x, pt);
    lemma_mod_bound(x / pt, pn);
    assert(raw == pt * ((x / pt) % pn) + x % pt);
    vstd::arithmetic::div_mod::lemma_mod_multiples_vanish((x / pt) % pn, x % pt, pt);
    lemma_mod_bound(x % pt, pt);
    assert(x % pt == 0) by {
        vstd::arithmetic::div_mod::lemma_small_mod((x % pt) as nat, pt as nat);
    }
    vstd::arithmetic::div_mod::lemma_div_multiples_vanish((x / pt) % pn, pt);
    assert(w == (x / pt) % pn);
    lemma_div_denominator(e * pa, pb, pt);
    lemma_pow2_adds(bit, tz);
    let xt = x / pt;
    assert(xt == (e * pa) / (pow2(bit + tz) as int));
    // (v) bit + tz >= a, or else the window would be even.
    if bit + tz < a {
        let dd = (a - bit - tz) as nat;
        lemma_pow2_adds(bit + tz, dd);
        assert(bit + tz + dd == a);
        lemma_pow2_pos(bit + tz);
        assert(e * pa == (e * pow2(dd)) * pow2(bit + tz)) by (nonlinear_arith)
            requires
                pa == pow2(bit + tz) * pow2(dd),
        ;
        vstd::arithmetic::div_mod::lemma_div_multiples_vanish((e * pow2(dd)) as int, pow2(bit + tz) as int);
        vstd::arithmetic::mul::lemma_mul_is_commutative((e * pow2(dd)) as int, pow2(bit + tz) as int);
        assert(xt == e * pow2(dd));
        vstd::arithmetic::power2::lemma_pow2_unfold(dd);
        let half = pow2((dd - 1) as nat);
        assert(xt == 2 * (e * half)) by (nonlinear_arith)
            requires
                xt == e * pow2(dd),
                pow2(dd) == 2 * half,
        ;
        vstd::arithmetic::power2::lemma_pow2_unfold(nb);
        let pn2 = pow2((nb - 1) as nat) as int;
        lemma_pow2_pos((nb - 1) as nat);
        vstd::arithmetic::div_mod::lemma_mod_mod(xt, 2, pn2);
        vstd::arithmetic::mul::lemma_mul_is_commutative(2, pn2);
        assert(xt % 2 == 0) by {
            lemma_mod_multiples_vanish((e * half) as int, 0, 2);
        }
        assert(false);
    }
    // (vi) x / 2^tz == e / 2^b2
    let b2 = (bit + tz - a) as nat;
    lemma_pow2_adds(b2, a);
    assert(b2 + a == bit + tz);
    lemma_pow2_pos(b2);
    lemma_div_denominator(e * pa, pa, pow2(b2) as int);
    vstd::arithmetic::mul::lemma_mul_is_commutative(pa, pow2(b2) as int);
    assert(xt == (e as int) / (pow2(b2) as int));
    assert(b2 == (bit + tz + 1 - wl) as nat);
    // (vii) splitting e / 2^b2 at nb bits
    lemma_fundamental_div_mod((e as int) / (pow2(b2) as int), pn);
    lemma_div_denominator(e as int, pow2(b2) as int, pn);
    lemma_pow2_adds(b2, nb);
    assert(b2 + nb == bit + 1);
    vstd::arithmetic::mul::lemma_mul_is_commutative(pn, ((e as int) / (pow2(b2) as int)) / pn);
}

impl Modulo {
    /// `self^exp` for `exp >= 2`, by sliding windows over the bits of `exp` with a table of
    /// the odd powers of `self`.
    fn pow_nontrivial(&self, exp: &UBig) -> (r: Modulo)
        requires
            exp@ >= 2,
        ensures
            r@.0 == self@.0,
            r@.1 == mpow(self@.1, exp@, self@.0),
    {
        let ghost x = self@.1;
        let ghost m = self@.0;
        let ghost e = exp@;
        let top = match exp.ilog2() {
            Some(k) => k,
            None => {
                return self.clone();
            },
        };
        let exp_words = exp.as_words();
        proof {
            crate::value::lemma_to_nat_bound(exp_words@);
            crate::shift_ops::lemma_pow_base_pow2(exp_words@.len());
            if top as nat > 64 * exp_words@.len() {
                vstd::arithmetic::power2::lemma_pow2_strictly_increases(64 * exp_words@.len(), top as nat);
            }
            lemma_top_bits(e, top as nat);
            lemma2_to64();
            if top == 0 {
                assert(e < pow2(1));
            }
        }
        let bit_len = top + 1;
        let window_len = choose_pow_window_len(bit_len);
        self.value_bounds();
        proof {
            lemma_mpow_mul(x, 1, 1, m);
            lemma_pow1(x as int);
            vstd::arithmetic::div_mod::lemma_small_mod(x, m);
        }
        // Table of odd powers: `table[i] == self^(2 i + 3)`.
        let mut val = self.mul(self);
        let count = 1usize << (window_len - 1);
        proof {
            vstd::bits::lemma_usize_pow2_no_overflow((window_len - 1) as nat);
            vstd::bits::lemma_usize_shl_is_mul(1, (window_len - 1) as usize);
            lemma_pow2_pos((window_len - 1) as nat);
        }
        let mut table: Vec<Modulo> = Vec::new();
        let mut i: usize = 1;
        while i < count
            invariant
                1 <= i <= count,
                count == pow2((window_len - 1) as nat),
                m >= 1,
                val@ == (m, mpow(x, 2, m)),
                self@ == (m, x),
                x < m,
                table@.len() == i - 1,
                forall|j: int|
                    0 <= j < table@.len() ==> (#[trigger] table@[j])@ == (m, mpow(x, (2 * j + 3) as nat, m)),
            decreases count - i,
        {
            let next = if i == 1 {
                self.mul(&val)
            } else {
                table[i - 2].mul(&val)
            };
            proof {
                if i == 1 {
                    lemma_mpow_mul(x, 1, 2, m);
                    lemma_pow1(x as int);
                    vstd::arithmetic::div_mod::lemma_small_mod(x, m);
                } else {
                    lemma_mpow_mul(x, (2 * (i - 2) + 3) as nat, 2, m);
                }
            }
            table.push(next);
            i += 1;
        }
        let mut bit = bit_len - 2;
        loop
            invariant_except_break
                val@ == (m, mpow(x, 2 * (e / pow2(bit as nat + 1)), m)),
            invariant
                bit < bit_len,
                bit_len == top + 1,
                top < 64 * exp_words@.len(),
                to_nat(exp_words@) == e,
                1 <= window_len < 64,
                count == pow2((window_len - 1) as nat),
                table@.len() == count - 1,
                forall|j: int|
                    0 <= j < table@.len() ==> (#[trigger] table@[j])@ == (m, mpow(x, (2 * j + 3) as nat, m)),
                self@ == (m, x),
                x < m,
                m >= 1,
            ensures
                val@ == (m, mpow(x, e, m)),
            decreases bit,
        {
            let word_idx = bit / WORD_BITS_USIZE;
            let bit_idx = (bit % WORD_BITS_USIZE) as u32;
            proof {
                assert(word_idx < exp_words@.len());
                lemma_bit_of_words(exp_words@, bit as nat);
                lemma_word_bit(exp_words@[word_idx as int], bit_idx as u64);
                lemma_bit_split(e, bit as nat);
            }
            let cur_word = exp_words[word_idx];
            if cur_word & (1 << bit_idx) != 0 {
                let next_word = if word_idx == 0 {
                    0
                } else {
                    exp_words[word_idx - 1]
                };
                let dw = double_word(next_word, cur_word);
                let (mut window, _) = split_double_word(
                    dw >> (bit_idx + 1 + WORD_BITS - window_len),
                );
                window &= ones(window_len);
                let ghost raw = window;
                proof {
                    lemma_exp_window(exp_words@, bit as nat, window_len as nat, next_word, cur_word);
                    lemma_window_mask(
                        dw,
                        (bit_idx + 1 + WORD_BITS - window_len) as u128,
                        window_len as nat,
                    );
                    lemma_window_top_bit(e, bit as nat, window_len as nat);
                    lemma_word_trailing_zeros(raw);
                    lemma_window_exponent(
                        e,
                        bit as nat,
                        window_len as nat,
                        vstd::std_specs::bits::u64_trailing_zeros(raw) as nat,
                    );
                }
                let num_bits = window_len - window.trailing_zeros();
                window >>= window_len - num_bits;
                let ghost hi = e / pow2(bit as nat + 1);
                let ghost odd = window as nat;
                proof {
                    vstd::bits::lemma_u64_shr_is_div(raw, (window_len - num_bits) as u64);
                    lemma2_to64();
                    assert(2 * hi * pow2(0) == 2 * hi) by (nonlinear_arith)
                        requires
                            pow2(0) == 1,
                    ;
                }
                // val := val^(2^(num_bits - 1))
                let mut j: u32 = 0;
                while j < num_bits - 1
                    invariant
                        j <= num_bits - 1,
                        m >= 1,
                        val@ == (m, mpow(x, 2 * hi * pow2(j as nat), m)),
                    decreases num_bits - 1 - j,
                {
                    proof {
                        lemma_mpow_mul(x, 2 * hi * pow2(j as nat), 2 * hi * pow2(j as nat), m);
                        vstd::arithmetic::power2::lemma_pow2_unfold(j as nat + 1);
                        assert(2 * hi * pow2(j as nat) + 2 * hi * pow2(j as nat) == 2 * hi * pow2(
                            j as nat + 1,
                        )) by (nonlinear_arith)
                            requires
                                pow2(j as nat + 1) == 2 * pow2(j as nat),
                        ;
                    }
                    val = val.mul(&val);
                    j += 1;
                }
                bit -= (num_bits as usize) - 1;
                proof {
                    vstd::arithmetic::power2::lemma_pow2_unfold(num_bits as nat);
                    assert(2 * hi * pow2((num_bits - 1) as nat) == hi * pow2(num_bits as nat)) by (
                    nonlinear_arith)
                        requires
                            pow2(num_bits as nat) == 2 * pow2((num_bits - 1) as nat),
                    ;
                    assert(odd % 2 == 1);
                    lemma_pow2_pos(num_bits as nat);
                    if num_bits < window_len {
                        vstd::arithmetic::power2::lemma_pow2_strictly_increases(num_bits as nat, window_len as nat);
                    }
                    vstd::arithmetic::power2::lemma_pow2_unfold(window_len as nat);
                    vstd::bits::lemma_u64_shr_is_div(window, 1);
                    lemma2_to64();
                }
                // val := val * self^window, from the table
                let entry_idx = (window >> 1) as usize;
                proof {
                    assert(odd < pow2(window_len as nat));
                    assert(entry_idx == odd / 2);
                    vstd::arithmetic::div_mod::lemma_fundamental_div_mod(odd as int, 2);
                    assert(odd == 2 * entry_idx + 1);
                    assert(entry_idx < count);
                }
                let entry = if entry_idx == 0 {
                    self
                } else {
                    &table[entry_idx - 1]
                };
                proof {
                    if entry_idx == 0 {
                        lemma_pow1(x as int);
                        vstd::arithmetic::div_mod::lemma_small_mod(x, m);
                    } else {
                        assert(2 * (entry_idx - 1) + 3 == odd);
                    }
                    assert(entry@ == (m, mpow(x, odd, m)));
                    lemma_mpow_mul(x, hi * pow2(num_bits as nat), odd, m);
                }
                val = val.mul(entry);
            } else {
                proof {
                    assert(e / pow2(bit as nat) == 2 * (e / pow2(bit as nat + 1)));
                }
            }
            if bit == 0 {
                proof {
                    lemma_pow0_div(e);
                }
                break;
            }
            bit -= 1;
            proof {
                let h = e / pow2(bit as nat + 1);
                lemma_mpow_mul(x, h, h, m);
                assert(h + h == 2 * h);
            }
            val = val.mul(&val);
        }
        val
    }

    /// `self^exp` for `exp >= 3` in a ring modulo a single word: square and multiply over the
    /// words of `exp`, from the top.
    fn pow_nontrivial_small(&self, exp: &UBig, ring: &ModuloRingSmall) -> (r: Modulo)
        requires
            ring.wf(),
            ring@ == self@.0,
            self@.0 < word_base(),
        ensures
            r@.0 == self@.0,
            r@.1 == mpow(self@.1, exp@, self@.0),
    {
        self.value_bounds();
        let ghost x = self@.1;
        let ghost m = self@.0;
        let residue = self.residue();
        let residue_words = residue.as_words();
        proof {
            if residue_words@.len() == 1 {
                assert(residue_words@ =~= seq![residue_words@[0]]);
                crate::value::lemma_to_nat_single(residue_words@[0]);
            }
            if residue_words@.len() >= 2 {
                crate::value::lemma_to_nat_normalized_lower(residue_words@);
                crate::value::lemma_pow_base_mono(1, (residue_words@.len() - 1) as nat);
                crate::value::lemma_pow_base_step(0);
            }
        }
        let raw = ModuloSmallRaw::from_word(crate::add_ops::word_of_short(residue_words), ring);
        proof {
            vstd::arithmetic::div_mod::lemma_small_mod(x, m);
        }
        let exp_words = exp.as_words();
        if exp_words.len() == 0 {
            proof {
                lemma_pow0(x as int);
            }
            return self.ring().from_ubig(UBig::from_word(1));
        }
        let mut n = exp_words.len() - 1;
        let mut val = raw.pow_word(exp_words[n], ring);
        proof {
            crate::value::lemma_to_nat_skip_next(exp_words@, n as int);
            assert(exp_words@.skip(n as int + 1) =~= Seq::<Word>::empty());
            crate::value::lemma_to_nat_empty(exp_words@.skip(n as int + 1));
        }
        while n != 0
            invariant
                n < exp_words@.len(),
                ring.wf(),
                raw.is_in(*ring),
                raw.value_in(*ring) == x,
                val.is_in(*ring),
                ring@ == m,
                m >= 1,
                x < m,
                val.value_in(*ring) == mpow(x, to_nat(exp_words@.skip(n as int)), m),
            decreases n,
        {
            let ghost hi = to_nat(exp_words@.skip(n as int));
            n -= 1;
            val = val.pow_helper(WORD_BITS, raw, exp_words[n], ring);
            proof {
                crate::value::lemma_to_nat_skip_next(exp_words@, n as int);
                lemma2_to64_rest();
                vstd::arithmetic::div_mod::lemma_small_mod(exp_words@[n as int] as nat, pow2(64));
                lemma_mpow_pow(x, hi, pow2(64), m);
                lemma_mpow_mul(x, hi * pow2(64), exp_words@[n as int] as nat, m);
                assert(hi * pow2(64) + exp_words@[n as int] == exp_words@[n as int] + word_base() * hi) by (
                nonlinear_arith)
                    requires
                        pow2(64) == word_base(),
                ;
            }
        }
        proof {
            assert(exp_words@.skip(0) =~= exp_words@);
        }
        let value = val.residue(ring);
        let r = self.ring().from_ubig(UBig::from_word(value));
        proof {
            vstd::arithmetic::div_mod::lemma_small_mod(value as nat, m);
        }
        r
    }

    /// `self^exp`.
    pub fn pow(&self, exp: &UBig) -> (r: Modulo)
        ensures
            r@.0 == self@.0,
            r@.1 == mpow(self@.1, exp@, self@.0),
    {
        self.value_bounds();
        if exp.is_zero() {
            proof {
                lemma_pow0(self@.1 as int);
            }
            self.ring().from_ubig(UBig::from_word(1))
        } else if exp.is_one() {
            proof {
                lemma_pow1(self@.1 as int);
                vstd::arithmetic::div_mod::lemma_small_mod(self@.1, self@.0);
            }
            self.clone()
        } else {
            let modulus = self.ring().modulus();
            let modulus_words = modulus.as_words();
            if modulus_words.len() == 1 {
                proof {
                    assert(modulus_words@ =~= seq![modulus_words@[0]]);
                    crate::value::lemma_to_nat_single(modulus_words@[0]);
                }
                let small_ring = ModuloRingSmall::new(modulus_words[0]);
                if exp_is_two(exp) {
                    proof {
                        lemma_mpow_mul(self@.1, 1, 1, self@.0);
                        lemma_pow1(self@.1 as int);
                        vstd::arithmetic::div_mod::lemma_small_mod(self@.1, self@.0);
                    }
                    self.mul(self)
                } else {
                    self.pow_nontrivial_small(exp, &small_ring)
                }
            } else {
                self.pow_nontrivial(exp)
            }
        }
    }

    /// `self^exp` for a signed exponent: a negative power is a power of the inverse.
    pub fn pow_signed(&self, exp: &IBig) -> (r: Modulo)
        requires
            exp@ < 0 ==> spec_gcd(self@.1, self@.0) == 1,
        ensures
            r@.0 == self@.0,
            exp@ >= 0 ==> r@.1 == mpow(self@.1, abs(exp@), self@.0),
            exp@ < 0 ==> r@.1 < self@.0 && (r@.1 * mpow(self@.1, abs(exp@), self@.0)) % self@.0
                == 1nat % self@.0,
    {
        self.value_bounds();
        match exp.sign() {
            Sign::Positive => self.pow(exp.magnitude()),
            Sign::Negative => match self.inverse() {
                None => self.clone(),
                Some(inv) => {
                    let r = inv.pow(exp.magnitude());
                    inv.value_bounds();
                    proof {
                        let m = self@.0 as int;
                        let k = abs(exp@);
                        let a = self@.1 as int;
                        let w = inv@.1 as int;
                        lemma_inverse_power(a, w, k, m);
                    }
                    r
                },
            },
        }
    }
}

/// `x^k y^k == (x y)^k == 1 (mod m)` when `x y == 1 (mod m)`.
proof fn lemma_inverse_power(a: int, w: int, k: nat, m: int)
    requires
        m >= 1,
        a >= 0,
        w >= 0,
        (a * w) % m == 1int % m,
    ensures
        ((mpow(w as nat, k, m as nat) * mpow(a as nat, k, m as nat)) as int) % m == 1int % m,
{
    crate::pow::lemma_pow_nonneg(a, k);
    crate::pow::lemma_pow_nonneg(w, k);
    vstd::arithmetic::div_mod::lemma_mul_mod_noop(pow(w, k), pow(a, k), m);
    vstd::arithmetic::power::lemma_pow_distributes(w, a, k);
    assert(w * a == a * w) by (nonlinear_arith);
    vstd::arithmetic::power::lemma_pow_mod_noop(a * w, k, m);
    vstd::arithmetic::power::lemma_pow_mod_noop(1, k, m);
    vstd::arithmetic::power::lemma1_pow(k);
    lemma_mod_bound(pow(w, k), m);
    lemma_mod_bound(pow(a, k), m);
}

/// With its top bit at `top`, `e / 2^top == 1`.
proof fn lemma_top_bits(e: nat, top: nat)
    requires
        is_ilog2(e, top),
    ensures
        e / pow2(top) == 1,
{
    lemma_pow2_pos(top);
    vstd::arithmetic::power2::lemma_pow2_unfold(top + 1);
    vstd::arithmetic::div_mod::lemma_fundamental_div_mod(e as int, pow2(top) as int);
    lemma_mod_bound(e as int, pow2(top) as int);
    let q = e as int / (pow2(top) as int);
    assert(q == 1) by (nonlinear_arith)
        requires
            e == pow2(top) * q + (e as int) % (pow2(top) as int),
            0 <= (e as int) % (pow2(top) as int) < pow2(top),
            pow2(top) <= e < 2 * pow2(top),
    ;
}

/// `e / 2^bit` is twice `e / 2^(bit + 1)`, plus bit `bit`.
proof fn lemma_bit_split(e: nat, bit: nat)
    ensures
        e / pow2(bit) == 2 * (e / pow2(bit + 1)) + (e / pow2(bit)) % 2,
{
    lemma_pow2_pos(bit);
    vstd::arithmetic::power2::lemma_pow2_unfold(bit + 1);
    lemma_div_denominator(e as int, pow2(bit) as int, 2);
    lemma_fundamental_div_mod((e / pow2(bit)) as int, 2);
}

/// `e / 2^0 == e`.
proof fn lemma_pow0_div(e: nat)
    ensures
        e / pow2(0) == e,
{
    lemma2_to64();
}

/// The low `wl` bits of `d >> k`, read through a word.
proof fn lemma_window_mask(d: u128, k: u128, wl: nat)
    requires
        k < 128,
        1 <= wl < 64,
    ensures
        ((((d >> k) % 0x1_0000_0000_0000_0000) as u64) & (pow2(wl) - 1) as u64) as nat == (d as nat
            / pow2(k as nat)) % pow2(wl),
{
    vstd::bits::lemma_u128_shr_is_div(d, k);
    let s = ((d >> k) % 0x1_0000_0000_0000_0000) as u64;
    vstd::bits::lemma_u64_low_bits_mask_is_mod(s, wl);
    vstd::bits::lemma_u64_pow2_no_overflow(wl);
    assert((pow2(wl) - 1) as u64 == vstd::bits::low_bits_mask(wl) as u64);
    lemma2_to64_rest();
    lemma_pow2_pos(wl);
    let y = (d >> k) as int;
    vstd::arithmetic::power2::lemma_pow2_strictly_increases(wl, 64);
    lemma_pow2_adds(wl, (64 - wl) as nat);
    lemma_pow2_pos((64 - wl) as nat);
    vstd::arithmetic::div_mod::lemma_mod_mod(y, pow2(wl) as int, pow2((64 - wl) as nat) as int);
}

/// The trailing zeros of a non-zero word.
proof fn lemma_word_trailing_zeros(w: Word)
    requires
        w != 0,
    ensures
        vstd::std_specs::bits::u64_trailing_zeros(w) < 64,
        is_trailing_zeros(w as nat, vstd::std_specs::bits::u64_trailing_zeros(w) as nat),
{
    let t = vstd::std_specs::bits::u64_trailing_zeros(w);
    vstd::std_specs::bits::axiom_u64_trailing_zeros(w);
    let tt = t as u64;
    vstd::bits::lemma_u64_shr_is_div(w, tt);
    assert((w >> tt) & 1u64 == 1u64 ==> (w >> tt) % 2 == 1) by (bit_vector);
    assert(w << ((64 - tt) as u64) == 0 && tt < 64 ==> ((w >> tt) << tt) == w) by (bit_vector);
    vstd::bits::lemma_u64_pow2_no_overflow(t as nat);
    let q = w >> tt;
    lemma_pow2_pos(t as nat);
    vstd::arithmetic::div_mod::lemma_fundamental_div_mod(w as int, pow2(t as nat) as int);
    assert(q * pow2(t as nat) <= w) by (nonlinear_arith)
        requires
            w == pow2(t as nat) * q + (w as int) % (pow2(t as nat) as int),
            (w as int) % (pow2(t as nat) as int) >= 0,
    ;
    vstd::bits::lemma_u64_shl_is_mul(q, tt);
    assert(w == q * pow2(t as nat));
    vstd::arithmetic::div_mod::lemma_mod_multiples_basic(q as int, pow2(t as nat) as int);
}

/// Is the number two?
fn exp_is_two(exp: &UBig) -> (r: bool)
    ensures
        r == (exp@ == 2),
{
    let words = exp.as_words();
    proof {
        if words@.len() == 1 {
            assert(words@ =~= seq![words@[0]]);
            crate::value::lemma_to_nat_single(words@[0]);
        }
        if words@.len() >= 2 {
            crate::value::lemma_to_nat_normalized_lower(words@);
            crate::value::lemma_pow_base_mono(1, (words@.len() - 1) as nat);
            crate::value::lemma_pow_base_step(0);
        }
    }
    words.len() == 1 && words[0] == 2
}

/// A power of a power: `(x^a mod m)^b == x^(a b) (mod m)`.
pub proof fn lemma_mpow_pow(x: nat, a: nat, b: nat, m: nat)
    requires
        m >= 1,
    ensures
        mpow(mpow(x, a, m), b, m) == mpow(x, a * b, m),
{
    vstd::arithmetic::power::lemma_pow_mod_noop(pow(x as int, a), b, m as int);
    vstd::arithmetic::power::lemma_pow_multiplies(x as int, a, b);
    crate::pow::lemma_pow_nonneg(x as int, a);
    lemma_mod_bound(pow(x as int, a), m as int);
}

} // verus!
