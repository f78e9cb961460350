//! Bit shift functions on word sequences.

use crate::primitive::{double_word, extend_word, split_double_word, word_base, Word, WORD_BITS};
use crate::value::{
    idx, lemma_pow_base_step, lemma_to_nat_skip_next, lemma_to_nat_take_next, pow_base, to_nat,
};
use vstd::arithmetic::div_mod::{
    lemma_fundamental_div_mod, lemma_fundamental_div_mod_converse, lemma_mod_multiples_basic,
    lemma_small_mod,
};
use vstd::arithmetic::power2::{lemma2_to64_rest, lemma_pow2_adds, lemma_pow2_pos, pow2};
use vstd::bits::{lemma_u128_shr_is_div, lemma_u64_low_bits_mask_is_mod, lemma_u64_shl_is_mul};
use vstd::bits::low_bits_mask;
use vstd::prelude::*;

verus! {

/// `pow2(s) * pow2(64 - s) == B`.
pub proof fn lemma_pow2_split_base(s: nat)
    requires
        s <= 64,
    ensures
        pow2(s) * pow2((64 - s) as nat) == word_base(),
        pow2(s) > 0,
        pow2((64 - s) as nat) > 0,
{
    lemma_pow2_adds(s, (64 - s) as nat);
    lemma2_to64_rest();
    lemma_pow2_pos(s);
    lemma_pow2_pos((64 - s) as nat);
}

/// Two words with disjoint bits: `a` is a multiple of `2^s`, `c` is below `2^s`.
pub proof fn lemma_or_is_add(a: Word, c: Word, s: nat)
    requires
        s < 64,
        (a as int) % (pow2(s) as int) == 0,
        c < pow2(s),
    ensures
        a | c == a + c,
{
    lemma_u64_low_bits_mask_is_mod(a, s);
    lemma_u64_low_bits_mask_is_mod(c, s);
    vstd::bits::lemma_u64_pow2_no_overflow(s);
    lemma_small_mod(c as nat, pow2(s));
    let m = low_bits_mask(s) as Word;
    assert(a & m == 0);
    assert(c & m == c);
    assert(a | c == a + c) by (bit_vector)
        requires
            a & m == 0,
            c & m == c,
    ;
}

proof fn lemma_shl_word(w: Word, s: nat, lo: Word, hi: Word, c: Word)
    requires
        0 < s < 64,
        lo + hi * word_base() == w * pow2(s),
        c < pow2(s),
    ensures
        hi < pow2(s),
        (lo as int) % (pow2(s) as int) == 0,
        lo + c < word_base(),
{
    let p = pow2(s) as int;
    let q = pow2((64 - s) as nat) as int;
    lemma_pow2_split_base(s);
    assert(p * q == word_base());
    // hi < p because w * p < B * p
    assert(w * p < word_base() * p) by (nonlinear_arith)
        requires
            w < word_base(),
            p > 0,
    ;
    assert(hi < p) by (nonlinear_arith)
        requires
            lo + hi * word_base() == w * p,
            w * p < word_base() * p,
            lo >= 0,
            word_base() > 0,
    ;
    // lo = p * (w - hi * q)
    let k = w - hi * q;
    assert(lo == k * p) by (nonlinear_arith)
        requires
            lo + hi * word_base() == w * p,
            p * q == word_base(),
            k == w - hi * q,
    ;
    lemma_mod_multiples_basic(k, p);
    assert(k < q) by (nonlinear_arith)
        requires
            lo == k * p,
            lo < word_base(),
            p * q == word_base(),
            p > 0,
    ;
    assert(lo + p <= word_base()) by (nonlinear_arith)
        requires
            lo == k * p,
            k < q,
            p * q == word_base(),
            p > 0,
    ;
}

/// Shift left by less than WORD_BITS in place.
/// Returns carry.
pub fn shl_in_place(words: &mut [Word], shift: u32) -> (carry: Word)
    requires
        shift < WORD_BITS,
    ensures
        final(words)@.len() == old(words)@.len(),
        to_nat(final(words)@) + carry * pow_base(old(words)@.len()) == to_nat(old(words)@)
            * pow2(shift as nat),
        carry < pow2(shift as nat),
{
    let ghost w0 = words@;
    let ghost p = pow2(shift as nat);
    if shift == 0 {
        proof {
            vstd::arithmetic::power2::lemma2_to64();
            assert(to_nat(w0) * 1 == to_nat(w0));
            assert(0 * pow_base(w0.len()) == 0);
        }
        return 0;
    }
    let n = words.len();
    let mut carry: Word = 0;
    let mut i: usize = 0;
    proof {
        assert(words@.take(0) =~= Seq::<Word>::empty());
        assert(w0.take(0) =~= Seq::<Word>::empty());
        assert(pow_base(0) == 1);
        assert(to_nat(words@.take(0)) == 0);
        assert(0 * p == 0);
        lemma_pow2_pos(shift as nat);
    }
    while i < n
        invariant
            0 <= i <= n,
            0 < shift < 64,
            p == pow2(shift as nat),
            n == words@.len(),
            n == w0.len(),
            forall|j: int| idx(i) <= j < idx(n) ==> words@[j] == w0[j],
            to_nat(words@.take(idx(i))) + carry * pow_base(i as nat) == to_nat(w0.take(idx(i)))
                * p,
            carry < p,
        decreases n - i,
    {
        let w = words[i];
        proof {
            lemma_pow2_split_base(shift as nat);
            assert(p <= word_base()) by (nonlinear_arith)
                requires
                    p * pow2((64 - shift) as nat) == word_base(),
                    pow2((64 - shift) as nat) > 0,
                    p > 0,
            ;
            vstd::arithmetic::power2::lemma_pow2_strictly_increases(shift as nat, 64);
            lemma2_to64_rest();
            assert(w * p < word_base() * word_base()) by (nonlinear_arith)
                requires
                    w < word_base(),
                    p <= word_base(),
            ;
            lemma_u64_shl_is_mul(1, shift as u64);
            vstd::bits::lemma_u64_pow2_no_overflow(shift as nat);
        }
        let v = extend_word(w) * extend_word(1 << shift);
        let (lo, hi) = split_double_word(v);
        proof {
            lemma_shl_word(w, shift as nat, lo, hi, carry);
            lemma_or_is_add(lo, carry, shift as nat);
        }
        let new_word = lo | carry;
        proof {
            lemma_to_nat_take_next(w0, idx(i));
            let before = words@;
            let after = before.update(idx(i), new_word);
            assert(after.take(idx(i)) =~= before.take(idx(i)));
            lemma_to_nat_take_next(after, idx(i));
            lemma_pow_base_step(i as nat);
            let pi = pow_base(i as nat) as int;
            let t = to_nat(w0.take(idx(i))) as int;
            assert((t + w * pi) * p == t * p + (w * p) * pi) by (nonlinear_arith);
            assert((lo + carry) * pi + hi * (word_base() * pi) == (lo + hi * word_base()) * pi
                + carry * pi) by (nonlinear_arith);
        }
        words[i] = new_word;
        carry = hi;
        i += 1;
    }
    proof {
        assert(words@.take(idx(n)) =~= words@);
        assert(w0.take(idx(n)) =~= w0);
    }
    carry
}

proof fn lemma_shr_word(w: Word, s: nat, lo: Word, hi: Word, c: Word)
    requires
        0 < s < 64,
        lo + hi * word_base() == w * pow2((64 - s) as nat),
        (c as int) % (pow2((64 - s) as nat) as int) == 0,
        c < word_base(),
    ensures
        hi == (w as int) / (pow2(s) as int),
        lo == ((w as int) % (pow2(s) as int)) * pow2((64 - s) as nat),
        (lo as int) % (pow2((64 - s) as nat) as int) == 0,
        hi < pow2((64 - s) as nat),
        hi + c < word_base(),
{
    let p = pow2(s) as int;
    let q = pow2((64 - s) as nat) as int;
    lemma_pow2_split_base(s);
    lemma_fundamental_div_mod(w as int, p);
    let wq = (w as int) / p;
    let wr = (w as int) % p;
    assert(w * q == wr * q + wq * word_base()) by (nonlinear_arith)
        requires
            w == p * wq + wr,
            p * q == word_base(),
    ;
    assert(wr * q < word_base()) by (nonlinear_arith)
        requires
            0 <= wr < p,
            p * q == word_base(),
            q > 0,
    ;
    assert(wr * q >= 0) by (nonlinear_arith)
        requires
            0 <= wr,
            q > 0,
    ;
    lemma_fundamental_div_mod_converse(w * q, word_base() as int, wq, wr * q);
    lemma_fundamental_div_mod_converse(w * q, word_base() as int, hi as int, lo as int);
    lemma_mod_multiples_basic(wr, q);
    assert(wq < q) by (nonlinear_arith)
        requires
            w == p * wq + wr,
            0 <= wr,
            w < word_base(),
            p * q == word_base(),
            p > 0,
    ;
    // c is a multiple of q below B, so c <= B - q
    lemma_fundamental_div_mod(c as int, q);
    let cq = (c as int) / q;
    assert(cq < p) by (nonlinear_arith)
        requires
            c == q * cq,
            c < word_base(),
            p * q == word_base(),
            q > 0,
    ;
    assert(c + q <= word_base()) by (nonlinear_arith)
        requires
            c == q * cq,
            cq < p,
            p * q == word_base(),
    ;
}

/// Shift right by less than WORD_BITS in place.
/// An optional carry could be provided from a higher word: it holds the bits to put on top,
/// in its highest `shift` bits.
/// Returns shifted bits.
pub fn shr_in_place_with_carry(words: &mut [Word], shift: u32, carry: Word) -> (r: Word)
    requires
        shift < WORD_BITS,
        shift == 0 ==> carry == 0,
        shift > 0 ==> (carry as int) % (pow2((64 - shift) as nat) as int) == 0,
    ensures
        final(words)@.len() == old(words)@.len(),
        shift == 0 ==> final(words)@ == old(words)@ && r == 0,
        shift > 0 ==> to_nat(final(words)@) * pow2(shift as nat) + r == to_nat(old(words)@) + (
        (carry as int) / (pow2((64 - shift) as nat) as int)) * pow_base(old(words)@.len()),
        r < pow2(shift as nat),
{
    let ghost w0 = words@;
    if shift == 0 {
        proof {
            vstd::arithmetic::power2::lemma2_to64();
        }
        return 0;
    }
    let ghost p = pow2(shift as nat) as int;
    let ghost q = pow2((64 - shift) as nat) as int;
    let ghost cin = carry as int / q;
    let n = words.len();
    let mut carry = carry;
    let mut i: usize = n;
    proof {
        lemma_pow2_split_base(shift as nat);
        assert(words@.skip(idx(n)) =~= Seq::<Word>::empty());
        assert(w0.skip(idx(n)) =~= Seq::<Word>::empty());
        assert(to_nat(words@.skip(idx(n))) == 0);
        assert(to_nat(w0.skip(idx(n))) == 0);
        lemma_fundamental_div_mod(carry as int, q);
        assert(pow_base(0) == 1);
        assert((n - n) as nat == 0);
    }
    while i > 0
        invariant
            i <= n,
            0 < shift < 64,
            p == pow2(shift as nat),
            q == pow2((64 - shift) as nat),
            p * q == word_base(),
            p > 0,
            q > 0,
            n == words@.len(),
            n == w0.len(),
            forall|j: int| 0 <= j < idx(i) ==> words@[j] == w0[j],
            (carry as int) % q == 0,
            carry < word_base(),
            to_nat(words@.skip(idx(i))) * p + (carry as int) / q == to_nat(w0.skip(idx(i))) + cin
                * pow_base((n - i) as nat),
        decreases i,
    {
        i -= 1;
        let w = words[i];
        let dw = double_word(0, w);
        proof {
            lemma_u128_shr_is_div(dw, shift as u128);
            assert(w as int * word_base() == (w as int * q) * p) by (nonlinear_arith)
                requires
                    p * q == word_base(),
            ;
            vstd::arithmetic::div_mod::lemma_div_multiples_vanish((w as int * q), p);
            assert((w as int * q) * p == p * (w as int * q)) by (nonlinear_arith);
        }
        let v = dw >> shift;
        let (lo, hi) = split_double_word(v);
        proof {
            lemma_shr_word(w, shift as nat, lo, hi, carry);
            lemma_fundamental_div_mod(carry as int, q);
            lemma_mod_multiples_basic(carry as int / q, q);
            assert(carry as int == (carry as int / q) * q) by (nonlinear_arith)
                requires
                    carry as int == q * (carry as int / q),
            ;
            lemma_or_is_add(carry, hi, (64 - shift) as nat);
            assert(hi | carry == carry | hi) by (bit_vector);
        }
        let new_word = hi | carry;
        proof {
            let before = words@;
            let after = before.update(idx(i), new_word);
            assert(after.skip(idx(i) + 1) =~= before.skip(idx(i) + 1));
            lemma_to_nat_skip_next(after, idx(i));
            lemma_to_nat_skip_next(w0, idx(i));
            assert(w0[idx(i)] == w);
            assert((n - i) as nat == (n - (i + 1)) as nat + 1);
            lemma_pow_base_step((n - (i + 1)) as nat);
            let ni = to_nat(before.skip(idx(i) + 1)) as int;
            let ti = to_nat(w0.skip(idx(i) + 1)) as int;
            let pk = pow_base((n - (i + 1)) as nat) as int;
            let cq = carry as int / q;
            let wr = w as int % p;
            lemma_fundamental_div_mod(w as int, p);
            // new top value times p plus remainder
            assert((hi + carry + word_base() * ni) * p + wr == (w as int) + word_base() * (ni * p
                + cq)) by (nonlinear_arith)
                requires
                    hi == w as int / p,
                    wr == w as int % p,
                    w as int == p * (w as int / p) + wr,
                    carry as int == cq * q,
                    p * q == word_base(),
            ;
            assert(word_base() * (ni * p + cq) == word_base() * (ti + cin * pk)) by (
            nonlinear_arith)
                requires
                    ni * p + cq == ti + cin * pk,
            ;
            assert(word_base() * (ti + cin * pk) == word_base() * ti + cin * (word_base() * pk))
                by (nonlinear_arith);
            lemma_fundamental_div_mod(lo as int, q);
            vstd::arithmetic::div_mod::lemma_div_multiples_vanish(wr, q);
            assert(lo as int / q == wr) by (nonlinear_arith)
                requires
                    lo as int == wr * q,
                    (q * wr) / q == wr,
            ;
            vstd::arithmetic::div_mod::lemma_mod_bound(w as int, p);
            lemma_mod_multiples_basic(wr, q);
            assert(lo < word_base());
        }
        words[i] = new_word;
        carry = lo;
    }
    proof {
        assert(words@.skip(0) =~= words@);
        assert(w0.skip(0) =~= w0);
        lemma_fundamental_div_mod(carry as int, q);
        vstd::arithmetic::div_mod::lemma_div_is_ordered(carry as int, (word_base() - 1) as int, q);
        assert(carry as int / q < p) by (nonlinear_arith)
            requires
                carry as int == q * (carry as int / q) + carry as int % q,
                carry as int % q == 0,
                carry < word_base(),
                p * q == word_base(),
                q > 0,
        ;
        vstd::bits::lemma_u64_shr_is_div(carry, (64 - shift) as u64);
    }
    carry >> (WORD_BITS - shift)
}

/// Shift right by less than WORD_BITS in place.
/// Returns shifted bits.
pub fn shr_in_place(words: &mut [Word], shift: u32) -> (r: Word)
    requires
        shift < WORD_BITS,
    ensures
        final(words)@.len() == old(words)@.len(),
        to_nat(final(words)@) * pow2(shift as nat) + r == to_nat(old(words)@),
        r < pow2(shift as nat),
        r == to_nat(old(words)@) % pow2(shift as nat),
        to_nat(final(words)@) == to_nat(old(words)@) / pow2(shift as nat),
{
    proof {
        if shift > 0 {
            lemma_pow2_pos((64 - shift) as nat);
            lemma_small_mod(0, pow2((64 - shift) as nat));
        }
    }
    let r = shr_in_place_with_carry(words, shift, 0);
    proof {
        lemma_pow2_pos(shift as nat);
        if shift == 0 {
            vstd::arithmetic::power2::lemma2_to64();
        } else {
            assert(0int / (pow2((64 - shift) as nat) as int) == 0);
            assert(0 * pow_base(old(words)@.len()) == 0);
        }
        lemma_fundamental_div_mod_converse(
            to_nat(old(words)@) as int,
            pow2(shift as nat) as int,
            to_nat(words@) as int,
            r as int,
        );
        vstd::arithmetic::mul::lemma_mul_is_commutative(
            to_nat(words@) as int,
            pow2(shift as nat) as int,
        );
    }
    r
}

} // verus!
