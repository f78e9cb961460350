//! Bit operations on big integers.

use crate::buffer::{Buffer, MAX_LEN};
use crate::ibig::{abs, IBig};
use crate::primitive::{word_base, Word, WORD_BITS, WORD_BITS_USIZE};
use crate::shift_ops::{lemma_pow2_split, lemma_pow_base_pow2};
use crate::ubig::{fits, UBig};
use crate::value::{
    is_normalized, lemma_pow_base_mono, lemma_pow_base_pos, lemma_to_nat_bound,
    lemma_to_nat_push, lemma_to_nat_single, lemma_to_nat_skip_next, lemma_to_nat_split,
    lemma_to_nat_update, pow_base, to_nat, zeros,
};
use vstd::arithmetic::power2::{lemma_pow2_adds, lemma_pow2_pos, pow2};
use vstd::prelude::*;

verus! {

/// Bit `n` of `x`.
pub open spec fn spec_bit(x: nat, n: nat) -> bool {
    (x / pow2(n)) % 2 == 1
}

/// `x` with bit `n` set.
pub open spec fn with_bit(x: nat, n: nat) -> nat {
    if spec_bit(x, n) {
        x
    } else {
        x + pow2(n)
    }
}

/// `x` with bit `n` cleared.
pub open spec fn without_bit(x: nat, n: nat) -> nat {
    if spec_bit(x, n) {
        (x - pow2(n)) as nat
    } else {
        x
    }
}

/// `k` is the number of trailing zeros of `x`: `2^k` divides `x` and `x / 2^k` is odd.
pub open spec fn is_trailing_zeros(x: nat, k: nat) -> bool {
    x % pow2(k) == 0 && (x / pow2(k)) % 2 == 1
}

/// `k` is the floor of the logarithm base 2 of `x`.
pub open spec fn is_ilog2(x: nat, k: nat) -> bool {
    pow2(k) <= x < pow2(k + 1)
}

/// Bit `s` of a word, with masks.
pub proof fn lemma_word_bit(w: Word, s: u64)
    requires
        s < 64,
    ensures
        (1u64 << s) == pow2(s as nat),
        ((w & (1u64 << s)) != 0) == spec_bit(w as nat, s as nat),
        !spec_bit(w as nat, s as nat) ==> (w | (1u64 << s)) == w + pow2(s as nat),
        spec_bit(w as nat, s as nat) ==> (w | (1u64 << s)) == w,
        spec_bit(w as nat, s as nat) ==> (w & !(1u64 << s)) == w - pow2(s as nat),
        !spec_bit(w as nat, s as nat) ==> (w & !(1u64 << s)) == w,
{
    vstd::bits::lemma_u64_pow2_no_overflow(s as nat);
    vstd::bits::lemma_u64_shl_is_mul(1, s);
    vstd::bits::lemma_u64_shr_is_div(w, s);
    assert(((w & (1u64 << s)) != 0) == ((w >> s) % 2 == 1)) by (bit_vector)
        requires
            s < 64,
    ;
    assert((w & (1u64 << s)) == 0 ==> (w | (1u64 << s)) == w + (1u64 << s)) by (bit_vector)
        requires
            s < 64,
    ;
    assert((w & (1u64 << s)) != 0 ==> (w | (1u64 << s)) == w) by (bit_vector)
        requires
            s < 64,
    ;
    assert((w & (1u64 << s)) != 0 ==> (w & !(1u64 << s)) == w - (1u64 << s)) by (bit_vector)
        requires
            s < 64,
    ;
    assert((w & (1u64 << s)) == 0 ==> (w & !(1u64 << s)) == w) by (bit_vector)
        requires
            s < 64,
    ;
}

/// `(a + 2 * m) % 2 == a % 2`.
proof fn lemma_mod2_even(a: int, m: int)
    requires
        a >= 0,
        m >= 0,
    ensures
        (a + 2 * m) % 2 == a % 2,
{
    vstd::arithmetic::div_mod::lemma_mod_multiples_vanish(m, a, 2);
    assert(2 * m + a == a + 2 * m);
}

/// Division of `w + B * h` by `2^s`, for `s < 64`.
pub proof fn lemma_div_word_plus_high(w: Word, h: nat, s: nat)
    requires
        s < 64,
    ensures
        ((w + word_base() * h) as nat) / pow2(s) == w as nat / pow2(s) + pow2((64 - s) as nat) * h,
        spec_bit((w + word_base() * h) as nat, s) == spec_bit(w as nat, s),
{
    crate::shift::lemma_pow2_split_base(s);
    let p = pow2(s) as int;
    let q = pow2((64 - s) as nat) as int;
    vstd::arithmetic::div_mod::lemma_fundamental_div_mod(w as int, p);
    let wq = w as int / p;
    let wr = w as int % p;
    assert(w + word_base() * h == p * (wq + q * h) + wr) by (nonlinear_arith)
        requires
            w == p * wq + wr,
            word_base() == p * q,
    ;
    vstd::arithmetic::div_mod::lemma_div_multiples_vanish_fancy(wq + q * h, wr, p);
    vstd::arithmetic::div_mod::lemma_div_pos_is_pos(w as int, p);
    vstd::arithmetic::power2::lemma_pow2_unfold((64 - s) as nat);
    let q2 = pow2((64 - s - 1) as nat) as int;
    lemma_pow2_pos((64 - s - 1) as nat);
    assert(q * h == 2 * (q2 * h)) by (nonlinear_arith)
        requires
            q == 2 * q2,
    ;
    assert(q2 * h >= 0) by (nonlinear_arith)
        requires
            q2 > 0,
    ;
    lemma_mod2_even(wq, q2 * h);
}

/// Bit `n` of a number is bit `n % 64` of its word `n / 64`.
pub proof fn lemma_bit_of_words(s: Seq<Word>, n: nat)
    requires
        n / 64 < s.len(),
    ensures
        spec_bit(to_nat(s), n) == spec_bit(s[(n / 64) as int] as nat, n % 64),
        to_nat(s) / pow2(n) == (to_nat(s.skip((n / 64) as int)) as int) / (pow2(n % 64) as int),
{
    let i = (n / 64) as int;
    let b = n % 64;
    lemma_to_nat_split(s, i);
    lemma_to_nat_bound(s.take(i));
    lemma_to_nat_skip_next(s, i);
    lemma_pow2_split(n);
    lemma_pow_base_pos(i as nat);
    lemma_pow2_pos(b);
    let pw = pow_base(i as nat) as int;
    let lo = to_nat(s.take(i)) as int;
    let top = to_nat(s.skip(i)) as int;
    vstd::arithmetic::div_mod::lemma_div_multiples_vanish_fancy(top, lo, pw);
    assert(pw * top + lo == lo + pw * top);
    vstd::arithmetic::div_mod::lemma_div_denominator(to_nat(s) as int, pw, pow2(b) as int);
    lemma_div_word_plus_high(s[i], to_nat(s.skip(i + 1)), b);
}

/// Bits at positions beyond the words of a number are zero.
proof fn lemma_bit_beyond(s: Seq<Word>, n: nat)
    requires
        n / 64 >= s.len(),
    ensures
        !spec_bit(to_nat(s), n),
        to_nat(s) < pow2(n),
{
    lemma_to_nat_bound(s);
    lemma_pow_base_mono(s.len(), n / 64);
    lemma_pow2_split(n);
    lemma_pow_base_pos(n / 64);
    let pw = pow_base(n / 64) as int;
    let pb = pow2(n % 64) as int;
    assert(pw <= pw * pb) by (nonlinear_arith)
        requires
            pw > 0,
            pb > 0,
    ;
    vstd::arithmetic::div_mod::lemma_basic_div(to_nat(s) as int, pow2(n) as int);
}

impl UBig {
    /// Returns true if the `n`-th bit is set.
    pub fn bit(&self, n: usize) -> (r: bool)
        ensures
            r == spec_bit(self@, n as nat),
    {
        let words = self.as_words();
        let idx = n / WORD_BITS_USIZE;
        if idx < words.len() {
            let shift = (n % WORD_BITS_USIZE) as u64;
            proof {
                lemma_bit_of_words(words@, n as nat);
                lemma_word_bit(words@[idx as int], shift);
            }
            words[idx] & (1u64 << shift) != 0
        } else {
            proof {
                lemma_bit_beyond(words@, n as nat);
            }
            false
        }
    }

    /// Set the `n`-th bit.
    pub fn set_bit(&mut self, n: usize)
        requires
            fits(with_bit(old(self)@, n as nat)),
        ensures
            final(self)@ == with_bit(old(self)@, n as nat),
    {
        let mut value = UBig::from_word(0);
        std::mem::swap(self, &mut value);
        let len = value.len();
        let buffer = value.into_buffer();
        if len <= 1 && n >= WORD_BITS_USIZE {
            let word = if len == 0 {
                0
            } else {
                buffer.as_slice()[0]
            };
            proof {
                if len == 1 {
                    assert(buffer@ =~= seq![word]);
                    lemma_to_nat_single(word);
                }
            }
            *self = UBig::with_bit_word_slow(word, n);
        } else {
            *self = UBig::with_bit_large(buffer, n);
        }
    }

    /// A word with bit `n` set, where `n` is beyond the word.
    pub fn with_bit_word_slow(word: Word, n: usize) -> (r: UBig)
        requires
            n >= 64,
            fits(with_bit(word as nat, n as nat)),
        ensures
            r@ == with_bit(word as nat, n as nat),
    {
        let idx = n / WORD_BITS_USIZE;
        let shift = (n % WORD_BITS_USIZE) as u64;
        proof {
            lemma_bit_beyond(seq![word], n as nat);
            lemma_to_nat_single(word);
            lemma_with_bit_len(seq![word], n as nat);
        }
        let mut buffer = Buffer::allocate(idx + 1);
        buffer.push(word);
        let mut i: usize = 1;
        while i < idx
            invariant
                1 <= i <= idx,
                idx + 1 <= crate::buffer::MAX_CAPACITY,
                buffer.wf(),
                buffer.cap() >= idx + 1,
                buffer@ == seq![word] + zeros((i - 1) as nat),
            decreases idx - i,
        {
            buffer.push(0);
            proof {
                assert(seq![word] + zeros(i as nat) =~= (seq![word] + zeros((i - 1) as nat)).push(0));
            }
            i += 1;
        }
        let mask = 1u64 << shift;
        let ghost b1 = buffer@;
        buffer.push(mask);
        proof {
            lemma_word_bit(0, shift);
            crate::value::lemma_to_nat_append_zeros(seq![word], (idx - 1) as nat);
            lemma_to_nat_push(b1, mask);
            lemma_pow2_split(n as nat);
            assert(pow_base(idx as nat) * mask == mask * pow_base(idx as nat)) by (nonlinear_arith);
        }
        UBig::from_buffer(buffer)
    }

    /// A large number with bit `n` set.
    pub fn with_bit_large(buffer: Buffer, n: usize) -> (r: UBig)
        requires
            buffer.wf(),
            fits(with_bit(to_nat(buffer@), n as nat)),
            buffer@.len() <= MAX_LEN,
        ensures
            r@ == with_bit(to_nat(buffer@), n as nat),
    {
        let mut buffer = buffer;
        let ghost b0 = buffer@;
        let idx = n / WORD_BITS_USIZE;
        let shift = (n % WORD_BITS_USIZE) as u64;
        proof {
            lemma_pow2_split(n as nat);
        }
        if idx < buffer.len() {
            let w = buffer.as_slice()[idx];
            proof {
                lemma_bit_of_words(b0, n as nat);
                lemma_word_bit(w, shift);
                lemma_to_nat_update(b0, idx as int, w | (1u64 << shift));
                assert(pow_base(idx as nat) * pow2(shift as nat) == pow2(n as nat));
            }
            let words = buffer.as_mut_slice();
            words[idx] = w | (1u64 << shift);
            proof {
                let pw = pow_base(idx as nat) as int;
                if !spec_bit(to_nat(b0), n as nat) {
                    assert(((w | (1u64 << shift)) as int) * pw == (w as int) * pw + pow2(
                        shift as nat,
                    ) * pw) by (nonlinear_arith)
                        requires
                            (w | (1u64 << shift)) as int == w + pow2(shift as nat),
                    ;
                    assert(pow2(shift as nat) * pw == pw * pow2(shift as nat)) by (
                    nonlinear_arith);
                }
            }
        } else {
            proof {
                lemma_bit_beyond(b0, n as nat);
                lemma_with_bit_len(b0, n as nat);
            }
            buffer.ensure_capacity(idx + 1);
            let len = buffer.len();
            let mut i = len;
            while i < idx
                invariant
                    len <= i <= idx,
                    len == b0.len(),
                    idx + 1 <= crate::buffer::MAX_CAPACITY,
                    buffer.wf(),
                    buffer.cap() >= idx + 1,
                    buffer@ == b0 + zeros((i - len) as nat),
                decreases idx - i,
            {
                buffer.push(0);
                proof {
                    assert(b0 + zeros((i + 1 - len) as nat) =~= (b0 + zeros((i - len) as nat)).push(
                        0,
                    ));
                }
                i += 1;
            }
            let mask = 1u64 << shift;
            let ghost b1 = buffer@;
            buffer.push(mask);
            proof {
                lemma_word_bit(0, shift);
                crate::value::lemma_to_nat_append_zeros(b0, (idx - len) as nat);
                lemma_to_nat_push(b1, mask);
                assert(pow_base(idx as nat) * mask == mask * pow_base(idx as nat)) by (
                nonlinear_arith);
            }
        }
        UBig::from_buffer(buffer)
    }

    /// Clear the `n`-th bit.
    pub fn clear_bit(&mut self, n: usize)
        ensures
            final(self)@ == without_bit(old(self)@, n as nat),
    {
        let mut value = UBig::from_word(0);
        std::mem::swap(self, &mut value);
        let buffer = value.into_buffer();
        *self = UBig::without_bit_large(buffer, n);
    }

    /// A large number with bit `n` cleared.
    pub fn without_bit_large(buffer: Buffer, n: usize) -> (r: UBig)
        requires
            buffer.wf(),
            buffer@.len() <= MAX_LEN,
        ensures
            r@ == without_bit(to_nat(buffer@), n as nat),
    {
        let mut buffer = buffer;
        let ghost b0 = buffer@;
        let idx = n / WORD_BITS_USIZE;
        let shift = (n % WORD_BITS_USIZE) as u64;
        proof {
            lemma_pow2_split(n as nat);
        }
        if idx < buffer.len() {
            let w = buffer.as_slice()[idx];
            proof {
                lemma_bit_of_words(b0, n as nat);
                lemma_word_bit(w, shift);
                lemma_to_nat_update(b0, idx as int, w & !(1u64 << shift));
                assert(pow_base(idx as nat) * pow2(shift as nat) == pow2(n as nat));
            }
            let words = buffer.as_mut_slice();
            words[idx] = w & !(1u64 << shift);
            proof {
                let pw = pow_base(idx as nat) as int;
                if spec_bit(to_nat(b0), n as nat) {
                    assert((w as int) * pw == ((w & !(1u64 << shift)) as int) * pw + pow2(
                        shift as nat,
                    ) * pw) by (nonlinear_arith)
                        requires
                            (w & !(1u64 << shift)) as int == w - pow2(shift as nat),
                    ;
                    assert(pow2(shift as nat) * pw == pw * pow2(shift as nat)) by (
                    nonlinear_arith);
                }
            }
        } else {
            proof {
                lemma_bit_beyond(b0, n as nat);
            }
        }
        proof {
            UBig::lemma_words_fit(buffer@);
        }
        UBig::from_buffer(buffer)
    }

    /// Returns the number of trailing zeros in the binary representation.
    ///
    /// In other words, it is the smallest `n` such that 2 to the power of `n` divides the number.
    ///
    /// For 0, it returns `None`.
    pub fn trailing_zeros(&self) -> (r: Option<usize>)
        ensures
            r is None <==> self@ == 0,
            r matches Some(k) ==> is_trailing_zeros(self@, k as nat),
    {
        let words = self.as_words();
        proof {
            lemma_nonzero_words(words@);
        }
        if words.len() == 0 {
            None
        } else {
            Some(trailing_zeros_large(words))
        }
    }

    /// Integer logarithm base 2.
    ///
    /// Returns the floor of the logarithm base 2 of the number.
    /// In other words, it is the position of the highest 1 bit in the binary representation.
    ///
    /// For 0, it returns `None`.
    pub fn ilog2(&self) -> (r: Option<usize>)
        ensures
            r is None <==> self@ == 0,
            r matches Some(k) ==> is_ilog2(self@, k as nat),
    {
        let words = self.as_words();
        let n = words.len();
        proof {
            lemma_nonzero_words(words@);
        }
        if n == 0 {
            None
        } else {
            let top = words[n - 1];
            let bl = crate::math::bit_len(top);
            proof {
                lemma_ilog2_words(words@, bl as nat);
            }
            Some(n * WORD_BITS_USIZE - 1 - (WORD_BITS - bl) as usize)
        }
    }
}

/// A normalized sequence is zero exactly when it is empty.
proof fn lemma_nonzero_words(s: Seq<Word>)
    requires
        is_normalized(s),
    ensures
        (to_nat(s) == 0) == (s.len() == 0),
{
    if s.len() > 0 {
        crate::value::lemma_to_nat_normalized_lower(s);
        lemma_pow_base_pos((s.len() - 1) as nat);
    }
}

/// The length needed to set bit `n` fits.
proof fn lemma_with_bit_len(s: Seq<Word>, n: nat)
    requires
        n / 64 >= s.len(),
        fits(with_bit(to_nat(s), n)),
    ensures
        n / 64 + 1 <= MAX_LEN,
{
    lemma_bit_beyond(s, n);
    lemma_pow2_split(n);
    lemma_pow_base_pos(n / 64);
    let pw = pow_base(n / 64) as int;
    let pb = pow2(n % 64) as int;
    assert(pw <= pw * pb) by (nonlinear_arith)
        requires
            pw > 0,
            pb > 0,
    ;
    if n / 64 + 1 > MAX_LEN {
        lemma_pow_base_mono(MAX_LEN as nat, n / 64);
    }
}

/// `floor(log2(x))` from the bit length of the top word.
proof fn lemma_ilog2_words(s: Seq<Word>, bl: nat)
    requires
        is_normalized(s),
        s.len() > 0,
        s.len() <= MAX_LEN,
        bl == crate::math::spec_bit_len(s.last() as nat),
        bl <= 64,
    ensures
        bl >= 1,
        bl <= 64,
        is_ilog2(to_nat(s), (64 * (s.len() - 1) + bl - 1) as nat),
{
    let t = s.last() as nat;
    crate::math::lemma_bit_len_bounds(t);
    let m = (s.len() - 1) as nat;
    let pm = pow_base(m) as int;
    lemma_pow_base_pos(m);
    lemma_pow_base_pow2(m);
    lemma_to_nat_bound(s.drop_last());
    assert(to_nat(s) == to_nat(s.drop_last()) + t * pm);
    lemma_pow2_adds(64 * m, (bl - 1) as nat);
    lemma_pow2_adds(64 * m, bl);
    let lo = pow2((bl - 1) as nat) as int;
    let hi = pow2(bl) as int;
    assert(lo * pm <= t * pm) by (nonlinear_arith)
        requires
            lo <= t,
            pm > 0,
    ;
    assert(to_nat(s) < hi * pm) by (nonlinear_arith)
        requires
            to_nat(s) == to_nat(s.drop_last()) + t * pm,
            to_nat(s.drop_last()) < pm,
            t + 1 <= hi,
    ;
    assert(64 * m + (bl - 1) as nat == (64 * (s.len() - 1) + bl - 1) as nat);
    assert(64 * m + bl == (64 * (s.len() - 1) + bl - 1) as nat + 1);
    assert(lo * pm == pm * lo) by (nonlinear_arith);
    assert(hi * pm == pm * hi) by (nonlinear_arith);
}

/// The number of trailing zeros of a non-zero word sequence.
pub fn trailing_zeros_large(words: &[Word]) -> (r: usize)
    requires
        to_nat(words@) != 0,
        words@.len() <= MAX_LEN,
    ensures
        is_trailing_zeros(to_nat(words@), r as nat),
{
    let n = words.len();
    let mut idx: usize = 0;
    while idx < n
        invariant
            idx <= n,
            n == words@.len(),
            n <= MAX_LEN,
            to_nat(words@) != 0,
            forall|j: int| 0 <= j < idx ==> words@[j] == 0,
        decreases n - idx,
    {
        let w = words[idx];
        if w != 0 {
            let t = w.trailing_zeros();
            proof {
                lemma_trailing_zeros_words(words@, idx as nat, t as nat);
            }
            return idx * WORD_BITS_USIZE + t as usize;
        }
        idx += 1;
    }
    proof {
        crate::value::lemma_to_nat_zero_iff(words@);
    }
    0
}

/// Trailing zeros of a word sequence whose first non-zero word is at `i`.
pub proof fn lemma_trailing_zeros_words(s: Seq<Word>, i: nat, t: nat)
    requires
        i < s.len(),
        forall|j: int| 0 <= j < i ==> s[j] == 0,
        s[i as int] != 0,
        t == vstd::std_specs::bits::u64_trailing_zeros(s[i as int]),
    ensures
        t < 64,
        is_trailing_zeros(to_nat(s), 64 * i + t),
{
    let w = s[i as int];
    vstd::std_specs::bits::axiom_u64_trailing_zeros(w);
    let tt = t as u64;
    vstd::bits::lemma_u64_shr_is_div(w, tt);
    assert((w >> tt) & 1u64 == 1u64 ==> (w >> tt) % 2 == 1) by (bit_vector);
    assert(w << ((64 - tt) as u64) == 0 && tt < 64 ==> ((w >> tt) << tt) == w) by (bit_vector);
    vstd::bits::lemma_u64_pow2_no_overflow(t);
    let q = w >> tt;
    vstd::arithmetic::div_mod::lemma_div_pos_is_pos(w as int, pow2(t) as int);
    assert(q * pow2(t) <= w) by {
        vstd::arithmetic::div_mod::lemma_fundamental_div_mod(w as int, pow2(t) as int);
        lemma_pow2_pos(t);
    }
    vstd::bits::lemma_u64_shl_is_mul(q, tt);
    // The value is 2^(64 i) * (w + B * rest).
    let n = 64 * i + t;
    assert(n / 64 == i && n % 64 == t);
    lemma_bit_of_words(s, n);
    lemma_to_nat_split(s, i as int);
    crate::value::lemma_to_nat_zero_iff(s.take(i as int));
    lemma_to_nat_skip_next(s, i as int);
    lemma_div_word_plus_high(w, to_nat(s.skip(i as int + 1)), t);
    lemma_pow2_split(n);
    lemma_pow2_pos(t);
    let pw = pow_base(i) as int;
    let pt = pow2(t) as int;
    let top = to_nat(s.skip(i as int)) as int;
    let rest = to_nat(s.skip(i as int + 1)) as int;
    let qt = pow2((64 - t) as nat) as int;
    crate::shift::lemma_pow2_split_base(t);
    assert(to_nat(s) == pw * top);
    assert(top == pt * (q + qt * rest)) by (nonlinear_arith)
        requires
            top == w + word_base() * rest,
            w == q * pt,
            word_base() == pt * qt,
    ;
    assert(to_nat(s) == (pw * pt) * (q + qt * rest)) by (nonlinear_arith)
        requires
            to_nat(s) == pw * top,
            top == pt * (q + qt * rest),
    ;
    vstd::arithmetic::div_mod::lemma_div_pos_is_pos(w as int, pt);
    assert(q + qt * rest >= 0) by (nonlinear_arith)
        requires
            q >= 0,
            qt > 0,
            rest >= 0,
    ;
    lemma_pow_base_pos(i);
    assert(pw * pt > 0) by (nonlinear_arith)
        requires
            pw > 0,
            pt > 0,
    ;
    vstd::arithmetic::div_mod::lemma_mod_multiples_basic(q + qt * rest, pw * pt);
    assert((q + qt * rest) * (pw * pt) == (pw * pt) * (q + qt * rest)) by (nonlinear_arith);
}

impl IBig {
    /// Returns the number of trailing zeros in the two's complement binary representation.
    ///
    /// In other words, it is the smallest `n` such that 2 to the power of `n` divides the number.
    ///
    /// For 0, it returns `None`.
    pub fn trailing_zeros(&self) -> (r: Option<usize>)
        ensures
            r is None <==> self@ == 0,
            r matches Some(k) ==> is_trailing_zeros(abs(self@), k as nat),
    {
        self.magnitude().trailing_zeros()
    }
}

} // verus!

verus! {

/// No bit of zero is set.
pub proof fn lemma_bit_zero_of_zero(n: nat)
    ensures
        !spec_bit(0, n),
        with_bit(0, n) == pow2(n),
{
    lemma_pow2_pos(n);
    vstd::arithmetic::div_mod::lemma_basic_div(0, pow2(n) as int);
}


/// Bit `m` of `a 2^(n+1) + b 2^n + c`, with `c < 2^n`, is `b` at `m == n`, and does not depend
/// on `b` elsewhere.
proof fn lemma_bit_of_parts(a: nat, c: nat, n: nat, m: nat)
    requires
        c < pow2(n),
    ensures
        !spec_bit(a * pow2(n + 1) + c, n),
        spec_bit(a * pow2(n + 1) + pow2(n) + c, n),
        m != n ==> spec_bit(a * pow2(n + 1) + c, m) == spec_bit(a * pow2(n + 1) + pow2(n) + c, m),
{
    let p = pow2(n);
    let q = pow2(n + 1);
    lemma_pow2_pos(n);
    vstd::arithmetic::power2::lemma_pow2_unfold(n + 1);
    assert(q == 2 * p);
    let y0 = a * q + c;
    let y1 = a * q + p + c;
    assert(y0 == (2 * a) * p + c && y1 == (2 * a + 1) * p + c) by (nonlinear_arith)
        requires
            q == 2 * p,
            y0 == a * q + c,
            y1 == a * q + p + c,
    ;
    vstd::arithmetic::div_mod::lemma_fundamental_div_mod_converse(y0 as int, p as int, (2 * a) as int, c as int);
    vstd::arithmetic::div_mod::lemma_fundamental_div_mod_converse(
        y1 as int,
        p as int,
        (2 * a + 1) as int,
        c as int,
    );
    vstd::arithmetic::div_mod::lemma_mod_multiples_vanish(a as int, 0, 2);
    vstd::arithmetic::div_mod::lemma_mod_multiples_vanish(a as int, 1, 2);
    assert((2 * a) % 2 == 0 && (2 * a + 1) % 2 == 1) by {
        vstd::arithmetic::div_mod::lemma_fundamental_div_mod_converse((2 * a) as int, 2, a as int, 0);
        vstd::arithmetic::div_mod::lemma_fundamental_div_mod_converse((2 * a + 1) as int, 2, a as int, 1);
    }
    if m < n {
        let r = pow2(m);
        let t = pow2((n - m) as nat);
        lemma_pow2_pos(m);
        lemma_pow2_adds(m, (n - m) as nat);
        vstd::arithmetic::power2::lemma_pow2_unfold((n - m) as nat);
        let h = pow2((n - m - 1) as nat);
        let k = c / r;
        let l = c % r;
        vstd::arithmetic::div_mod::lemma_fundamental_div_mod(c as int, r as int);
        vstd::arithmetic::div_mod::lemma_mod_bound(c as int, r as int);
        assert(y0 == (2 * a * t + k) * r + l && y1 == (2 * a * t + t + k) * r + l)
            by (nonlinear_arith)
            requires
                y0 == (2 * a) * p + c,
                y1 == (2 * a + 1) * p + c,
                p == r * t,
                c == r * k + l,
        ;
        vstd::arithmetic::div_mod::lemma_fundamental_div_mod_converse(
            y0 as int,
            r as int,
            (2 * a * t + k) as int,
            l as int,
        );
        vstd::arithmetic::div_mod::lemma_fundamental_div_mod_converse(
            y1 as int,
            r as int,
            (2 * a * t + t + k) as int,
            l as int,
        );
        let e = 2 * a * t + k;
        assert(e + t == e + 2 * h);
        vstd::arithmetic::div_mod::lemma_mod_multiples_vanish(h as int, e as int, 2);
        assert(2 * h + e == e + 2 * h);
    } else if m > n {
        let r = pow2(m);
        let sdiv = pow2((m - n - 1) as nat);
        lemma_pow2_pos((m - n - 1) as nat);
        lemma_pow2_adds(n + 1, (m - n - 1) as nat);
        assert(r == q * sdiv);
        vstd::arithmetic::div_mod::lemma_fundamental_div_mod_converse(y0 as int, q as int, a as int, c as int);
        vstd::arithmetic::div_mod::lemma_fundamental_div_mod_converse(
            y1 as int,
            q as int,
            a as int,
            (p + c) as int,
        );
        vstd::arithmetic::div_mod::lemma_div_denominator(y0 as int, q as int, sdiv as int);
        vstd::arithmetic::div_mod::lemma_div_denominator(y1 as int, q as int, sdiv as int);
    }
}

/// Setting bit `n` sets it and leaves every other bit as it was.
pub proof fn lemma_set_bit_bits(x: nat, n: nat, m: nat)
    ensures
        spec_bit(with_bit(x, n), m) == (m == n || spec_bit(x, m)),
{
    lemma_bits_split(x, n, m);
}

/// Clearing bit `n` clears it and leaves every other bit as it was.
pub proof fn lemma_clear_bit_bits(x: nat, n: nat, m: nat)
    ensures
        spec_bit(without_bit(x, n), m) == (m != n && spec_bit(x, m)),
{
    lemma_bits_split(x, n, m);
}

/// `x` split around bit `n`, with the value of that bit.
proof fn lemma_bits_split(x: nat, n: nat, m: nat)
    ensures
        spec_bit(with_bit(x, n), m) == (m == n || spec_bit(x, m)),
        spec_bit(without_bit(x, n), m) == (m != n && spec_bit(x, m)),
{
    let p = pow2(n);
    let q = pow2(n + 1);
    lemma_pow2_pos(n);
    vstd::arithmetic::power2::lemma_pow2_unfold(n + 1);
    let a = x / q;
    let rest = x % q;
    vstd::arithmetic::div_mod::lemma_fundamental_div_mod(x as int, q as int);
    vstd::arithmetic::div_mod::lemma_mod_bound(x as int, q as int);
    let b = rest / p;
    let c = rest % p;
    vstd::arithmetic::div_mod::lemma_fundamental_div_mod(rest as int, p as int);
    vstd::arithmetic::div_mod::lemma_mod_bound(rest as int, p as int);
    assert(b < 2) by (nonlinear_arith)
        requires
            rest == p * b + c,
            rest < q,
            q == 2 * p,
            c >= 0,
            p > 0,
    ;
    lemma_bit_of_parts(a, c, n, m);
    if b == 1 {
        assert(x == a * q + p + c) by (nonlinear_arith)
            requires
                x == q * a + rest,
                rest == p * b + c,
                b == 1,
        ;
        assert(without_bit(x, n) == a * q + c);
    } else {
        assert(x == a * q + c) by (nonlinear_arith)
            requires
                x == q * a + rest,
                rest == p * b + c,
                b == 0,
        ;
        assert(with_bit(x, n) == a * q + p + c);
    }
}

} // verus!
