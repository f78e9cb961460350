//! The mathematical value of a little-endian sequence of words, and its algebra.

use crate::primitive::{word_base, Word};
use vstd::arithmetic::mul::*;
use vstd::prelude::*;

verus! {

/// `word_base()` to the power of `n`.
pub open spec fn pow_base(n: nat) -> nat
    decreases n,
{
    if n == 0 {
        1
    } else {
        word_base() * pow_base((n - 1) as nat)
    }
}

/// Value of a little-endian sequence of words: `s[0] + s[1] * B + s[2] * B^2 + ...`.
pub open spec fn to_nat(s: Seq<Word>) -> nat
    decreases s.len(),
{
    if s.len() == 0 {
        0
    } else {
        to_nat(s.drop_last()) + (s.last() as nat) * pow_base((s.len() - 1) as nat)
    }
}

/// A `usize` index as an integer.
pub open spec fn idx(i: usize) -> int {
    i as int
}

/// A sequence of words without leading (most significant) zero words.
pub open spec fn is_normalized(s: Seq<Word>) -> bool {
    s.len() == 0 || s.last() != 0
}

/// A sequence of `n` zero words.
pub open spec fn zeros(n: nat) -> Seq<Word> {
    Seq::new(n, |i: int| 0u64)
}

pub proof fn lemma_pow_base_pos(n: nat)
    ensures
        pow_base(n) > 0,
    decreases n,
{
    if n > 0 {
        lemma_pow_base_pos((n - 1) as nat);
        lemma_mul_strictly_positive(word_base() as int, pow_base((n - 1) as nat) as int);
    }
}

pub proof fn lemma_pow_base_add(a: nat, b: nat)
    ensures
        pow_base(a + b) == pow_base(a) * pow_base(b),
    decreases b,
{
    if b == 0 {
        assert(a + b == a);
        assert(pow_base(b) == 1);
    } else {
        lemma_pow_base_add(a, (b - 1) as nat);
        assert((a + b - 1) as nat == a + (b - 1) as nat);
        let x = pow_base(a + b);
        let pa = pow_base(a);
        let pb1 = pow_base((b - 1) as nat);
        let pb = pow_base(b);
        assert(x == word_base() * (pa * pb1));
        assert(pb == word_base() * pb1);
        assert(x == pa * pb) by (nonlinear_arith)
            requires
                x == word_base() * (pa * pb1),
                pb == word_base() * pb1,
        ;
    }
}

pub proof fn lemma_pow_base_mono(a: nat, b: nat)
    requires
        a <= b,
    ensures
        pow_base(a) <= pow_base(b),
{
    lemma_pow_base_add(a, (b - a) as nat);
    lemma_pow_base_pos((b - a) as nat);
    lemma_pow_base_pos(a);
    lemma_mul_increases(pow_base((b - a) as nat) as int, pow_base(a) as int);
    lemma_mul_is_commutative(pow_base((b - a) as nat) as int, pow_base(a) as int);
    assert(a + (b - a) as nat == b);
}

pub proof fn lemma_pow_base_step(n: nat)
    ensures
        pow_base(n + 1) == word_base() * pow_base(n),
        pow_base(n + 1) == pow_base(n) * word_base(),
{
    assert((n + 1 - 1) as nat == n);
    lemma_mul_is_commutative(word_base() as int, pow_base(n) as int);
}

pub proof fn lemma_to_nat_empty(s: Seq<Word>)
    requires
        s.len() == 0,
    ensures
        to_nat(s) == 0,
{
}

pub proof fn lemma_to_nat_single(w: Word)
    ensures
        to_nat(seq![w]) == w,
{
    let s = seq![w];
    assert(s.len() == 1);
    assert(s.drop_last() =~= Seq::<Word>::empty());
    assert(s.last() == w);
    assert(pow_base(0) == 1);
    assert(to_nat(s) == to_nat(s.drop_last()) + (w as nat) * pow_base(0));
}

pub proof fn lemma_to_nat_push(s: Seq<Word>, w: Word)
    ensures
        to_nat(s.push(w)) == to_nat(s) + (w as nat) * pow_base(s.len()),
{
    assert(s.push(w).drop_last() =~= s);
}

pub proof fn lemma_to_nat_take_next(s: Seq<Word>, i: int)
    requires
        0 <= i < s.len(),
    ensures
        to_nat(s.take(i + 1)) == to_nat(s.take(i)) + (s[i] as nat) * pow_base(i as nat),
{
    assert(s.take(i + 1) =~= s.take(i).push(s[i]));
    lemma_to_nat_push(s.take(i), s[i]);
}

pub proof fn lemma_to_nat_append(a: Seq<Word>, b: Seq<Word>)
    ensures
        to_nat(a + b) == to_nat(a) + pow_base(a.len()) * to_nat(b),
    decreases b.len(),
{
    if b.len() == 0 {
        assert(a + b =~= a);
    } else {
        let b1 = b.drop_last();
        assert((a + b).drop_last() =~= a + b1);
        lemma_to_nat_append(a, b1);
        let pa = pow_base(a.len());
        let pb = pow_base((b.len() - 1) as nat);
        lemma_pow_base_add(a.len(), (b.len() - 1) as nat);
        assert(((a + b).len() - 1) as nat == a.len() + (b.len() - 1) as nat);
        let l = b.last() as nat;
        assert((a + b).last() == b.last());
        let tb1 = to_nat(b1);
        assert(to_nat(b) == tb1 + l * pb);
        assert(to_nat(a + b) == to_nat(a) + pa * tb1 + l * (pa * pb));
        assert(pa * tb1 + l * (pa * pb) == pa * (tb1 + l * pb)) by (nonlinear_arith);
    }
}

pub proof fn lemma_to_nat_prepend(w: Word, s: Seq<Word>)
    ensures
        to_nat(seq![w] + s) == w + word_base() * to_nat(s),
{
    lemma_to_nat_append(seq![w], s);
    lemma_to_nat_single(w);
    lemma_pow_base_step(0);
}

/// Splitting a sequence at index `i`.
pub proof fn lemma_to_nat_split(s: Seq<Word>, i: int)
    requires
        0 <= i <= s.len(),
    ensures
        to_nat(s) == to_nat(s.take(i)) + pow_base(i as nat) * to_nat(s.skip(i)),
{
    assert(s =~= s.take(i) + s.skip(i));
    lemma_to_nat_append(s.take(i), s.skip(i));
}

/// Replacing the words at positions `k..k+m` changes the value by the difference of the
/// replaced segments, scaled by `B^k`.
pub proof fn lemma_to_nat_splice(c: Seq<Word>, k: int, m: int, x: Seq<Word>)
    requires
        0 <= k,
        0 <= m,
        k + m <= c.len(),
        x.len() == m,
    ensures
        to_nat(c.take(k) + x + c.skip(k + m)) + pow_base(k as nat) * to_nat(c.subrange(k, k + m))
            == to_nat(c) + pow_base(k as nat) * to_nat(x),
{
    let pk = pow_base(k as nat);
    let pm = pow_base(m as nat);
    let lo = c.take(k);
    let mid = c.subrange(k, k + m);
    let hi = c.skip(k + m);
    assert(c =~= lo + (mid + hi));
    assert(c.take(k) + x + c.skip(k + m) =~= lo + (x + hi));
    lemma_to_nat_append(lo, mid + hi);
    lemma_to_nat_append(lo, x + hi);
    lemma_to_nat_append(mid, hi);
    lemma_to_nat_append(x, hi);
    let th = to_nat(hi);
    assert(pk * (to_nat(mid) + pm * th) == pk * to_nat(mid) + pk * (pm * th)) by (nonlinear_arith);
    assert(pk * (to_nat(x) + pm * th) == pk * to_nat(x) + pk * (pm * th)) by (nonlinear_arith);
}

/// Horner step from the top: `to_nat(s.skip(i)) == s[i] + B * to_nat(s.skip(i + 1))`.
pub proof fn lemma_to_nat_skip_next(s: Seq<Word>, i: int)
    requires
        0 <= i < s.len(),
    ensures
        to_nat(s.skip(i)) == s[i] + word_base() * to_nat(s.skip(i + 1)),
{
    assert(s.skip(i) =~= seq![s[i]] + s.skip(i + 1));
    lemma_to_nat_prepend(s[i], s.skip(i + 1));
}

pub proof fn lemma_to_nat_bound(s: Seq<Word>)
    ensures
        to_nat(s) < pow_base(s.len()),
    decreases s.len(),
{
    if s.len() > 0 {
        let n1 = (s.len() - 1) as nat;
        lemma_to_nat_bound(s.drop_last());
        let p = pow_base(n1);
        let l = s.last() as nat;
        assert(l <= word_base() - 1);
        lemma_mul_inequality(l as int, (word_base() - 1) as int, p as int);
        lemma_mul_is_distributive_sub_other_way(p as int, word_base() as int, 1);
        lemma_pow_base_step(n1);
        assert(n1 + 1 == s.len());
    }
}

/// Updating one word changes the value by the difference at that position.
pub proof fn lemma_to_nat_update(s: Seq<Word>, i: int, w: Word)
    requires
        0 <= i < s.len(),
    ensures
        to_nat(s.update(i, w)) + (s[i] as nat) * pow_base(i as nat) == to_nat(s) + (w as nat)
            * pow_base(i as nat),
{
    let t = s.update(i, w);
    lemma_to_nat_split(s, i);
    lemma_to_nat_split(t, i);
    assert(t.take(i) =~= s.take(i));
    lemma_to_nat_skip_next(s, i);
    lemma_to_nat_skip_next(t, i);
    assert(t.skip(i + 1) =~= s.skip(i + 1));
    let p = pow_base(i as nat) as int;
    let r = word_base() * to_nat(s.skip(i + 1));
    lemma_mul_is_distributive_add(p, s[i] as int, r as int);
    lemma_mul_is_distributive_add(p, w as int, r as int);
    lemma_mul_is_commutative(p, s[i] as int);
    lemma_mul_is_commutative(p, w as int);
}

pub proof fn lemma_to_nat_zeros(n: nat)
    ensures
        to_nat(zeros(n)) == 0,
    decreases n,
{
    if n > 0 {
        assert(zeros(n).drop_last() =~= zeros((n - 1) as nat));
        lemma_to_nat_zeros((n - 1) as nat);
    }
}

/// Appending zero words does not change the value.
pub proof fn lemma_to_nat_append_zeros(s: Seq<Word>, n: nat)
    ensures
        to_nat(s + zeros(n)) == to_nat(s),
{
    lemma_to_nat_append(s, zeros(n));
    lemma_to_nat_zeros(n);
}

/// A sequence is zero exactly when all its words are.
pub proof fn lemma_to_nat_zero_iff(s: Seq<Word>)
    ensures
        to_nat(s) == 0 <==> (forall|i: int| 0 <= i < s.len() ==> s[i] == 0),
    decreases s.len(),
{
    if s.len() > 0 {
        let s1 = s.drop_last();
        lemma_to_nat_zero_iff(s1);
        let p = pow_base((s.len() - 1) as nat);
        lemma_pow_base_pos((s.len() - 1) as nat);
        if s.last() != 0 {
            lemma_mul_strictly_positive(s.last() as int, p as int);
        } else {
            lemma_mul_basics(p as int);
        }
        if forall|i: int| 0 <= i < s.len() ==> s[i] == 0 {
            assert forall|i: int| 0 <= i < s1.len() implies s1[i] == 0 by {
                assert(s1[i] == s[i]);
            }
        }
        if to_nat(s) == 0 {
            assert forall|i: int| 0 <= i < s.len() implies s[i] == 0 by {
                if i < s.len() - 1 {
                    assert(s1[i] == s[i]);
                }
            }
        }
    }
}

/// Words above position `k` that are all zero do not contribute to the value.
pub proof fn lemma_to_nat_take_zero_tail(s: Seq<Word>, k: int)
    requires
        0 <= k <= s.len(),
        forall|j: int| k <= j < s.len() ==> s[j] == 0,
    ensures
        to_nat(s) == to_nat(s.take(k)),
{
    lemma_to_nat_split(s, k);
    lemma_to_nat_zero_iff(s.skip(k));
    assert forall|j: int| 0 <= j < s.skip(k).len() implies s.skip(k)[j] == 0 by {
        assert(s.skip(k)[j] == s[k + j]);
    }
    lemma_mul_basics(pow_base(k as nat) as int);
}

/// A normalized non-empty sequence has a value of at least `B^(len-1)`.
pub proof fn lemma_to_nat_normalized_lower(s: Seq<Word>)
    requires
        s.len() > 0,
        s.last() != 0,
    ensures
        to_nat(s) >= pow_base((s.len() - 1) as nat),
{
    let p = pow_base((s.len() - 1) as nat);
    lemma_pow_base_pos((s.len() - 1) as nat);
    lemma_mul_increases(s.last() as int, p as int);
    lemma_mul_is_commutative(s.last() as int, p as int);
}

/// A normalized sequence whose value is below `B^m` has at most `m` words.
pub proof fn lemma_normalized_len_bound(s: Seq<Word>, m: nat)
    requires
        is_normalized(s),
        to_nat(s) < pow_base(m),
    ensures
        s.len() <= m,
{
    if s.len() > m {
        lemma_to_nat_normalized_lower(s);
        lemma_pow_base_mono(m, (s.len() - 1) as nat);
    }
}

/// Dropping zero words at the top keeps the value.
pub proof fn lemma_to_nat_drop_last_zero(s: Seq<Word>)
    requires
        s.len() > 0,
        s.last() == 0,
    ensures
        to_nat(s) == to_nat(s.drop_last()),
{
    lemma_mul_basics(pow_base((s.len() - 1) as nat) as int);
}

/// Comparison of two sequences of the same length decided by the top word.
pub proof fn lemma_to_nat_top_less(a: Seq<Word>, b: Seq<Word>)
    requires
        a.len() == b.len(),
        a.len() > 0,
        a.last() < b.last(),
    ensures
        to_nat(a) < to_nat(b),
{
    let p = pow_base((a.len() - 1) as nat);
    lemma_to_nat_bound(a.drop_last());
    assert(a.drop_last().len() == a.len() - 1);
    lemma_mul_inequality((a.last() + 1) as int, b.last() as int, p as int);
    lemma_mul_is_distributive_add_other_way(p as int, a.last() as int, 1);
}

/// Comparison of two sequences of the same length with equal top words.
pub proof fn lemma_to_nat_top_equal(a: Seq<Word>, b: Seq<Word>)
    requires
        a.len() == b.len(),
        a.len() > 0,
        a.last() == b.last(),
    ensures
        to_nat(a) - to_nat(b) == to_nat(a.drop_last()) - to_nat(b.drop_last()),
{
}

/// Two normalized sequences with the same value are equal.
pub proof fn lemma_to_nat_injective(a: Seq<Word>, b: Seq<Word>)
    requires
        is_normalized(a),
        is_normalized(b),
        to_nat(a) == to_nat(b),
    ensures
        a == b,
    decreases a.len() + b.len(),
{
    if a.len() == 0 || b.len() == 0 {
        if a.len() > 0 {
            lemma_to_nat_normalized_lower(a);
            lemma_pow_base_pos((a.len() - 1) as nat);
        }
        if b.len() > 0 {
            lemma_to_nat_normalized_lower(b);
            lemma_pow_base_pos((b.len() - 1) as nat);
        }
        assert(a =~= b);
    } else {
        if a.len() < b.len() {
            lemma_to_nat_bound(a);
            lemma_to_nat_normalized_lower(b);
            lemma_pow_base_mono(a.len(), (b.len() - 1) as nat);
        } else if b.len() < a.len() {
            lemma_to_nat_bound(b);
            lemma_to_nat_normalized_lower(a);
            lemma_pow_base_mono(b.len(), (a.len() - 1) as nat);
        } else {
            // Same length: the top words agree, then the rest agree.
            let n1 = (a.len() - 1) as nat;
            let p = pow_base(n1);
            lemma_to_nat_bound(a.drop_last());
            lemma_to_nat_bound(b.drop_last());
            if a.last() < b.last() {
                lemma_to_nat_top_less(a, b);
            } else if b.last() < a.last() {
                lemma_to_nat_top_less(b, a);
            }
            assert(a.last() == b.last());
            let a1 = lemma_strip_to_normalized(a.drop_last());
            let b1 = lemma_strip_to_normalized(b.drop_last());
            lemma_to_nat_injective(a1, b1);
            lemma_strip_prefix_eq(a.drop_last(), b.drop_last(), a1);
            assert(a =~= a.drop_last().push(a.last()));
            assert(b =~= b.drop_last().push(b.last()));
        }
    }
}

/// The normalized prefix of a sequence (dropping top zero words) has the same value.
pub proof fn lemma_strip_to_normalized(s: Seq<Word>) -> (t: Seq<Word>)
    ensures
        is_normalized(t),
        to_nat(t) == to_nat(s),
        t.len() <= s.len(),
        t == s.take(t.len() as int),
        forall|i: int| t.len() <= i < s.len() ==> s[i] == 0,
    decreases s.len(),
{
    if s.len() == 0 || s.last() != 0 {
        assert(s.take(s.len() as int) =~= s);
        s
    } else {
        lemma_to_nat_drop_last_zero(s);
        let t = lemma_strip_to_normalized(s.drop_last());
        assert(t =~= s.take(t.len() as int));
        assert forall|i: int| t.len() <= i < s.len() implies s[i] == 0 by {
            if i < s.len() - 1 {
                assert(s.drop_last()[i] == s[i]);
            }
        }
        t
    }
}

/// Two sequences of the same length whose normalized prefixes agree are equal.
pub proof fn lemma_strip_prefix_eq(a: Seq<Word>, b: Seq<Word>, t: Seq<Word>)
    requires
        a.len() == b.len(),
        t.len() <= a.len(),
        t == a.take(t.len() as int),
        t == b.take(t.len() as int),
        forall|i: int| t.len() <= i < a.len() ==> a[i] == 0,
        forall|i: int| t.len() <= i < b.len() ==> b[i] == 0,
    ensures
        a == b,
{
    assert forall|i: int| 0 <= i < a.len() implies a[i] == b[i] by {
        if i < t.len() {
            assert(a[i] == t[i]);
            assert(b[i] == t[i]);
        }
    }
    assert(a =~= b);
}

} // verus!
