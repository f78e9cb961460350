//! Conversions between numbers and bytes, and between big and primitive integers.

use crate::buffer::{Buffer, MAX_LEN};
use crate::error::OutOfBoundsError;
use crate::ibig::{abs, IBig};
use crate::sign::Sign;
use crate::primitive::{word_base, Word, WORD_BYTES};
use crate::ubig::{fits, UBig};
use crate::value::{
    is_normalized, lemma_pow_base_step, lemma_to_nat_push, lemma_to_nat_single, pow_base, to_nat,
};
use vstd::arithmetic::power2::{lemma2_to64, lemma2_to64_rest, lemma_pow2_adds, lemma_pow2_pos, pow2};
use vstd::prelude::*;

verus! {

/// Value of little-endian bytes.
pub open spec fn le_value(s: Seq<u8>) -> nat
    decreases s.len(),
{
    if s.len() == 0 {
        0
    } else {
        s[0] as nat + 256 * le_value(s.skip(1))
    }
}

/// Value of big-endian bytes.
pub open spec fn be_value(s: Seq<u8>) -> nat
    decreases s.len(),
{
    if s.len() == 0 {
        0
    } else {
        be_value(s.drop_last()) * 256 + s.last() as nat
    }
}

/// `256^n == 2^(8n)`.
proof fn lemma_pow256(n: nat)
    ensures
        pow2(8 * (n + 1)) == 256 * pow2(8 * n),
        pow2(8 * n) > 0,
{
    lemma_pow2_adds(8, 8 * n);
    lemma2_to64();
    lemma_pow2_pos(8 * n);
    assert(8 + 8 * n == 8 * (n + 1));
}

/// Little-endian bytes are below `2^(8 len)`.
pub proof fn lemma_le_value_bound(s: Seq<u8>)
    ensures
        le_value(s) < pow2(8 * s.len()),
    decreases s.len(),
{
    if s.len() == 0 {
        lemma2_to64();
    } else {
        lemma_le_value_bound(s.skip(1));
        lemma_pow256((s.len() - 1) as nat);
        assert(8 * s.len() == 8 * ((s.len() - 1) as nat + 1));
    }
}

/// Big-endian bytes are below `2^(8 len)`.
pub proof fn lemma_be_value_bound(s: Seq<u8>)
    ensures
        be_value(s) < pow2(8 * s.len()),
    decreases s.len(),
{
    if s.len() == 0 {
        lemma2_to64();
    } else {
        lemma_be_value_bound(s.drop_last());
        lemma_pow256((s.len() - 1) as nat);
        assert(8 * s.len() == 8 * ((s.len() - 1) as nat + 1));
    }
}

/// Concatenation of little-endian bytes.
pub proof fn lemma_le_value_append(a: Seq<u8>, b: Seq<u8>)
    ensures
        le_value(a + b) == le_value(a) + pow2(8 * a.len()) * le_value(b),
    decreases a.len(),
{
    if a.len() == 0 {
        assert(a + b =~= b);
        lemma2_to64();
    } else {
        assert((a + b).skip(1) =~= a.skip(1) + b);
        lemma_le_value_append(a.skip(1), b);
        lemma_pow256((a.len() - 1) as nat);
        assert(8 * a.len() == 8 * ((a.len() - 1) as nat + 1));
        let p = pow2(8 * (a.len() - 1) as nat) as int;
        assert(256 * (le_value(a.skip(1)) + p * le_value(b)) == 256 * le_value(a.skip(1)) + (256
            * p) * le_value(b)) by (nonlinear_arith);
    }
}

/// Concatenation of big-endian bytes.
pub proof fn lemma_be_value_append(a: Seq<u8>, b: Seq<u8>)
    ensures
        be_value(a + b) == be_value(a) * pow2(8 * b.len()) + be_value(b),
    decreases b.len(),
{
    if b.len() == 0 {
        assert(a + b =~= a);
        lemma2_to64();
        assert(be_value(a) * pow2(0) == be_value(a)) by (nonlinear_arith)
            requires
                pow2(0) == 1,
        ;
    } else {
        let bd = b.drop_last();
        assert((a + b).drop_last() =~= a + bd);
        assert((a + b).last() == b.last());
        lemma_be_value_append(a, bd);
        lemma_pow256((b.len() - 1) as nat);
        assert(8 * b.len() == 8 * ((b.len() - 1) as nat + 1));
        let p = pow2(8 * (b.len() - 1) as nat) as int;
        let q = pow2(8 * b.len()) as int;
        assert(q == 256 * p);
        assert(be_value(a + b) == be_value(a + bd) * 256 + b.last());
        assert(be_value(a + bd) == be_value(a) * p + be_value(bd));
        assert(be_value(b) == be_value(bd) * 256 + b.last());
        assert((be_value(a) * p + be_value(bd)) * 256 == be_value(a) * q + be_value(bd) * 256) by (
        nonlinear_arith)
            requires
                q == 256 * p,
        ;
    }
}

/// A word from up to `WORD_BYTES` little-endian bytes.
pub fn word_from_le_bytes_partial(bytes: &[u8]) -> (r: Word)
    requires
        bytes@.len() <= WORD_BYTES,
    ensures
        r == le_value(bytes@),
{
    let n = bytes.len();
    let mut word: Word = 0;
    let mut i = n;
    proof {
        assert(bytes@.skip(n as int) =~= Seq::<u8>::empty());
    }
    while i > 0
        invariant
            i <= n,
            n == bytes@.len(),
            n <= 8,
            word == le_value(bytes@.skip(i as int)),
        decreases i,
    {
        i -= 1;
        proof {
            assert(bytes@.skip(i as int).skip(1) =~= bytes@.skip(i + 1));
            lemma_le_value_bound(bytes@.skip(i + 1));
            if 8 * (n - i - 1) < 56 {
                vstd::arithmetic::power2::lemma_pow2_strictly_increases(8 * (n - i - 1) as nat, 56);
            }
            lemma2_to64_rest();
        }
        word = word * 256 + bytes[i] as Word;
    }
    proof {
        assert(bytes@.skip(0) =~= bytes@);
    }
    word
}

/// A word from up to `WORD_BYTES` big-endian bytes.
pub fn word_from_be_bytes_partial(bytes: &[u8]) -> (r: Word)
    requires
        bytes@.len() <= WORD_BYTES,
    ensures
        r == be_value(bytes@),
{
    let n = bytes.len();
    let mut word: Word = 0;
    let mut i: usize = 0;
    proof {
        assert(bytes@.take(0) =~= Seq::<u8>::empty());
    }
    while i < n
        invariant
            i <= n,
            n == bytes@.len(),
            n <= 8,
            word == be_value(bytes@.take(i as int)),
        decreases n - i,
    {
        proof {
            assert(bytes@.take(i + 1).drop_last() =~= bytes@.take(i as int));
            lemma_be_value_bound(bytes@.take(i as int));
            if i < 7 {
                vstd::arithmetic::power2::lemma_pow2_strictly_increases(8 * i as nat, 56);
            }
            lemma2_to64_rest();
        }
        word = word * 256 + bytes[i] as Word;
        i += 1;
    }
    proof {
        assert(bytes@.take(n as int) =~= bytes@);
    }
    word
}

/// The little-endian bytes of a word.
pub fn word_to_le_bytes(word: Word) -> (r: Vec<u8>)
    ensures
        r@.len() == WORD_BYTES,
        le_value(r@) == word,
{
    let mut bytes: Vec<u8> = Vec::new();
    let mut rest = word;
    let mut i: usize = 0;
    proof {
        lemma2_to64();
        assert(bytes@ =~= Seq::<u8>::empty());
        assert(le_value(bytes@) == 0);
        assert(pow2(0) * word == word) by (nonlinear_arith)
            requires
                pow2(0) == 1,
        ;
        lemma2_to64_rest();
    }
    while i < WORD_BYTES
        invariant
            i <= 8,
            bytes@.len() == i,
            le_value(bytes@) + pow2(8 * i as nat) * rest == word,
            rest < pow2((64 - 8 * i) as nat),
        decreases 8 - i,
    {
        let b = (rest % 256) as u8;
        let ghost r0 = rest;
        rest = rest / 256;
        proof {
            lemma_le_value_append(bytes@, seq![b]);
            assert(seq![b].skip(1) =~= Seq::<u8>::empty());
            assert(le_value(Seq::<u8>::empty()) == 0);
            assert(le_value(seq![b]) == b);
            lemma_pow256(i as nat);
            lemma_pow2_adds(8, (64 - 8 * (i + 1)) as nat);
            lemma2_to64();
            let p = pow2(8 * i as nat) as int;
            assert(p * r0 == p * b + (256 * p) * rest) by (nonlinear_arith)
                requires
                    r0 == 256 * rest + b,
            ;
            assert(bytes@ + seq![b] =~= bytes@.push(b));
            lemma_le_value_append(bytes@, seq![b]);
            assert(pow2(8 * bytes@.len()) == p);
            assert(le_value(bytes@.push(b)) == le_value(bytes@) + p * b);
            assert(pow2(8 * (i + 1) as nat) == 256 * p);
            assert(le_value(bytes@.push(b)) + pow2(8 * (i + 1) as nat) * rest == word) by (
            nonlinear_arith)
                requires
                    le_value(bytes@.push(b)) == le_value(bytes@) + p * b,
                    pow2(8 * (i + 1) as nat) == 256 * p,
                    p * r0 == p * b + (256 * p) * rest,
                    le_value(bytes@) + p * r0 == word,
            ;
            assert(rest < pow2((64 - 8 * (i + 1)) as nat)) by (nonlinear_arith)
                requires
                    r0 == 256 * rest + b,
                    r0 < pow2((64 - 8 * i) as nat),
                    pow2((64 - 8 * i) as nat) == 256 * pow2((64 - 8 * (i + 1)) as nat),
                    b >= 0,
            ;
        }
        bytes.push(b);
        i += 1;
    }
    proof {
        lemma2_to64();
        assert(rest == 0);
    }
    bytes
}

impl UBig {
    /// Construct from little-endian bytes.
    pub fn from_le_bytes(bytes: &[u8]) -> (r: UBig)
        requires
            bytes@.len() <= MAX_LEN * WORD_BYTES,
        ensures
            r@ == le_value(bytes@),
    {
        if bytes.len() <= WORD_BYTES {
            UBig::from_word(word_from_le_bytes_partial(bytes))
        } else {
            UBig::from_le_bytes_large(bytes)
        }
    }

    /// Construct from more than `WORD_BYTES` little-endian bytes.
    pub fn from_le_bytes_large(bytes: &[u8]) -> (r: UBig)
        requires
            bytes@.len() > WORD_BYTES,
            bytes@.len() <= MAX_LEN * WORD_BYTES,
        ensures
            r@ == le_value(bytes@),
    {
        let n = bytes.len();
        let num_words = (n - 1) / WORD_BYTES + 1;
        let mut buffer = Buffer::allocate(num_words);
        let mut pos: usize = 0;
        proof {
            assert(bytes@.take(0) =~= Seq::<u8>::empty());
            lemma2_to64();
        }
        while n - pos >= WORD_BYTES
            invariant
                pos <= n,
                n == bytes@.len(),
                pos % 8 == 0,
                num_words == (n - 1) / 8 + 1,
                num_words <= MAX_LEN,
                buffer.wf(),
                buffer.cap() >= num_words,
                buffer@.len() == pos / 8,
                to_nat(buffer@) == le_value(bytes@.take(pos as int)),
            decreases n - pos,
        {
            let (_lo, rest) = bytes.split_at(pos);
            let (chunk, _hi) = rest.split_at(WORD_BYTES);
            let w = word_from_le_bytes_partial(chunk);
            let ghost b0 = buffer@;
            buffer.push(w);
            proof {
                assert(chunk@ =~= bytes@.subrange(pos as int, pos + 8));
                assert(bytes@.take(pos + 8) =~= bytes@.take(pos as int) + chunk@);
                lemma_le_value_append(bytes@.take(pos as int), chunk@);
                lemma_to_nat_push(b0, w);
                crate::shift_ops::lemma_pow_base_pow2(b0.len());
                assert(8 * (pos as nat) == 64 * b0.len());
                vstd::arithmetic::mul::lemma_mul_is_commutative(w as int, pow_base(b0.len()) as int);
            }
            pos += WORD_BYTES;
        }
        if pos < n {
            let (_lo, rest) = bytes.split_at(pos);
            let w = word_from_le_bytes_partial(rest);
            let ghost b0 = buffer@;
            buffer.push(w);
            proof {
                assert(bytes@ =~= bytes@.take(pos as int) + rest@);
                lemma_le_value_append(bytes@.take(pos as int), rest@);
                lemma_to_nat_push(b0, w);
                crate::shift_ops::lemma_pow_base_pow2(b0.len());
                assert(8 * (pos as nat) == 64 * b0.len());
                vstd::arithmetic::mul::lemma_mul_is_commutative(w as int, pow_base(b0.len()) as int);
            }
        } else {
            proof {
                assert(bytes@.take(pos as int) =~= bytes@);
            }
        }
        proof {
            UBig::lemma_words_fit(buffer@);
        }
        UBig::from_buffer(buffer)
    }

    /// Construct from big-endian bytes.
    pub fn from_be_bytes(bytes: &[u8]) -> (r: UBig)
        requires
            bytes@.len() <= MAX_LEN * WORD_BYTES,
        ensures
            r@ == be_value(bytes@),
    {
        if bytes.len() <= WORD_BYTES {
            UBig::from_word(word_from_be_bytes_partial(bytes))
        } else {
            UBig::from_be_bytes_large(bytes)
        }
    }

    /// Construct from more than `WORD_BYTES` big-endian bytes.
    pub fn from_be_bytes_large(bytes: &[u8]) -> (r: UBig)
        requires
            bytes@.len() > WORD_BYTES,
            bytes@.len() <= MAX_LEN * WORD_BYTES,
        ensures
            r@ == be_value(bytes@),
    {
        let n = bytes.len();
        let num_words = (n - 1) / WORD_BYTES + 1;
        let mut buffer = Buffer::allocate(num_words);
        let mut end: usize = n;
        proof {
            assert(bytes@.skip(n as int) =~= Seq::<u8>::empty());
            lemma2_to64();
        }
        while end >= WORD_BYTES
            invariant
                end <= n,
                n == bytes@.len(),
                (n - end) % 8 == 0,
                num_words == (n - 1) / 8 + 1,
                num_words <= MAX_LEN,
                buffer.wf(),
                buffer.cap() >= num_words,
                buffer@.len() == (n - end) / 8,
                to_nat(buffer@) == be_value(bytes@.skip(end as int)),
            decreases end,
        {
            let (_lo, rest) = bytes.split_at(end - WORD_BYTES);
            let (chunk, _hi) = rest.split_at(WORD_BYTES);
            let w = word_from_be_bytes_partial(chunk);
            let ghost b0 = buffer@;
            buffer.push(w);
            proof {
                assert(chunk@ =~= bytes@.subrange(end - 8, end as int));
                assert(bytes@.skip(end - 8) =~= chunk@ + bytes@.skip(end as int));
                lemma_be_value_append(chunk@, bytes@.skip(end as int));
                lemma_to_nat_push(b0, w);
                crate::shift_ops::lemma_pow_base_pow2(b0.len());
                assert(8 * (n - end) as nat == 64 * b0.len());
            }
            end -= WORD_BYTES;
        }
        if end > 0 {
            let (first, _rest) = bytes.split_at(end);
            let w = word_from_be_bytes_partial(first);
            let ghost b0 = buffer@;
            buffer.push(w);
            proof {
                assert(bytes@ =~= first@ + bytes@.skip(end as int));
                lemma_be_value_append(first@, bytes@.skip(end as int));
                lemma_to_nat_push(b0, w);
                crate::shift_ops::lemma_pow_base_pow2(b0.len());
                assert(8 * (n - end) as nat == 64 * b0.len());
            }
        } else {
            proof {
                assert(bytes@.skip(0) =~= bytes@);
            }
        }
        proof {
            UBig::lemma_words_fit(buffer@);
        }
        UBig::from_buffer(buffer)
    }

    /// The little-endian bytes of the number, without trailing zero bytes.
    pub fn to_le_bytes(&self) -> (r: Vec<u8>)
        ensures
            le_value(r@) == self@,
            r@.len() == 0 || r@.last() != 0,
            r@.len() <= MAX_LEN * WORD_BYTES,
    {
        let words = self.as_words();
        let n = words.len();
        let mut bytes: Vec<u8> = Vec::new();
        if n == 0 {
            proof {
                assert(bytes@ =~= Seq::<u8>::empty());
            }
            return bytes;
        }
        let mut i: usize = 0;
        proof {
            assert(words@.take(0) =~= Seq::<Word>::empty());
        }
        while i + 1 < n
            invariant
                i < n,
                n == words@.len(),
                bytes@.len() == 8 * i,
                le_value(bytes@) == to_nat(words@.take(i as int)),
            decreases n - i,
        {
            let wb = word_to_le_bytes(words[i]);
            let ghost b0 = bytes@;
            let mut j: usize = 0;
            while j < WORD_BYTES
                invariant
                    j <= 8,
                    wb@.len() == 8,
                    bytes@ == b0 + wb@.take(j as int),
                decreases 8 - j,
            {
                bytes.push(wb[j]);
                proof {
                    assert(b0 + wb@.take(j + 1) =~= (b0 + wb@.take(j as int)).push(wb@[j as int]));
                }
                j += 1;
            }
            proof {
                assert(wb@.take(8) =~= wb@);
                lemma_le_value_append(b0, wb@);
                crate::value::lemma_to_nat_take_next(words@, i as int);
                crate::shift_ops::lemma_pow_base_pow2(i as nat);
                assert(8 * b0.len() == 64 * i);
                vstd::arithmetic::mul::lemma_mul_is_commutative(words@[i as int] as int, pow_base(i as nat) as int);
            }
            i += 1;
        }
        let last = words[n - 1];
        let wb = word_to_le_bytes(last);
        let sig = significant_le_bytes(&wb);
        let ghost b0 = bytes@;
        let mut j: usize = 0;
        while j < sig
            invariant
                j <= sig,
                sig <= 8,
                wb@.len() == 8,
                bytes@ == b0 + wb@.take(j as int),
            decreases sig - j,
        {
            bytes.push(wb[j]);
            proof {
                assert(b0 + wb@.take(j + 1) =~= (b0 + wb@.take(j as int)).push(wb@[j as int]));
            }
            j += 1;
        }
        proof {
            lemma_le_value_append(b0, wb@.take(sig as int));
            crate::value::lemma_to_nat_take_next(words@, (n - 1) as int);
            assert(words@.take(n as int) =~= words@);
            crate::shift_ops::lemma_pow_base_pow2((n - 1) as nat);
            assert(8 * b0.len() == 64 * (n - 1));
            vstd::arithmetic::mul::lemma_mul_is_commutative(last as int, pow_base((n - 1) as nat) as int);
            assert(bytes@.len() <= 8 * n);
        }
        bytes
    }

    /// The big-endian bytes of the number, without leading zero bytes.
    pub fn to_be_bytes(&self) -> (r: Vec<u8>)
        ensures
            be_value(r@) == self@,
            r@.len() == 0 || r@[0] != 0,
            r@.len() <= MAX_LEN * WORD_BYTES,
    {
        let le = self.to_le_bytes();
        let n = le.len();
        let mut bytes: Vec<u8> = Vec::new();
        let mut i = n;
        proof {
            assert(bytes@ =~= Seq::<u8>::empty());
            assert(le@.skip(n as int) =~= Seq::<u8>::empty());
        }
        while i > 0
            invariant
                i <= n,
                n == le@.len(),
                bytes@.len() == n - i,
                be_value(bytes@) == le_value(le@.skip(i as int)),
                forall|k: int| 0 <= k < bytes@.len() ==> bytes@[k] == le@[n - 1 - k],
            decreases i,
        {
            i -= 1;
            let ghost b0 = bytes@;
            bytes.push(le[i]);
            proof {
                lemma_be_value_append(seq![le@[i as int]], b0);
                assert(bytes@ =~= b0.push(le@[i as int]));
                assert(le@.skip(i as int).skip(1) =~= le@.skip(i + 1));
                assert(b0.push(le@[i as int]).drop_last() =~= b0);
                lemma_be_le_reverse_step(b0, le@[i as int]);
            }
        }
        proof {
            assert(le@.skip(0) =~= le@);
            if n > 0 {
                assert(bytes@[0] == le@[n - 1]);
            }
        }
        bytes
    }
}

/// Reading bytes in the reverse order swaps the two byte orders.
pub proof fn lemma_be_value_reverse(s: Seq<u8>)
    ensures
        be_value(s.reverse()) == le_value(s),
    decreases s.len(),
{
    if s.len() > 0 {
        let rest = s.skip(1);
        lemma_be_value_reverse(rest);
        let r = s.reverse();
        assert(r.drop_last() =~= rest.reverse());
        assert(r.last() == s[0]);
    }
}

/// Little-endian bytes with a non-zero last byte hold a non-zero value.
proof fn lemma_le_value_positive(s: Seq<u8>)
    requires
        s.len() > 0,
        s.last() != 0,
    ensures
        le_value(s) > 0,
{
    let d = s.drop_last();
    assert(s =~= d + seq![s.last()]);
    lemma_le_value_append(d, seq![s.last()]);
    let one = seq![s.last()];
    assert(one.skip(1) =~= Seq::<u8>::empty());
    assert(le_value(one.skip(1)) == 0);
    assert(le_value(one) == one[0] as nat + 256 * le_value(one.skip(1)));
    lemma_pow2_pos(8 * d.len());
    assert(pow2(8 * d.len()) * le_value(seq![s.last()]) > 0) by (nonlinear_arith)
        requires
            pow2(8 * d.len()) > 0,
            le_value(seq![s.last()]) == s.last() as nat,
            s.last() != 0,
    ;
}

/// The little-endian bytes of a number without trailing zero bytes are unique: two such
/// sequences of the same value are equal.
pub proof fn lemma_le_bytes_unique(a: Seq<u8>, b: Seq<u8>)
    requires
        le_value(a) == le_value(b),
        a.len() == 0 || a.last() != 0,
        b.len() == 0 || b.last() != 0,
    ensures
        a == b,
    decreases a.len(),
{
    if a.len() == 0 {
        if b.len() > 0 {
            lemma_le_value_positive(b);
        }
        assert(a =~= b);
    } else if b.len() == 0 {
        lemma_le_value_positive(a);
    } else {
        let ra = a.skip(1);
        let rb = b.skip(1);
        assert(a[0] as nat == le_value(a) % 256 && le_value(ra) == le_value(a) / 256) by {
            vstd::arithmetic::div_mod::lemma_fundamental_div_mod_converse(
                le_value(a) as int,
                256,
                le_value(ra) as int,
                a[0] as int,
            );
        }
        assert(b[0] as nat == le_value(b) % 256 && le_value(rb) == le_value(b) / 256) by {
            vstd::arithmetic::div_mod::lemma_fundamental_div_mod_converse(
                le_value(b) as int,
                256,
                le_value(rb) as int,
                b[0] as int,
            );
        }
        if ra.len() > 0 {
            assert(ra.last() == a.last());
        }
        if rb.len() > 0 {
            assert(rb.last() == b.last());
        }
        lemma_le_bytes_unique(ra, rb);
        assert(a =~= seq![a[0]] + ra);
        assert(b =~= seq![b[0]] + rb);
    }
}

/// The shortest big-endian bytes of a number are its shortest little-endian bytes reversed: what
/// `to_be_bytes` returns is what `to_le_bytes` returns, in the reverse order.
pub proof fn lemma_be_bytes_reverse_le(le: Seq<u8>, be: Seq<u8>)
    requires
        le_value(le) == be_value(be),
        le.len() == 0 || le.last() != 0,
        be.len() == 0 || be[0] != 0,
    ensures
        be == le.reverse(),
{
    let r = be.reverse();
    lemma_be_value_reverse(r);
    assert(r.reverse() =~= be);
    if r.len() > 0 {
        assert(r.last() == be[0]);
    }
    lemma_le_bytes_unique(r, le);
}

/// Prepending a byte to the value of big-endian bytes... is appending it at the bottom of the
/// little-endian reading.
proof fn lemma_be_le_reverse_step(b: Seq<u8>, x: u8)
    ensures
        be_value(b.push(x)) == be_value(b) * 256 + x,
{
    assert(b.push(x).drop_last() =~= b);
}

/// The number of bytes up to the last non-zero one, in an 8-byte little-endian word.
fn significant_le_bytes(wb: &Vec<u8>) -> (r: usize)
    requires
        wb@.len() == 8,
    ensures
        r <= 8,
        le_value(wb@.take(r as int)) == le_value(wb@),
        r == 0 || wb@[r - 1] != 0,
{
    let mut r: usize = 8;
    proof {
        assert(wb@.take(8) =~= wb@);
    }
    while r > 0 && wb[r - 1] == 0
        invariant
            r <= 8,
            wb@.len() == 8,
            le_value(wb@.take(r as int)) == le_value(wb@),
        decreases r,
    {
        proof {
            let t = wb@.take(r - 1);
            assert(wb@.take(r as int) =~= t + seq![0u8]);
            lemma_le_value_append(t, seq![0u8]);
            assert(seq![0u8].skip(1) =~= Seq::<u8>::empty());
            assert(le_value(Seq::<u8>::empty()) == 0);
            assert(le_value(seq![0u8]) == 0);
            assert(pow2(8 * t.len()) * 0 == 0) by (nonlinear_arith);
        }
        r -= 1;
    }
    r
}

/// The value of at most two words.
proof fn lemma_two_words(s: Seq<Word>)
    requires
        s.len() <= 2,
    ensures
        s.len() == 0 ==> to_nat(s) == 0,
        s.len() == 1 ==> to_nat(s) == s[0],
        s.len() == 2 ==> to_nat(s) == s[0] + s[1] * word_base(),
{
    if s.len() == 1 {
        assert(s =~= seq![s[0]]);
        lemma_to_nat_single(s[0]);
    } else if s.len() == 2 {
        assert(s =~= seq![s[0]].push(s[1]));
        lemma_to_nat_single(s[0]);
        lemma_to_nat_push(seq![s[0]], s[1]);
        lemma_pow_base_step(0);
    }
}

/// Convert an unsigned primitive to `UBig`.
pub fn ubig_from_unsigned(x: u128) -> (r: UBig)
    ensures
        r@ == x,
{
    if x <= 0xffff_ffff_ffff_ffff {
        UBig::from_word(x as Word)
    } else {
        UBig::from_double_word(x)
    }
}

/// Try to convert a signed primitive to `UBig`.
pub fn ubig_from_signed(x: i128) -> (r: Result<UBig, OutOfBoundsError>)
    ensures
        r is Ok <==> x >= 0,
        r matches Ok(v) ==> v@ == x,
{
    if x >= 0 {
        Ok(ubig_from_unsigned(x as u128))
    } else {
        Err(OutOfBoundsError)
    }
}

/// Try to convert `Word`s to an unsigned primitive.
pub fn unsigned_from_words(words: &[Word]) -> (r: Result<u128, OutOfBoundsError>)
    requires
        is_normalized(words@),
    ensures
        r is Ok <==> to_nat(words@) <= u128::MAX,
        r matches Ok(v) ==> v == to_nat(words@),
{
    if words.len() <= 2 {
        proof {
            lemma_two_words(words@);
        }
        if words.len() == 0 {
            Ok(0)
        } else if words.len() == 1 {
            Ok(words[0] as u128)
        } else {
            proof {
                crate::primitive::lemma_mul_word_bound(words@[1], 1);
            }
            Ok(crate::primitive::double_word(words[0], words[1]))
        }
    } else {
        proof {
            crate::value::lemma_to_nat_normalized_lower(words@);
            crate::value::lemma_pow_base_mono(2, (words@.len() - 1) as nat);
            lemma_pow_base_step(1);
            lemma_pow_base_step(0);
        }
        Err(OutOfBoundsError)
    }
}

/// Try to convert `UBig` to an unsigned primitive.
pub fn unsigned_from_ubig(num: &UBig) -> (r: Result<u128, OutOfBoundsError>)
    ensures
        r is Ok <==> num@ <= u128::MAX,
        r matches Ok(v) ==> v == num@,
{
    unsigned_from_words(num.as_words())
}

/// Try to convert `UBig` to a signed primitive.
pub fn signed_from_ubig(num: &UBig) -> (r: Result<i128, OutOfBoundsError>)
    ensures
        r is Ok <==> num@ <= i128::MAX,
        r matches Ok(v) ==> v == num@,
{
    match unsigned_from_ubig(num) {
        Ok(u) => {
            if u <= 0x7fff_ffff_ffff_ffff_ffff_ffff_ffff_ffff {
                Ok(u as i128)
            } else {
                Err(OutOfBoundsError)
            }
        },
        Err(e) => Err(e),
    }
}

/// Convert an unsigned primitive to `IBig`.
pub fn ibig_from_unsigned(x: u128) -> (r: IBig)
    ensures
        r@ == x,
{
    IBig::from_ubig(ubig_from_unsigned(x))
}

/// Convert a signed primitive to `IBig`.
pub fn ibig_from_signed(x: i128) -> (r: IBig)
    ensures
        r@ == x,
{
    if x >= 0 {
        IBig::from_ubig(ubig_from_unsigned(x as u128))
    } else {
        let mag = ((-(x + 1)) as u128) + 1;
        IBig::from_sign_magnitude(Sign::Negative, ubig_from_unsigned(mag))
    }
}

/// Try to convert `IBig` to an unsigned primitive.
pub fn unsigned_from_ibig(num: &IBig) -> (r: Result<u128, OutOfBoundsError>)
    ensures
        r is Ok <==> 0 <= num@ <= u128::MAX,
        r matches Ok(v) ==> v == num@,
{
    if num.is_negative() {
        Err(OutOfBoundsError)
    } else {
        unsigned_from_ubig(num.magnitude())
    }
}

/// Try to convert `IBig` to a signed primitive.
pub fn signed_from_ibig(num: &IBig) -> (r: Result<i128, OutOfBoundsError>)
    ensures
        r is Ok <==> i128::MIN <= num@ <= i128::MAX,
        r matches Ok(v) ==> v == num@,
{
    let negative = num.is_negative();
    match unsigned_from_ubig(num.magnitude()) {
        Ok(u) => {
            if !negative {
                if u <= 0x7fff_ffff_ffff_ffff_ffff_ffff_ffff_ffff {
                    Ok(u as i128)
                } else {
                    Err(OutOfBoundsError)
                }
            } else if u < 0x8000_0000_0000_0000_0000_0000_0000_0000 {
                Ok(-(u as i128))
            } else if u == 0x8000_0000_0000_0000_0000_0000_0000_0000 {
                Ok(i128::MIN)
            } else {
                Err(OutOfBoundsError)
            }
        },
        Err(e) => Err(e),
    }
}

/// Try to convert `IBig` to `UBig`.
pub fn ubig_from_ibig(x: IBig) -> (r: Result<UBig, OutOfBoundsError>)
    ensures
        r is Ok <==> x@ >= 0,
        r matches Ok(v) ==> v@ == x@,
{
    if x.is_negative() {
        Err(OutOfBoundsError)
    } else {
        let (_sign, mag) = x.into_sign_magnitude();
        Ok(mag)
    }
}

} // verus!
