//! Machine words and double words.

use vstd::prelude::*;

verus! {

/// Machine word.
pub type Word = u64;

/// Signed machine word.
pub type SignedWord = i64;

/// Double machine word.
pub type DoubleWord = u128;

/// Number of bits in a `Word`.
pub const WORD_BITS: u32 = 64;

/// Number of bits in a `Word`, as a `usize`.
pub const WORD_BITS_USIZE: usize = 64;

/// Number of bytes in a `Word`.
pub const WORD_BYTES: usize = 8;

/// Sizes of the unsigned primitive integer types.
pub trait PrimitiveUnsigned: Copy {
    /// Size in bytes.
    const BYTE_SIZE: usize;
    /// Size in bits.
    const BIT_SIZE: u32;
}

impl PrimitiveUnsigned for u8 {
    const BYTE_SIZE: usize = 1;
    const BIT_SIZE: u32 = 8;
}

impl PrimitiveUnsigned for u16 {
    const BYTE_SIZE: usize = 2;
    const BIT_SIZE: u32 = 16;
}

impl PrimitiveUnsigned for u32 {
    const BYTE_SIZE: usize = 4;
    const BIT_SIZE: u32 = 32;
}

impl PrimitiveUnsigned for u64 {
    const BYTE_SIZE: usize = 8;
    const BIT_SIZE: u32 = 64;
}

impl PrimitiveUnsigned for u128 {
    const BYTE_SIZE: usize = 16;
    const BIT_SIZE: u32 = 128;
}

/// The number of distinct values of a `Word`: 2^64.
pub open spec fn word_base() -> nat {
    0x1_0000_0000_0000_0000
}

} // verus!

verus! {

/// Splits a signed word into its sign and magnitude.
pub fn signed_to_sign_magnitude(x: SignedWord) -> (r: (crate::sign::Sign, Word))
    ensures
        r.0.factor() * (r.1 as int) == x,
        x == 0 ==> r.0 == crate::sign::Sign::Positive,
{
    if x >= 0 {
        (crate::sign::Sign::Positive, x as Word)
    } else if x == SignedWord::MIN {
        (crate::sign::Sign::Negative, 0x8000_0000_0000_0000)
    } else {
        (crate::sign::Sign::Negative, (-x) as Word)
    }
}

} // verus!

verus! {

/// `a * b <= (B-1)^2` for words.
pub proof fn lemma_mul_word_bound(a: Word, b: Word)
    ensures
        (a as nat) * (b as nat) <= (word_base() - 1) * (word_base() - 1),
        (a as nat) * (b as nat) <= 0xffff_ffff_ffff_fffe_0000_0000_0000_0001,
{
    assert((word_base() - 1) * (word_base() - 1) == 0xffff_ffff_ffff_fffe_0000_0000_0000_0001)
        by (nonlinear_arith);
    vstd::arithmetic::mul::lemma_mul_upper_bound(
        a as int,
        (word_base() - 1) as int,
        b as int,
        (word_base() - 1) as int,
    );
}

/// Extend a `Word` into a `DoubleWord`.
pub fn extend_word(word: Word) -> (r: DoubleWord)
    ensures
        r == word,
{
    word as DoubleWord
}

/// Create a `DoubleWord` from two `Word`s.
pub fn double_word(low: Word, high: Word) -> (r: DoubleWord)
    ensures
        r == low + high * word_base(),
{
    (low as DoubleWord) + (high as DoubleWord) * 0x1_0000_0000_0000_0000
}

/// Split a `DoubleWord` into (low, high).
pub fn split_double_word(dw: DoubleWord) -> (r: (Word, Word))
    ensures
        r.0 + r.1 * word_base() == dw,
{
    let lo = (dw % 0x1_0000_0000_0000_0000) as Word;
    let hi = (dw / 0x1_0000_0000_0000_0000) as Word;
    proof {
        vstd::arithmetic::div_mod::lemma_fundamental_div_mod(dw as int, word_base() as int);
        vstd::arithmetic::mul::lemma_mul_is_commutative(hi as int, word_base() as int);
    }
    (lo, hi)
}

} // verus!
