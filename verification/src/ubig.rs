//! Unsigned big integer.

use crate::buffer::{spec_default_capacity, spec_max_compact_capacity, Buffer, MAX_CAPACITY, MAX_LEN};
use crate::primitive::Word;
use crate::value::{
    is_normalized, lemma_normalized_len_bound, lemma_to_nat_injective, lemma_to_nat_single,
    lemma_to_nat_take_zero_tail, pow_base, to_nat,
};
use vstd::prelude::*;

verus! {

/// `x` fits in a `UBig`: it has at most `MAX_LEN` words.
pub open spec fn fits(x: nat) -> bool {
    x < pow_base(MAX_LEN as nat)
}

/// Unsigned big integer.
///
/// The words are stored little-endian, without leading zero words.
#[derive(Debug)]
pub struct UBig {
    buffer: Buffer,
}

impl View for UBig {
    type V = nat;

    open spec fn view(&self) -> nat {
        to_nat(self.words())
    }
}

impl UBig {
    /// The words of the number, least significant first.
    pub closed spec fn words(&self) -> Seq<Word> {
        self.buffer@
    }

    /// The capacity of the storage.
    pub closed spec fn cap(&self) -> nat {
        self.buffer.cap()
    }

    #[verifier::type_invariant]
    closed spec fn inv(&self) -> bool {
        &&& self.buffer.wf()
        &&& is_normalized(self.buffer@)
        &&& self.buffer@.len() <= MAX_LEN
        &&& self.buffer@.len() >= 2 ==> self.buffer.cap() <= spec_max_compact_capacity(
            self.buffer@.len(),
        )
    }

    /// The words of the number, least significant first, without leading zeros.
    pub fn as_words(&self) -> (r: &[Word])
        ensures
            r@ == self.words(),
            is_normalized(r@),
            r@.len() <= MAX_LEN,
            to_nat(r@) == self@,
    {
        proof {
            use_type_invariant(self);
            self.buffer.lemma_wf();
        }
        self.buffer.as_slice()
    }

    /// Number of words.
    pub fn len(&self) -> (r: usize)
        ensures
            r == self.words().len(),
            r <= MAX_LEN,
    {
        proof {
            use_type_invariant(self);
            self.buffer.lemma_wf();
        }
        self.buffer.len()
    }

    /// Capacity in words.
    pub fn capacity(&self) -> (r: usize)
        ensures
            r == self.cap(),
    {
        proof {
            use_type_invariant(self);
        }
        self.buffer.capacity()
    }

    /// Create a number from a single word.
    pub fn from_word(word: Word) -> (r: UBig)
        ensures
            r@ == word,
    {
        let mut buffer = Buffer::allocate(1);
        if word != 0 {
            buffer.push(word);
            proof {
                assert(buffer@ =~= seq![word]);
                lemma_to_nat_single(word);
            }
        }
        UBig { buffer }
    }

    /// Is the number zero?
    pub fn is_zero(&self) -> (r: bool)
        ensures
            r == (self@ == 0),
    {
        proof {
            use_type_invariant(self);
            if self.buffer@.len() > 0 {
                crate::value::lemma_to_nat_normalized_lower(self.buffer@);
                crate::value::lemma_pow_base_pos((self.buffer@.len() - 1) as nat);
            }
        }
        self.buffer.len() == 0
    }

    /// Is the number one?
    pub fn is_one(&self) -> (r: bool)
        ensures
            r == (self@ == 1),
    {
        proof {
            use_type_invariant(self);
            let s = self.buffer@;
            if s.len() >= 2 {
                crate::value::lemma_to_nat_normalized_lower(s);
                crate::value::lemma_pow_base_mono(1, (s.len() - 1) as nat);
                crate::value::lemma_pow_base_step(0);
            }
            if s.len() == 1 {
                assert(s =~= seq![s[0]]);
                lemma_to_nat_single(s[0]);
            }
        }
        self.buffer.len() == 1 && self.buffer.as_slice()[0] == 1
    }

    /// Converts a buffer to a number, dropping leading zero words.
    ///
    /// If the buffer was allocated with `Buffer::allocate(n)` and the normalized length is
    /// close to `n`, there is no reallocation here.
    pub fn from_buffer(buffer: Buffer) -> (r: UBig)
        requires
            buffer.wf(),
            fits(to_nat(buffer@)),
        ensures
            r@ == to_nat(buffer@),
            r.words() == buffer@.take(r.words().len() as int),
            r.words().len() >= 2 ==> r.cap() == if buffer.cap() > spec_max_compact_capacity(
                r.words().len(),
            ) {
                spec_default_capacity(r.words().len())
            } else {
                buffer.cap()
            },
    {
        let mut buffer = buffer;
        let ghost b0 = buffer@;
        buffer.pop_leading_zeros();
        proof {
            lemma_to_nat_take_zero_tail(b0, buffer@.len() as int);
            lemma_normalized_len_bound(buffer@, MAX_LEN as nat);
        }
        let n = buffer.len();
        if n >= 2 && buffer.capacity() > Buffer::max_compact_capacity(n) {
            buffer.reallocate(n);
        }
        UBig { buffer }
    }

    /// The buffer holding the words of the number.
    pub fn into_buffer(self) -> (r: Buffer)
        ensures
            r.wf(),
            r@ == self.words(),
            r.cap() == self.cap(),
            is_normalized(r@),
            r@.len() <= MAX_LEN,
            to_nat(r@) == self@,
    {
        proof {
            use_type_invariant(&self);
        }
        self.buffer
    }

    /// A copy of the number.
    pub fn clone(&self) -> (r: UBig)
        ensures
            r@ == self@,
            r.words() == self.words(),
    {
        proof {
            use_type_invariant(self);
        }
        UBig { buffer: self.buffer.clone() }
    }

    /// The value of a number fits.
    pub fn value_fits(&self)
        ensures
            fits(self@),
            self.words().len() <= MAX_LEN,
            is_normalized(self.words()),
    {
        proof {
            use_type_invariant(self);
            UBig::lemma_words_fit(self.buffer@);
        }
    }

    /// The value of at most `MAX_LEN` words fits.
    pub proof fn lemma_words_fit(s: Seq<Word>)
        requires
            s.len() <= MAX_LEN,
        ensures
            fits(to_nat(s)),
    {
        crate::value::lemma_to_nat_bound(s);
        crate::value::lemma_pow_base_mono(s.len(), MAX_LEN as nat);
    }

    /// Numbers of at most two words fit.
    pub proof fn lemma_fits_small(x: nat)
        requires
            x < pow_base(2),
        ensures
            fits(x),
    {
        crate::value::lemma_pow_base_mono(2, MAX_LEN as nat);
    }

    /// Bound on the length of a number that fits.
    pub proof fn lemma_fits_len(s: Seq<Word>, x: nat)
        requires
            is_normalized(s),
            to_nat(s) <= x,
            fits(x),
        ensures
            s.len() <= MAX_LEN,
    {
        lemma_normalized_len_bound(s, MAX_LEN as nat);
    }
}

impl PartialEq for UBig {
    fn eq(&self, other: &Self) -> (r: bool) {
        proof {
            use_type_invariant(self);
            use_type_invariant(other);
            if self.buffer@ != other.buffer@ && to_nat(self.buffer@) == to_nat(other.buffer@) {
                lemma_to_nat_injective(self.buffer@, other.buffer@);
            }
        }
        self.buffer.eq(&other.buffer)
    }
}

impl vstd::std_specs::cmp::PartialEqSpecImpl for UBig {
    open spec fn obeys_eq_spec() -> bool {
        true
    }

    open spec fn eq_spec(&self, other: &UBig) -> bool {
        self@ == other@
    }
}

impl Eq for UBig {

}

} // verus!
