//! Word buffer.

use crate::primitive::Word;
use crate::value::zeros;
use vstd::prelude::*;

verus! {

/// Maximum length of a `UBig` in words: the number of bits still fits in a `usize`.
pub const MAX_LEN: usize = usize::MAX / 64;

/// Maximum number of `Word`s in a `Buffer`.
///
/// We allow 4 extra words beyond `MAX_LEN` to allow temporary space in operations.
pub const MAX_CAPACITY: usize = usize::MAX / 64 + 4;

/// Default capacity for a given number of words: `2 + 0.125 * num_words` extra space.
pub open spec fn spec_default_capacity(num_words: nat) -> nat {
    let c = num_words + num_words / 8 + 2;
    if c <= MAX_CAPACITY {
        c
    } else {
        MAX_CAPACITY as nat
    }
}

/// Maximum compact capacity for a given number of words: `4 + 0.25 * num_words` overhead.
pub open spec fn spec_max_compact_capacity(num_words: nat) -> nat {
    let c = num_words + num_words / 4 + 4;
    if c <= MAX_CAPACITY {
        c
    } else {
        MAX_CAPACITY as nat
    }
}

/// Buffer for Words.
///
/// UBig operations are usually performed by creating a Buffer with appropriate capacity, filling it
/// in with Words, and then converting to UBig.
///
/// The buffer never holds more words than its capacity.
#[derive(Debug)]
pub struct Buffer {
    words: Vec<Word>,
    capacity: usize,
}

impl View for Buffer {
    type V = Seq<Word>;

    closed spec fn view(&self) -> Seq<Word> {
        self.words@
    }
}

impl Buffer {
    /// The capacity of the buffer.
    pub closed spec fn cap(&self) -> nat {
        self.capacity as nat
    }

    /// Well-formedness: the content fits in the capacity, which is bounded.
    pub closed spec fn wf(&self) -> bool {
        self.words@.len() <= self.capacity <= MAX_CAPACITY
    }

    /// A well-formed buffer holds at most its capacity, which is at most `MAX_CAPACITY`.
    pub proof fn lemma_wf(&self)
        requires
            self.wf(),
        ensures
            self@.len() <= self.cap() <= MAX_CAPACITY,
    {
    }

    /// Default capacity for a given number of `Word`s.
    /// It is between `num_words` and `max_compact_capacity(num_words)`.
    pub fn default_capacity(num_words: usize) -> (r: usize)
        requires
            num_words <= MAX_CAPACITY,
        ensures
            r == spec_default_capacity(num_words as nat),
            num_words <= r <= MAX_CAPACITY,
    {
        let c = num_words + num_words / 8 + 2;
        if c <= MAX_CAPACITY {
            c
        } else {
            MAX_CAPACITY
        }
    }

    /// Maximum compact capacity for a given number of `Word`s.
    pub fn max_compact_capacity(num_words: usize) -> (r: usize)
        requires
            num_words <= MAX_CAPACITY,
        ensures
            r == spec_max_compact_capacity(num_words as nat),
            num_words <= r <= MAX_CAPACITY,
    {
        let c = num_words + num_words / 4 + 4;
        if c <= MAX_CAPACITY {
            c
        } else {
            MAX_CAPACITY
        }
    }

    /// Creates a `Buffer` with at least specified capacity.
    ///
    /// It leaves some extra space for future growth.
    pub fn allocate(num_words: usize) -> (r: Buffer)
        requires
            num_words <= MAX_CAPACITY,
        ensures
            r.wf(),
            r@ == Seq::<Word>::empty(),
            r.cap() == spec_default_capacity(num_words as nat),
    {
        let capacity = Buffer::default_capacity(num_words);
        Buffer { words: Vec::with_capacity(capacity), capacity }
    }

    /// Ensure there is enough capacity in the buffer for `num_words`. Will reallocate if there is
    /// not enough.
    pub fn ensure_capacity(&mut self, num_words: usize)
        requires
            old(self).wf(),
            num_words <= MAX_CAPACITY,
        ensures
            final(self).wf(),
            final(self)@ == old(self)@,
            final(self).cap() == if num_words > old(self).cap() {
                spec_default_capacity(num_words as nat)
            } else {
                old(self).cap()
            },
            final(self).cap() >= num_words,
    {
        if num_words > self.capacity {
            self.reallocate(num_words);
        }
    }

    /// Makes sure that the capacity is compact.
    pub fn shrink(&mut self)
        requires
            old(self).wf(),
        ensures
            final(self).wf(),
            final(self)@ == old(self)@,
            final(self).cap() == if old(self).cap() > spec_max_compact_capacity(old(self)@.len()) {
                spec_default_capacity(old(self)@.len())
            } else {
                old(self).cap()
            },
    {
        if self.capacity > Buffer::max_compact_capacity(self.words.len()) {
            let n = self.words.len();
            self.reallocate(n);
        }
    }

    /// Change capacity to store `num_words` plus some extra space for future growth.
    pub fn reallocate(&mut self, num_words: usize)
        requires
            old(self).wf(),
            num_words >= old(self)@.len(),
            num_words <= MAX_CAPACITY,
        ensures
            final(self).wf(),
            final(self)@ == old(self)@,
            final(self).cap() == spec_default_capacity(num_words as nat),
    {
        let mut new_buffer = Buffer::allocate(num_words);
        new_buffer.clone_from(self);
        *self = new_buffer;
    }

    /// Return buffer capacity.
    pub fn capacity(&self) -> (r: usize)
        requires
            self.wf(),
        ensures
            r == self.cap(),
            self@.len() <= r <= MAX_CAPACITY,
    {
        self.capacity
    }

    /// Number of words in the buffer.
    pub fn len(&self) -> (r: usize)
        ensures
            r == self@.len(),
    {
        self.words.len()
    }

    /// The words of the buffer.
    pub fn as_slice(&self) -> (r: &[Word])
        ensures
            r@ == self@,
    {
        self.words.as_slice()
    }

    /// The words of the buffer, to be modified in place.
    pub fn as_mut_slice(&mut self) -> (r: &mut [Word])
        ensures
            r@ == old(self)@,
            final(self)@ == final(r)@,
            final(self).cap() == old(self).cap(),
            old(self).wf() && final(r)@.len() == r@.len() ==> final(self).wf(),
    {
        self.words.as_mut_slice()
    }

    /// Append a Word to the buffer.
    pub fn push(&mut self, word: Word)
        requires
            old(self).wf(),
            old(self)@.len() < old(self).cap(),
        ensures
            final(self).wf(),
            final(self)@ == old(self)@.push(word),
            final(self).cap() == old(self).cap(),
    {
        self.words.push(word);
    }

    /// Append a Word and reallocate if necessary.
    pub fn push_may_reallocate(&mut self, word: Word)
        requires
            old(self).wf(),
            old(self)@.len() < MAX_CAPACITY,
        ensures
            final(self).wf(),
            final(self)@ == old(self)@.push(word),
            final(self).cap() == if old(self)@.len() + 1 > old(self).cap() {
                spec_default_capacity(old(self)@.len() + 1)
            } else {
                old(self).cap()
            },
    {
        let n = self.words.len() + 1;
        self.ensure_capacity(n);
        self.push(word);
    }

    /// Append `n` zeros.
    pub fn push_zeros(&mut self, n: usize)
        requires
            old(self).wf(),
            n <= old(self).cap() - old(self)@.len(),
        ensures
            final(self).wf(),
            final(self)@ == old(self)@ + zeros(n as nat),
            final(self).cap() == old(self).cap(),
    {
        let ghost w0 = self.words@;
        let mut i: usize = 0;
        while i < n
            invariant
                0 <= i <= n,
                self.words@ == w0 + zeros(i as nat),
                self.capacity == old(self).capacity,
                w0.len() + n <= self.capacity <= MAX_CAPACITY,
            decreases n - i,
        {
            self.words.push(0);
            i += 1;
            assert(self.words@ =~= w0 + zeros(i as nat));
        }
    }

    /// Insert `n` zeros in front.
    pub fn push_zeros_front(&mut self, n: usize)
        requires
            old(self).wf(),
            n <= old(self).cap() - old(self)@.len(),
        ensures
            final(self).wf(),
            final(self)@ == zeros(n as nat) + old(self)@,
            final(self).cap() == old(self).cap(),
    {
        let mut words: Vec<Word> = Vec::with_capacity(self.capacity);
        let mut i: usize = 0;
        while i < n
            invariant
                0 <= i <= n,
                words@ == zeros(i as nat),
            decreases n - i,
        {
            words.push(0);
            i += 1;
            assert(words@ =~= zeros(i as nat));
        }
        let len = self.words.len();
        let mut j: usize = 0;
        while j < len
            invariant
                0 <= j <= len,
                len == self.words@.len(),
                words@ == zeros(n as nat) + self.words@.take(j as int),
            decreases len - j,
        {
            words.push(self.words[j]);
            j += 1;
            assert(words@ =~= zeros(n as nat) + self.words@.take(j as int));
        }
        assert(self.words@.take(len as int) =~= self.words@);
        self.words = words;
    }

    /// Pop the most significant `Word`.
    pub fn pop(&mut self) -> (r: Option<Word>)
        requires
            old(self).wf(),
        ensures
            final(self).wf(),
            final(self).cap() == old(self).cap(),
            old(self)@.len() == 0 ==> r.is_none() && final(self)@ == old(self)@,
            old(self)@.len() > 0 ==> r == Some(old(self)@.last()) && final(self)@
                == old(self)@.drop_last(),
    {
        self.words.pop()
    }

    /// Pop leading zero words.
    pub fn pop_leading_zeros(&mut self)
        requires
            old(self).wf(),
        ensures
            final(self).wf(),
            final(self).cap() == old(self).cap(),
            crate::value::is_normalized(final(self)@),
            final(self)@.len() <= old(self)@.len(),
            final(self)@ == old(self)@.take(final(self)@.len() as int),
            forall|i: int| final(self)@.len() <= i < old(self)@.len() ==> old(self)@[i] == 0,
    {
        let ghost w0 = self.words@;
        while self.words.len() > 0 && self.words[self.words.len() - 1] == 0
            invariant
                self.wf(),
                self.capacity == old(self).capacity,
                self.words@ == w0.take(self.words@.len() as int),
                self.words@.len() <= w0.len(),
                forall|i: int| self.words@.len() <= i < w0.len() ==> w0[i] == 0,
            decreases self.words@.len(),
        {
            self.words.pop();
            assert(self.words@ =~= w0.take(self.words@.len() as int));
        }
    }

    /// Truncate length to `len`.
    pub fn truncate(&mut self, len: usize)
        requires
            old(self).wf(),
            old(self)@.len() >= len,
        ensures
            final(self).wf(),
            final(self).cap() == old(self).cap(),
            final(self)@ == old(self)@.take(len as int),
    {
        self.words.truncate(len);
    }

    /// Erase first n elements.
    pub fn erase_front(&mut self, n: usize)
        requires
            old(self).wf(),
            old(self)@.len() >= n,
        ensures
            final(self).wf(),
            final(self).cap() == old(self).cap(),
            final(self)@ == old(self)@.skip(n as int),
    {
        let mut words: Vec<Word> = Vec::with_capacity(self.capacity);
        let len = self.words.len();
        let mut j: usize = n;
        while j < len
            invariant
                n <= j <= len,
                len == self.words@.len(),
                words@ == self.words@.subrange(n as int, j as int),
            decreases len - j,
        {
            words.push(self.words[j]);
            j += 1;
            assert(words@ =~= self.words@.subrange(n as int, j as int));
        }
        assert(self.words@.subrange(n as int, len as int) =~= self.words@.skip(n as int));
        self.words = words;
    }

    /// Append the words of a slice.
    pub fn extend(&mut self, words: &[Word])
        requires
            old(self).wf(),
            old(self)@.len() + words@.len() <= old(self).cap(),
        ensures
            final(self).wf(),
            final(self).cap() == old(self).cap(),
            final(self)@ == old(self)@ + words@,
    {
        let ghost w0 = self.words@;
        let n = words.len();
        let mut i: usize = 0;
        while i < n
            invariant
                0 <= i <= n,
                n == words@.len(),
                self.words@ == w0 + words@.take(i as int),
                self.capacity == old(self).capacity,
                w0.len() + n <= self.capacity <= MAX_CAPACITY,
            decreases n - i,
        {
            self.words.push(words[i]);
            i += 1;
            assert(self.words@ =~= w0 + words@.take(i as int));
        }
        assert(words@.take(n as int) =~= words@);
    }

    /// Clone from `source`, keeping the capacity.
    pub fn clone_from(&mut self, source: &Buffer)
        requires
            old(self).wf(),
            old(self).cap() >= source@.len(),
        ensures
            final(self).wf(),
            final(self).cap() == old(self).cap(),
            final(self)@ == source@,
    {
        self.words.clear();
        self.extend(source.as_slice());
        assert(Seq::<Word>::empty() + source@ =~= source@);
    }

    /// A copy of the buffer, sized as `Buffer::allocate(self.len())`.
    pub fn clone(&self) -> (r: Buffer)
        requires
            self.wf(),
        ensures
            r.wf(),
            r@ == self@,
            r.cap() == spec_default_capacity(self@.len()),
    {
        let mut new_buffer = Buffer::allocate(self.words.len());
        new_buffer.clone_from(self);
        new_buffer
    }

    /// Clone from `source` and resize if necessary.
    ///
    /// Equivalent to, but more efficient than:
    /// `ensure_capacity(source.len())`, `clone_from(source)`, `shrink()`.
    pub fn resizing_clone_from(&mut self, source: &Buffer)
        requires
            old(self).wf(),
            source.wf(),
        ensures
            final(self).wf(),
            final(self)@ == source@,
            final(self).cap() == if old(self).cap() >= source@.len() && old(self).cap()
                <= spec_max_compact_capacity(source@.len()) {
                old(self).cap()
            } else {
                spec_default_capacity(source@.len())
            },
    {
        let cap = self.capacity;
        let n = source.words.len();
        if cap >= n && cap <= Buffer::max_compact_capacity(n) {
            self.clone_from(source);
        } else {
            *self = source.clone();
        }
    }

    /// Equality of contents (the capacity is not compared).
    pub fn eq(&self, other: &Buffer) -> (r: bool)
        ensures
            r == (self@ == other@),
    {
        let n = self.words.len();
        if n != other.words.len() {
            return false;
        }
        let mut i: usize = 0;
        while i < n
            invariant
                0 <= i <= n,
                n == self@.len(),
                n == other@.len(),
                forall|j: int| 0 <= j < i ==> self@[j] == other@[j],
            decreases n - i,
        {
            if self.words[i] != other.words[i] {
                return false;
            }
            i += 1;
        }
        assert(self@ =~= other@);
        true
    }
}

} // verus!
