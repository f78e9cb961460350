//! Comparison of word sequences.

use crate::primitive::Word;
use crate::value::{idx, lemma_to_nat_top_less, to_nat};
use core::cmp::Ordering;
use vstd::prelude::*;

verus! {

/// `lhs` and `rhs` compared as numbers.
pub open spec fn ordering_of(lhs: nat, rhs: nat) -> Ordering {
    if lhs < rhs {
        Ordering::Less
    } else if lhs == rhs {
        Ordering::Equal
    } else {
        Ordering::Greater
    }
}

/// Compare lhs with rhs as numbers.
pub fn cmp_same_len(lhs: &[Word], rhs: &[Word]) -> (r: Ordering)
    requires
        lhs@.len() == rhs@.len(),
    ensures
        r == ordering_of(to_nat(lhs@), to_nat(rhs@)),
{
    let n = lhs.len();
    let mut i = n;
    while i > 0
        invariant
            i <= n,
            n == lhs@.len(),
            n == rhs@.len(),
            forall|j: int| idx(i) <= j < idx(n) ==> lhs@[j] == rhs@[j],
        decreases i,
    {
        i -= 1;
        if lhs[i] != rhs[i] {
            proof {
                crate::add::lemma_to_nat_common_top(lhs@, rhs@, idx(i) + 1, idx(n));
                assert(lhs@.take(idx(i) + 1).last() == lhs@[idx(i)]);
                assert(rhs@.take(idx(i) + 1).last() == rhs@[idx(i)]);
                assert(lhs@.take(idx(n)) =~= lhs@);
                assert(rhs@.take(idx(n)) =~= rhs@);
                if lhs@[idx(i)] < rhs@[idx(i)] {
                    lemma_to_nat_top_less(lhs@.take(idx(i) + 1), rhs@.take(idx(i) + 1));
                } else {
                    lemma_to_nat_top_less(rhs@.take(idx(i) + 1), lhs@.take(idx(i) + 1));
                }
            }
            if lhs[i] < rhs[i] {
                return Ordering::Less;
            } else {
                return Ordering::Greater;
            }
        }
    }
    proof {
        assert(lhs@ =~= rhs@);
    }
    Ordering::Equal
}

} // verus!

verus! {

/// Is lhs at least rhs as numbers?
pub fn ge_same_len(lhs: &[Word], rhs: &[Word]) -> (r: bool)
    requires
        lhs@.len() == rhs@.len(),
    ensures
        r == (to_nat(lhs@) >= to_nat(rhs@)),
{
    match cmp_same_len(lhs, rhs) {
        Ordering::Less => false,
        _ => true,
    }
}

} // verus!

verus! {

impl crate::ubig::UBig {
    /// Compare two numbers.
    pub fn cmp(&self, other: &crate::ubig::UBig) -> (r: Ordering)
        ensures
            r == ordering_of(self@, other@),
    {
        let a = self.as_words();
        let b = other.as_words();
        if a.len() < b.len() {
            proof {
                if to_nat(b@) <= to_nat(a@) {
                    crate::add_ops::lemma_normalized_shorter(b@, a@);
                }
            }
            Ordering::Less
        } else if a.len() > b.len() {
            proof {
                if to_nat(a@) <= to_nat(b@) {
                    crate::add_ops::lemma_normalized_shorter(a@, b@);
                }
            }
            Ordering::Greater
        } else {
            cmp_same_len(a, b)
        }
    }

    /// Compare two numbers; always `Some`.
    pub fn partial_cmp(&self, other: &crate::ubig::UBig) -> (r: Option<Ordering>)
        ensures
            r == Some(ordering_of(self@, other@)),
    {
        Some(self.cmp(other))
    }
}

impl crate::ubig::UBig {
    /// Is `self` less than `other`?
    pub fn lt(&self, other: &crate::ubig::UBig) -> (r: bool)
        ensures
            r == (self@ < other@),
    {
        match self.cmp(other) {
            Ordering::Less => true,
            _ => false,
        }
    }
}

} // verus!
