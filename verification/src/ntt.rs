//! The ring of the number-theoretic transform: integers modulo the product of three word
//! primes, each of the form `k * 2^MAX_ORDER + 1`, held as their three residues.

use crate::modular_pow::{lemma_mpow_mul, mpow};
use crate::modular_small::{ModuloRingSmall, ModuloSmallRaw};
use crate::primitive::Word;
use vstd::arithmetic::power2::{lemma2_to64, pow2};
use vstd::prelude::*;

verus! {

/// The number of prime factors in the ring.
pub const NUM_PRIMES: usize = 3;

/// Maximum order of the number-theoretic transform: 2^57 words of 64 bits are 2^63 bits.
pub const MAX_ORDER: u32 = 57;

/// A prime to be used for the number-theoretic transform.
#[derive(Clone, Copy, Debug, PartialEq, Eq, Structural)]
pub struct Prime {
    /// A prime of the form `k * 2^MAX_ORDER + 1`.
    pub prime: Word,
    /// An element of order `2^MAX_ORDER` modulo `prime`.
    pub max_order_root: Word,
}

/// The primes of the ring and their roots.
pub open spec fn spec_primes() -> Seq<Prime> {
    seq![
        Prime { prime: 0xbe00000000000001, max_order_root: 0x37 },
        Prime { prime: 0xd800000000000001, max_order_root: 0x40 },
        Prime { prime: 0xf600000000000001, max_order_root: 0x1ed },
    ]
}

/// The primes of the ring and their roots.
pub fn primes() -> (r: [Prime; NUM_PRIMES])
    ensures
        r@ == spec_primes(),
{
    let r = [
        Prime { prime: 0xbe00000000000001, max_order_root: 0x37 },
        Prime { prime: 0xd800000000000001, max_order_root: 0x40 },
        Prime { prime: 0xf600000000000001, max_order_root: 0x1ed },
    ];
    proof {
        assert(r@ =~= spec_primes());
    }
    r
}

/// The rings modulo the three primes.
pub fn fields() -> (r: [ModuloRingSmall; NUM_PRIMES])
    ensures
        forall|i: int| 0 <= i < 3 ==> (#[trigger] r@[i]).wf() && r@[i]@ == spec_primes()[i].prime,
{
    let p = primes();
    let r = [ModuloRingSmall::new(p[0].prime), ModuloRingSmall::new(p[1].prime), ModuloRingSmall::new(p[2].prime)];
    proof {
        assert(r@[0]@ == spec_primes()[0].prime);
    }
    r
}

/// The fields are those of the primes.
pub open spec fn fields_ok(fields: [ModuloRingSmall; NUM_PRIMES]) -> bool {
    forall|i: int| 0 <= i < 3 ==> (#[trigger] fields@[i]).wf() && fields@[i]@ == spec_primes()[i].prime
}

/// An element of the three-prime ring.
#[derive(Clone, Copy, Debug, PartialEq, Eq)]
pub struct RingElement {
    pub val: [ModuloSmallRaw; NUM_PRIMES],
}

impl RingElement {
    /// Each residue belongs to its field.
    pub open spec fn is_in(&self, fields: [ModuloRingSmall; NUM_PRIMES]) -> bool {
        &&& fields_ok(fields)
        &&& forall|i: int| 0 <= i < 3 ==> (#[trigger] self.val@[i]).is_in(fields@[i])
    }

    /// The residue modulo prime `i`.
    pub open spec fn residue(&self, fields: [ModuloRingSmall; NUM_PRIMES], i: int) -> nat {
        self.val@[i].value_in(fields@[i])
    }

    /// A word in the ring.
    pub fn from_word(x: Word, fields: &[ModuloRingSmall; NUM_PRIMES]) -> (r: RingElement)
        requires
            fields_ok(*fields),
        ensures
            r.is_in(*fields),
            forall|i: int| 0 <= i < 3 ==> #[trigger] r.residue(*fields, i) == (x as nat) % fields@[i]@,
    {
        let r = RingElement {
            val: [
                ModuloSmallRaw::from_word(x, &fields[0]),
                ModuloSmallRaw::from_word(x, &fields[1]),
                ModuloSmallRaw::from_word(x, &fields[2]),
            ],
        };
        proof {
            assert(fields@[0].wf() && fields@[1].wf() && fields@[2].wf());
        }
        r
    }

    /// Zero.
    pub fn zero() -> (r: RingElement)
        ensures
            forall|i: int| 0 <= i < 3 ==> (#[trigger] r.val@[i]).spec_normalized() == 0,
    {
        RingElement { val: [ModuloSmallRaw::from_normalized(0); NUM_PRIMES] }
    }

    /// `self * rhs`.
    pub fn mul(&self, rhs: &RingElement, fields: &[ModuloRingSmall; NUM_PRIMES]) -> (r: RingElement)
        requires
            self.is_in(*fields),
            rhs.is_in(*fields),
        ensures
            r.is_in(*fields),
            forall|i: int|
                0 <= i < 3 ==> #[trigger] r.residue(*fields, i) == (self.residue(*fields, i) * rhs.residue(
                    *fields,
                    i,
                )) % fields@[i]@,
    {
        proof {
            assert(self.val@[0].is_in(fields@[0]) && rhs.val@[0].is_in(fields@[0]));
            assert(self.val@[1].is_in(fields@[1]) && rhs.val@[1].is_in(fields@[1]));
            assert(self.val@[2].is_in(fields@[2]) && rhs.val@[2].is_in(fields@[2]));
        }
        RingElement {
            val: [
                self.val[0].mul(rhs.val[0], &fields[0]),
                self.val[1].mul(rhs.val[1], &fields[1]),
                self.val[2].mul(rhs.val[2], &fields[2]),
            ],
        }
    }

    /// The inverse, by Fermat's little theorem: each residue to the power `prime - 2`.
    pub fn inverse(&self, fields: &[ModuloRingSmall; NUM_PRIMES]) -> (r: RingElement)
        requires
            self.is_in(*fields),
        ensures
            r.is_in(*fields),
            forall|i: int|
                0 <= i < 3 ==> #[trigger] r.residue(*fields, i) == mpow(
                    self.residue(*fields, i),
                    (spec_primes()[i].prime - 2) as nat,
                    fields@[i]@,
                ),
    {
        let p = primes();
        proof {
            assert(self.val@[0].is_in(fields@[0]));
            assert(self.val@[1].is_in(fields@[1]));
            assert(self.val@[2].is_in(fields@[2]));
        }
        RingElement {
            val: [
                self.val[0].pow_word(p[0].prime - 2, &fields[0]),
                self.val[1].pow_word(p[1].prime - 2, &fields[1]),
                self.val[2].pow_word(p[2].prime - 2, &fields[2]),
            ],
        }
    }
}

/// The element of order `2^MAX_ORDER`: the roots of the three primes.
pub fn max_order_root(fields: &[ModuloRingSmall; NUM_PRIMES]) -> (r: RingElement)
    requires
        fields_ok(*fields),
    ensures
        r.is_in(*fields),
        forall|i: int|
            0 <= i < 3 ==> #[trigger] r.residue(*fields, i) == spec_primes()[i].max_order_root as nat
                % fields@[i]@,
{
    let p = primes();
    proof {
        assert(fields@[0].wf() && fields@[1].wf() && fields@[2].wf());
    }
    RingElement {
        val: [
            ModuloSmallRaw::from_word(p[0].max_order_root, &fields[0]),
            ModuloSmallRaw::from_word(p[1].max_order_root, &fields[1]),
            ModuloSmallRaw::from_word(p[2].max_order_root, &fields[2]),
        ],
    }
}

/// The residue of the root of order `2^MAX_ORDER` modulo prime `i`.
pub open spec fn root_residue(fields: [ModuloRingSmall; NUM_PRIMES], i: int) -> nat {
    spec_primes()[i].max_order_root as nat % fields@[i]@
}

/// `table[order]^(2^order) == 1`: the table of the powers `root^(2^(MAX_ORDER - order))`.
pub fn generate_roots(max_order_root: RingElement, fields: &[ModuloRingSmall; NUM_PRIMES]) -> (r: Vec<
    RingElement,
>)
    requires
        max_order_root.is_in(*fields),
    ensures
        r@.len() == MAX_ORDER + 1,
        forall|k: int| 0 <= k <= MAX_ORDER ==> (#[trigger] r@[k]).is_in(*fields),
        forall|k: int, i: int|
            0 <= k <= MAX_ORDER && 0 <= i < 3 ==> #[trigger] r@[k].residue(*fields, i) == mpow(
                max_order_root.residue(*fields, i),
                pow2((MAX_ORDER - k) as nat),
                fields@[i]@,
            ),
{
    let zero = RingElement::zero();
    let mut table: Vec<RingElement> = Vec::new();
    let mut k: usize = 0;
    while k < MAX_ORDER as usize
        invariant
            k <= MAX_ORDER,
            table@.len() == k,
            forall|j: int| 0 <= j < k ==> #[trigger] table@[j] == zero,
        decreases MAX_ORDER - k,
    {
        table.push(zero);
        k += 1;
    }
    table.push(max_order_root);
    let mut order = MAX_ORDER as usize;
    proof {
        lemma2_to64();
        assert forall|i: int| 0 <= i < 3 implies #[trigger] max_order_root.residue(*fields, i) == mpow(
            max_order_root.residue(*fields, i),
            pow2(0),
            fields@[i]@,
        ) by {
            assert(fields@[i].wf());
            lemma_residue_below(max_order_root, *fields, i);
            vstd::arithmetic::power::lemma_pow1(max_order_root.residue(*fields, i) as int);
            vstd::arithmetic::div_mod::lemma_small_mod(max_order_root.residue(*fields, i), fields@[i]@);
        }
    }
    while order > 0
        invariant
            order <= MAX_ORDER,
            table@.len() == MAX_ORDER + 1,
            max_order_root.is_in(*fields),
            forall|j: int| 0 <= j < order ==> #[trigger] table@[j] == zero,
            forall|j: int| order <= j <= MAX_ORDER ==> (#[trigger] table@[j]).is_in(*fields),
            forall|j: int, i: int|
                order <= j <= MAX_ORDER && 0 <= i < 3 ==> #[trigger] table@[j].residue(*fields, i) == mpow(
                    max_order_root.residue(*fields, i),
                    pow2((MAX_ORDER - j) as nat),
                    fields@[i]@,
                ),
        decreases order,
    {
        let next = table[order].mul(&table[order], fields);
        proof {
            assert forall|i: int| 0 <= i < 3 implies #[trigger] next.residue(*fields, i) == mpow(
                max_order_root.residue(*fields, i),
                pow2((MAX_ORDER - (order - 1)) as nat),
                fields@[i]@,
            ) by {
                let e = pow2((MAX_ORDER - order) as nat);
                assert(table@[order as int].residue(*fields, i) == mpow(
                    max_order_root.residue(*fields, i),
                    e,
                    fields@[i]@,
                ));
                assert(fields@[i].wf());
                lemma_field_positive(*fields, i);
                lemma_mpow_mul(max_order_root.residue(*fields, i), e, e, fields@[i]@);
                vstd::arithmetic::power2::lemma_pow2_unfold((MAX_ORDER - (order - 1)) as nat);
                assert((MAX_ORDER - (order - 1)) as nat - 1 == (MAX_ORDER - order) as nat);
            }
        }
        table.set(order - 1, next);
        order -= 1;
    }
    table
}

/// The moduli are positive.
proof fn lemma_field_positive(fields: [ModuloRingSmall; NUM_PRIMES], i: int)
    requires
        fields_ok(fields),
        0 <= i < 3,
    ensures
        fields@[i]@ >= 1,
{
    assert(fields@[i]@ == spec_primes()[i].prime);
}

/// A residue is below its modulus.
proof fn lemma_residue_below(x: RingElement, fields: [ModuloRingSmall; NUM_PRIMES], i: int)
    requires
        x.is_in(fields),
        0 <= i < 3,
    ensures
        x.residue(fields, i) < fields@[i]@,
{
    x.val@[i].lemma_value_below(fields@[i]);
}

/// `ROOTS[order]^(2^order) == 1`.
pub fn roots(fields: &[ModuloRingSmall; NUM_PRIMES]) -> (r: Vec<RingElement>)
    requires
        fields_ok(*fields),
    ensures
        r@.len() == MAX_ORDER + 1,
        forall|k: int| 0 <= k <= MAX_ORDER ==> (#[trigger] r@[k]).is_in(*fields),
        forall|k: int, i: int|
            0 <= k <= MAX_ORDER && 0 <= i < 3 ==> #[trigger] r@[k].residue(*fields, i) == mpow(
                root_residue(*fields, i),
                pow2((MAX_ORDER - k) as nat),
                fields@[i]@,
            ),
{
    generate_roots(max_order_root(fields), fields)
}

/// `INVERSE_ROOTS[order]^(2^order) == 1`.
pub fn inverse_roots(fields: &[ModuloRingSmall; NUM_PRIMES]) -> (r: Vec<RingElement>)
    requires
        fields_ok(*fields),
    ensures
        r@.len() == MAX_ORDER + 1,
        forall|k: int| 0 <= k <= MAX_ORDER ==> (#[trigger] r@[k]).is_in(*fields),
        forall|k: int, i: int|
            0 <= k <= MAX_ORDER && 0 <= i < 3 ==> #[trigger] r@[k].residue(*fields, i) == mpow(
                mpow(root_residue(*fields, i), (spec_primes()[i].prime - 2) as nat, fields@[i]@),
                pow2((MAX_ORDER - k) as nat),
                fields@[i]@,
            ),
{
    generate_roots(max_order_root(fields).inverse(fields), fields)
}

} // verus!
