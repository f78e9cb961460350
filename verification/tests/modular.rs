use ibig::convert::{ibig_from_signed, ubig_from_unsigned};
use ibig::modular::ModuloRing;
use ibig::modular_small::{ModuloRingSmall, ModuloSmallRaw};
use ibig::ntt::{fields, generate_roots, inverse_roots, max_order_root, roots, RingElement};
use ibig::ubig::UBig;

#[test]
fn test_pow_word() {
    let ring = ModuloRingSmall::new(100);
    let a = ModuloSmallRaw::from_word(17, &ring);
    assert_eq!(a.pow_word(0, &ring).residue(&ring), 1);
    assert_eq!(a.pow_word(15, &ring).residue(&ring), 93);
}

#[test]
fn test_inverse() {
    let f = fields();
    let one = RingElement::from_word(1, &f);
    let root = max_order_root(&f);
    assert_eq!(root.inverse(&f).mul(&root, &f), one);
    assert_eq!(root.inverse(&f).inverse(&f), root);
}

#[test]
fn test_roots() {
    let f = fields();
    let one = RingElement::from_word(1, &f);
    let r = roots(&f);
    let ir = inverse_roots(&f);
    assert_eq!(r[0], one);
    assert_ne!(r[1], one);
    assert_eq!(ir[0], one);
    assert_ne!(ir[1], one);
}

#[test]
fn test_generate_roots_squares() {
    let f = fields();
    let r = generate_roots(max_order_root(&f), &f);
    for k in 1..r.len() {
        assert_eq!(r[k].mul(&r[k], &f), r[k - 1]);
    }
}

fn ubig(x: u128) -> UBig {
    ubig_from_unsigned(x)
}

#[test]
fn test_ring_modulus() {
    let ring = ModuloRing::new(&ubig(100));
    assert_eq!(ring.modulus(), ubig(100));
    let big = ubig(1 << 100);
    let ring = ModuloRing::new(&big);
    assert_eq!(ring.modulus(), big);
}

#[test]
fn test_from_and_residue() {
    let ring = ModuloRing::new(&ubig(10000));
    let x = ring.from(ibig_from_signed(12345));
    assert_eq!(x.residue(), ubig(2345));
    let y = x.neg();
    assert_eq!(y.residue(), ubig(7655));
    let ring = ModuloRing::new(&ubig(100));
    let x = ring.from(ibig_from_signed(-1234));
    assert_eq!(x.residue(), ubig(66));
    let y = ring.from_ubig(ubig(3366));
    assert!(x == y);
}

#[test]
fn test_add_sub_mul() {
    let ring = ModuloRing::new(&ubig(10000));
    let x = ring.from(ibig_from_signed(12345));
    let y = ring.from(ibig_from_signed(55443));
    assert_eq!(x.sub(&y).residue(), ubig(6902));
    assert_eq!(x.add(&y).residue(), ubig((12345 + 55443) % 10000));
    assert_eq!(x.mul(&y).residue(), ubig((12345 * 55443) % 10000));
    // a value minus itself is zero, plus its negation is zero
    assert_eq!(x.sub(&x).residue(), ubig(0));
    assert_eq!(x.add(&x.neg()).residue(), ubig(0));
    // a large modulus
    let m = ubig((1u128 << 100) + 7);
    let ring = ModuloRing::new(&m);
    let a = ring.from_ubig(ubig((1u128 << 99) + 12345));
    let b = ring.from_ubig(ubig((1u128 << 99) + 999));
    let expected = ((1u128 << 99) + 12345 + (1u128 << 99) + 999) - ((1u128 << 100) + 7);
    assert_eq!(a.add(&b).residue(), ubig(expected));
    assert_eq!(a.add(&b).sub(&b), a);
}

#[test]
fn test_inverse_modulo() {
    let ring = ModuloRing::new(&ubig(10));
    assert_eq!(ring.from(ibig_from_signed(7)).inverse(), Some(ring.from(ibig_from_signed(3))));
    assert_eq!(ring.from(ibig_from_signed(2)).inverse(), None);
    assert_eq!(ring.from(ibig_from_signed(7)).inv(), Some(ring.from(ibig_from_signed(3))));
    assert_eq!(ring.from(ibig_from_signed(0)).inv(), None);
    // a ring of one element: zero is its own inverse, but `inv` gives none
    let one = ModuloRing::new(&ubig(1));
    assert!(one.from(ibig_from_signed(5)).inverse().is_some());
    assert!(one.from(ibig_from_signed(5)).inv().is_none());
    // division undoes multiplication
    let a = ring.from(ibig_from_signed(4));
    let b = ring.from(ibig_from_signed(7));
    assert_eq!(a.mul(&b).div(&b), a);
}

#[test]
fn test_pow_modulo() {
    let ring = ModuloRing::new(&ubig(10));
    assert_eq!(ring.from(ibig_from_signed(2)).pow_signed(&ibig_from_signed(4)), ring.from(ibig_from_signed(6)));
    assert_eq!(ring.from(ibig_from_signed(3)).pow_signed(&ibig_from_signed(-3)), ring.from(ibig_from_signed(3)));
    assert_eq!(ring.from(ibig_from_signed(3)).pow(&ubig(0)).residue(), ubig(1));
    assert_eq!(ring.from(ibig_from_signed(3)).pow(&ubig(1)).residue(), ubig(3));
    assert_eq!(ring.from(ibig_from_signed(3)).pow(&ubig(2)).residue(), ubig(9));
    assert_eq!(ring.from(ibig_from_signed(3)).pow(&ubig(5)).residue(), ubig(3));
}

#[test]
fn test_fermat_mersenne_127() {
    // A Mersenne prime: a^(p-1) = 1 and a^(p-2) is the inverse.
    let p = ubig((1u128 << 127) - 1);
    let ring = ModuloRing::new(&p);
    let a = ring.from(ibig_from_signed(123));
    let ainv = a.inv().unwrap();
    assert_eq!(ainv, a.pow(&ubig((1u128 << 127) - 3)));
    assert_eq!(a.mul(&ainv).residue(), ubig(1));
    assert_eq!(a.pow(&ubig((1u128 << 127) - 2)).residue(), ubig(1));
}

#[test]
fn test_pow_large_modulus() {
    // 2^607 - 1 is a Mersenne prime: a^(p-1) = 1.
    let one = ubig(1);
    let p = ubig(2).pow(607).sub(&one);
    let ring = ModuloRing::new(&p);
    let a = ring.from(ibig_from_signed(123));
    assert_eq!(a.pow(&p.sub(&one)), ring.from(ibig_from_signed(1)));
    // and a small exponent by hand
    let b = ring.from(ibig_from_signed(7));
    assert_eq!(b.pow(&ubig(13)).residue(), ubig(7u128.pow(13)));
}

#[test]
fn test_roots_are_powers_of_the_root() {
    let f = fields();
    let one = RingElement::from_word(1, &f);
    let r = roots(&f);
    let ir = inverse_roots(&f);
    let root = max_order_root(&f);
    assert_eq!(r[r.len() - 1], root);
    assert_eq!(ir[ir.len() - 1], root.inverse(&f));
    for k in 0..r.len() {
        assert_eq!(r[k].mul(&ir[k], &f), one);
    }
    for k in 1..r.len() {
        assert_eq!(r[k].mul(&r[k], &f), r[k - 1]);
        assert_eq!(ir[k].mul(&ir[k], &f), ir[k - 1]);
    }
}
