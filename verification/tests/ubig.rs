use ibig::convert::{ubig_from_unsigned, unsigned_from_ubig};
use ibig::ubig::UBig;
use rand::rngs::StdRng;
use rand::{Rng, SeedableRng};

fn ubig(x: u128) -> UBig {
    ubig_from_unsigned(x)
}

fn val(x: &UBig) -> u128 {
    unsigned_from_ubig(x).unwrap()
}

#[test]
fn test_ubig_add_sub_small_and_carry() {
    assert_eq!(ubig(3).add(&ubig(4)), ubig(7));
    let a = ubig(u64::MAX as u128);
    assert_eq!(a.add(&ubig(1)), ubig(1 << 64));
    assert_eq!(ubig(1 << 64).sub(&ubig(1)), a);
    assert_eq!(ubig(5).sub(&ubig(5)), ubig(0));
    let mut x = ubig(10);
    x.add_assign(&ubig(5));
    x.sub_assign(&ubig(3));
    assert_eq!(x, ubig(12));
}

#[test]
fn test_ubig_random_arithmetic_matches_u128() {
    let mut rng = StdRng::seed_from_u64(7);
    for _ in 0..2000 {
        let a: u64 = rng.gen();
        let b: u64 = rng.gen::<u64>() | 1;
        let (a, b) = (a as u128, b as u128);
        assert_eq!(val(&ubig(a).mul(&ubig(b))), a * b);
        assert_eq!(val(&ubig(a * b).div(&ubig(b))), a);
        let c: u128 = rng.gen::<u128>() >> 1;
        let d: u128 = (rng.gen::<u128>() >> 70) | 1;
        assert_eq!(val(&ubig(c).add(&ubig(c))), c + c);
        let (q, r) = ubig(c).div_rem(&ubig(d));
        assert_eq!(val(&q), c / d);
        assert_eq!(val(&r), c % d);
        assert_eq!(val(&ubig(c).rem(&ubig(d))), c % d);
    }
}

#[test]
fn test_ubig_large_mul_div_round_trip() {
    // numbers of many words exercise the long multiplication and division
    let mut rng = StdRng::seed_from_u64(3);
    for len in [2usize, 5, 30, 100, 300] {
        let mut a = ubig(1);
        let mut b = ubig(1);
        for _ in 0..len {
            a = a.mul(&ubig(rng.gen::<u64>() as u128 | 1)).add(&ubig(rng.gen::<u64>() as u128));
            b = b.mul(&ubig(rng.gen::<u64>() as u128 | 1)).add(&ubig(rng.gen::<u64>() as u128));
        }
        let p = a.mul(&b);
        assert_eq!(p.div(&b), a);
        assert_eq!(p.rem(&b), ubig(0));
        let r = ubig(12345);
        let q = p.add(&r).div_rem(&b);
        assert_eq!(q.0, a);
        assert_eq!(q.1, r);
        assert_eq!(p.sub(&a.mul(&b)), ubig(0));
    }
}

#[test]
fn test_ubig_shifts() {
    assert_eq!(ubig(1).shl(100), ubig(1 << 100));
    assert_eq!(ubig(0xabcd).shl(64), ubig(0xabcd << 64));
    assert_eq!(ubig(1 << 100).shr(99), ubig(2));
    assert_eq!(ubig(5).shr(10), ubig(0));
    let big = ubig(3).shl(1000);
    assert_eq!(big.shr(1000), ubig(3));
}

#[test]
fn test_ubig_pow() {
    assert_eq!(ubig(3).pow(0), ubig(1));
    assert_eq!(ubig(3).pow(5), ubig(243));
    assert_eq!(ubig(2).pow(100), ubig(1 << 100));
    assert_eq!(ubig(10).pow(30), ubig(10u128.pow(30)));
}

#[test]
fn test_ubig_compare() {
    assert!(ubig(3).lt(&ubig(4)));
    assert!(!ubig(4).lt(&ubig(4)));
    assert!(ubig(1 << 64).lt(&ubig(1 << 65)));
    assert_eq!(ubig(7).cmp(&ubig(7)), std::cmp::Ordering::Equal);
    assert_eq!(ubig(8).cmp(&ubig(7)), std::cmp::Ordering::Greater);
}

#[test]
fn test_ubig_zero_one() {
    assert!(ubig(0).is_zero());
    assert!(!ubig(1).is_zero());
    assert!(ubig(1).is_one());
    assert!(!ubig(1 << 64).is_one());
}

fn random_ubig(rng: &mut StdRng, words: usize) -> UBig {
    let mut bytes = Vec::new();
    for _ in 0..words * 8 {
        bytes.push(rng.gen::<u8>());
    }
    bytes.push(1);
    UBig::from_le_bytes(&bytes)
}

#[test]
fn test_ubig_toom_3_mul() {
    // (2^k - 1)^2 == 2^(2k) - 2^(k+1) + 1, with 500 words per factor
    let k = 64 * 500;
    let x = ubig(1).shl(k).sub(&ubig(1));
    let expected = ubig(1).shl(2 * k).sub(&ubig(1).shl(k + 1)).add(&ubig(1));
    assert_eq!(x.mul(&x), expected);
    // balanced and unbalanced products above the Karatsuba range, checked by division
    let mut rng = StdRng::seed_from_u64(7);
    for &(la, lb) in &[(250usize, 250usize), (700, 300), (1300, 200), (600, 599)] {
        let a = random_ubig(&mut rng, la);
        let b = random_ubig(&mut rng, lb);
        let p = a.mul(&b);
        assert_eq!(p.div(&b), a);
        assert_eq!(p.div(&a), b);
        assert_eq!(p.rem(&b), ubig(0));
        assert_eq!(b.mul(&a), p);
        // distributivity over a split of b
        let lo = random_ubig(&mut rng, 3);
        let b2 = b.add(&lo);
        assert_eq!(a.mul(&b2), p.add(&a.mul(&lo)));
    }
}

#[test]
fn test_ubig_divide_conquer_div() {
    // divisor and quotient both longer than the simple method's limit
    let mut rng = StdRng::seed_from_u64(11);
    for &(la, lb) in &[(100usize, 40usize), (200, 70), (400, 100), (131, 65), (90, 33)] {
        let a = random_ubig(&mut rng, la);
        let b = random_ubig(&mut rng, lb);
        let (q, r) = a.div_rem(&b);
        assert!(r.lt(&b));
        assert_eq!(q.mul(&b).add(&r), a);
    }
    // an exact quotient with a remainder just below the divisor
    let k = 64 * 80;
    let d = ubig(1).shl(k).sub(&ubig(3));
    let x = d.mul(&d).add(&d).sub(&ubig(1));
    let (q, r) = x.div_rem(&d);
    assert_eq!(q, d);
    assert_eq!(r, d.sub(&ubig(1)));
}

fn ceil_log2(n: usize) -> usize {
    if n <= 1 {
        0
    } else {
        1 + ceil_log2((n + 1) / 2)
    }
}

#[test]
fn test_temp_mul_buffer_bound() {
    for n in [0usize, 1, 24, 25, 100, 192, 193, 194, 500, 1000, 4096, 100_000] {
        let len = ibig::karatsuba::allocate_temp_mul_buffer(n).len();
        assert!(len <= 4 * n + 13 * ceil_log2(n));
    }
    assert_eq!(ibig::karatsuba::allocate_temp_mul_buffer(24).len(), 0);
}
