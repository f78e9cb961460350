use ibig::convert::{ibig_from_signed, signed_from_ibig};
use ibig::ibig::IBig;

fn ibig(x: i128) -> IBig {
    ibig_from_signed(x)
}

fn val(x: &IBig) -> i128 {
    signed_from_ibig(x).unwrap()
}

#[test]
fn test_ibig_signs() {
    assert!(ibig(-3).is_negative());
    assert!(!ibig(0).is_negative());
    assert!(ibig(3).is_positive());
    assert!(!ibig(0).is_positive());
    assert_eq!(ibig(-5).abs(), ibig(5));
    assert_eq!(ibig(-5).signum(), ibig(-1));
    assert_eq!(ibig(0).signum(), ibig(0));
    assert_eq!(ibig(7).neg(), ibig(-7));
}

#[test]
fn test_ibig_arithmetic() {
    let values = [-1000000007i128, -17, -1, 0, 1, 5, 17, 1 << 70, -(1 << 70)];
    for &a in &values {
        for &b in &values {
            assert_eq!(val(&ibig(a).add(&ibig(b))), a + b);
            assert_eq!(val(&ibig(a).sub(&ibig(b))), a - b);
            if a.abs() < (1 << 50) && b.abs() < (1 << 50) {
                assert_eq!(val(&ibig(a).mul(&ibig(b))), a * b);
            }
            if b != 0 {
                assert_eq!(val(&ibig(a).div(&ibig(b))), a / b);
                assert_eq!(val(&ibig(a).rem(&ibig(b))), a % b);
                assert_eq!(val(&ibig(a).div_euclid(&ibig(b))), a.div_euclid(b));
                assert_eq!(val(&ibig(a).rem_euclid(&ibig(b))), a.rem_euclid(b));
                let (q, r) = ibig(a).div_rem(&ibig(b));
                assert_eq!(val(&q), a / b);
                assert_eq!(val(&r), a % b);
            }
        }
    }
}

#[test]
fn test_ibig_pow() {
    assert_eq!(ibig(-2).pow(3), ibig(-8));
    assert_eq!(ibig(-2).pow(4), ibig(16));
    assert_eq!(ibig(-7).pow(0), ibig(1));
}
