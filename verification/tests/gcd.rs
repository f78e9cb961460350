use ibig::convert::{ibig_from_signed, ubig_from_unsigned};
use ibig::ibig::IBig;
use ibig::ubig::UBig;
use ibig::gcd_binary::{gcd_in_place, gcd_word_by_word, xgcd_word_by_word};
use ibig::xgcd::xgcd_in_place;

fn ubig(x: u128) -> UBig {
    ubig_from_unsigned(x)
}

fn ibig(x: i128) -> IBig {
    ibig_from_signed(x)
}

#[test]
fn test_gcd() {
    assert_eq!(ubig(12).gcd(&ubig(18)), ubig(6));
    assert_eq!(ubig(0).gcd(&ubig(5)), ubig(5));
    assert_eq!(ubig(17).gcd(&ubig(5)), ubig(1));
    assert_eq!(ubig(1 << 100).gcd(&ubig(3 << 90)), ubig(1 << 90));
    assert_eq!(ibig(-12).gcd(&ibig(18)), ibig(6));
}

#[test]
fn test_extended_gcd_bezout() {
    let pairs = [(240u128, 46u128), (17, 5), (0, 9), (1 << 100, (1 << 64) + 3)];
    for &(a, b) in &pairs {
        let (g, x, y) = ubig(a).extended_gcd(&ubig(b));
        let lhs = IBig::from_ubig(ubig(a)).mul(&x).add(&IBig::from_ubig(ubig(b)).mul(&y));
        assert_eq!(lhs, IBig::from_ubig(g.clone()));
        assert_eq!(g, ubig(a).gcd(&ubig(b)));
    }
    let (g, x, y) = ibig(-240).extended_gcd(&ibig(46));
    assert_eq!(g, ibig(2));
    assert_eq!(ibig(-240).mul(&x).add(&ibig(46).mul(&y)), ibig(2));
}

fn buffer_of(words: &[u64]) -> ibig::buffer::Buffer {
    let mut buffer = ibig::buffer::Buffer::allocate(words.len());
    for &w in words {
        buffer.push(w);
    }
    buffer
}

#[test]
fn test_gcd_word_by_word() {
    assert_eq!(gcd_word_by_word(12, 18), 6);
    assert_eq!(gcd_word_by_word(17, 5), 1);
    assert_eq!(gcd_word_by_word(1 << 40, 3 << 30), 1 << 30);
    assert_eq!(gcd_word_by_word(u64::MAX, 3), 3);
    // operands of very different sizes take the division step
    assert_eq!(gcd_word_by_word(6, 6 * 1_000_000_007), 6);
    assert_eq!(gcd_word_by_word(6 * 1_000_000_007, 6), 6);
    assert_eq!(gcd_word_by_word(7, 7), 7);
}

fn euclid(a: u64, b: u64) -> u64 {
    if b == 0 { a } else { euclid(b, a % b) }
}

fn words_value(words: &[u64]) -> u128 {
    let mut v = 0u128;
    for &w in words.iter().rev() {
        v = (v << 64) | w as u128;
    }
    v
}

#[test]
fn test_xgcd_word_by_word() {
    for &(a, b) in &[(240u64, 46u64), (46, 240), (17, 5), (u64::MAX, 2), (u64::MAX, 1), (0, 9), (9, 0), (0, 0), (7, 7)] {
        let (g, s, t) = xgcd_word_by_word(a, b, false);
        assert_eq!(g, euclid(a, b));
        assert_eq!(s as i128 * a as i128 + t as i128 * b as i128, g as i128);
    }
    // only the coefficient of b: t b == g modulo a
    let (g, s, t) = xgcd_word_by_word(1_000_000_007, 12345, true);
    assert_eq!(g, 1);
    assert_eq!(s, 1);
    assert_eq!((t as i128 * 12345).rem_euclid(1_000_000_007), 1);
}

#[test]
fn test_gcd_in_place() {
    // 2^70 * 3 and 2^66 * 9: gcd 2^66 * 3
    let mut lhs = [0u64, 3 << 6];
    let mut rhs = [0u64, 9 << 2];
    let len = gcd_in_place(&mut lhs, &mut rhs);
    assert_eq!(&lhs[..len], &[0u64, 3 << 2]);
    // numbers of two words
    let (x, y) = (5u128 + (7u128 << 64) * 3, (15u128 << 64) + 15);
    let mut lhs = [x as u64, (x >> 64) as u64];
    let mut rhs = [y as u64, (y >> 64) as u64];
    let len = gcd_in_place(&mut lhs, &mut rhs);
    assert_eq!(ubig(words_value(&lhs[..len])), ubig(x).gcd(&ubig(y)));
    // a window whose top word empties after removing the factors of two
    let mut lhs = [2u64, 1];
    let mut rhs = [0u64, 0, (1 << 63) + 3];
    let len = gcd_in_place(&mut lhs, &mut rhs);
    assert_eq!(&lhs[..len], &[2u64]);
}

#[test]
fn test_gcd_ops() {
    assert_eq!(UBig::gcd_word(12, 18), ubig(6));
    assert_eq!(UBig::gcd_word(0, 18), ubig(18));
    assert_eq!(UBig::gcd_word(0, 0), ubig(0));
    let x = (3u128 << 70) * 5;
    let buffer = buffer_of(&[x as u64, (x >> 64) as u64]);
    assert_eq!(UBig::gcd_large_word(&buffer, 10), ubig(10));
    assert_eq!(UBig::gcd_large_word(&buffer, 0), ubig(x));
    assert_eq!(UBig::gcd_large_word(&buffer, 7), ubig(1));
    let y = (9u128 << 66) * 7;
    let g = UBig::gcd_large(buffer_of(&[x as u64, (x >> 64) as u64]), buffer_of(&[y as u64, (y >> 64) as u64]));
    assert_eq!(g, ubig(3u128 << 66));
    let (g, s, t) = UBig::extended_gcd_word(240, 46);
    assert_eq!(g, ubig(2));
    assert_eq!(s.mul(&ibig(240)).add(&t.mul(&ibig(46))), ibig(2));
    let (g, s, t) = UBig::extended_gcd_large_word(buffer_of(&[x as u64, (x >> 64) as u64]), 1_000_003);
    assert_eq!(g, ubig(x).gcd(&ubig(1_000_003)));
    assert_eq!(s.mul(&IBig::from_ubig(ubig(x))).add(&t.mul(&ibig(1_000_003))), IBig::from_ubig(g));
}

#[test]
fn test_xgcd_in_place() {
    let pairs = [
        ((240u128 << 64) | 12, (46u128 << 64) | 2),
        (3u128 << 100, (9u128 << 70) + (1u128 << 70)),
        (u128::MAX, 3u128 << 64),
        ((1u128 << 64) + 1, (1u128 << 64) + 1),
        (5u128 << 64, 7u128 << 66),
    ];
    for &(x, y) in &pairs {
        let mut lhs = [x as u64, (x >> 64) as u64];
        let mut rhs = [y as u64, (y >> 64) as u64];
        let mut g = [0u64; 2];
        let (sa, sb) = xgcd_in_place(&mut lhs, &mut rhs, &mut g, false);
        let expected = ubig(x).gcd(&ubig(y));
        assert_eq!(ubig(words_value(&g)), expected);
        let a = IBig::from_sign_magnitude(sa, ubig(words_value(&rhs)));
        let b = IBig::from_sign_magnitude(sb, ubig(words_value(&lhs)));
        let combo = a.mul(&IBig::from_ubig(ubig(x))).add(&b.mul(&IBig::from_ubig(ubig(y))));
        assert_eq!(combo, IBig::from_ubig(expected));
    }
    // only the coefficient of y: b y == g modulo x
    let (x, y) = ((1u128 << 127) - 1, (1u128 << 89) - 1);
    let mut lhs = [x as u64, (x >> 64) as u64];
    let mut rhs = [y as u64, (y >> 64) as u64];
    let mut g = [0u64; 2];
    let (_, sb) = xgcd_in_place(&mut lhs, &mut rhs, &mut g, true);
    assert_eq!(words_value(&g), 1);
    let b = IBig::from_sign_magnitude(sb, ubig(words_value(&lhs)));
    let r = b.mul(&IBig::from_ubig(ubig(y))).rem_euclid(&IBig::from_ubig(ubig(x)));
    assert_eq!(r, ibig(1));
}

#[test]
fn test_extended_gcd_large() {
    let (x, y) = ((240u128 << 64) | 12, (46u128 << 64) | 2);
    let (g, s, t) = UBig::extended_gcd_large(
        buffer_of(&[x as u64, (x >> 64) as u64]),
        buffer_of(&[y as u64, (y >> 64) as u64]),
    );
    assert_eq!(g, ubig(x).gcd(&ubig(y)));
    let combo = s.mul(&IBig::from_ubig(ubig(x))).add(&t.mul(&IBig::from_ubig(ubig(y))));
    assert_eq!(combo, IBig::from_ubig(g));
}

fn max_one(x: &UBig) -> UBig {
    if x.is_zero() {
        ubig(1)
    } else {
        x.clone()
    }
}

#[test]
fn test_extended_gcd_coefficient_bounds() {
    let pairs = [
        (12u128, 18u128),
        (0, 1),
        (1, 0),
        (0, 9),
        (7, 0),
        (240, 46),
        (1 << 100, (1 << 64) + 3),
        (u128::MAX, 3 << 64),
        (1, 1),
    ];
    for &(a, b) in &pairs {
        let (a, b) = (ubig(a), ubig(b));
        let (g, x, y) = a.extended_gcd(&b);
        assert_eq!(g, a.gcd(&b));
        let lhs = IBig::from_ubig(a.clone()).mul(&x).add(&IBig::from_ubig(b.clone()).mul(&y));
        assert_eq!(lhs, IBig::from_ubig(g.clone()));
        assert!(!max_one(&b).lt(&x.unsigned_abs()));
        assert!(!max_one(&a).lt(&y.unsigned_abs()));
    }
    let (g, x, y) = ubig(12).extended_gcd(&ubig(18));
    assert_eq!(g, ubig(6));
    assert!(!ubig(18).lt(&x.unsigned_abs()));
    assert!(!ubig(12).lt(&y.unsigned_abs()));
    for &(a, b) in &[(-12i128, 18i128), (12, -18), (-7, 0), (0, -3), (-240, -46)] {
        let (a, b) = (ibig(a), ibig(b));
        let (g, x, y) = a.extended_gcd(&b);
        assert_eq!(a.mul(&x).add(&b.mul(&y)), g);
        assert!(!max_one(&b.unsigned_abs()).lt(&x.unsigned_abs()));
        assert!(!max_one(&a.unsigned_abs()).lt(&y.unsigned_abs()));
    }
}

#[test]
fn test_gcd_in_place_length() {
    let mut lhs = [12u64];
    let mut rhs = [18u64];
    let len = gcd_in_place(&mut lhs, &mut rhs);
    assert_eq!(len, 1);
    assert_eq!(lhs[0], 6);
    // a two-word input whose gcd is one word
    let mut lhs = [6u64, 6];
    let mut rhs = [0u64, 0, 4];
    let len = gcd_in_place(&mut lhs, &mut rhs);
    assert_eq!(len, 1);
    assert_eq!(lhs[0], 2);
}
