use ibig::div::{div_by_word_in_place, rem_by_word};
use ibig::fast_divide::{FastDivisor, FastDivisorNormalized};
use ibig::math::ones;
use ibig::primitive::{extend_word, Word, WORD_BITS};
use rand::rngs::StdRng;
use rand::{Rng, SeedableRng};

#[test]
fn test_div_by_word_in_place_empty() {
    let mut a: [Word; 0] = [];
    let rem = div_by_word_in_place(&mut a, 7);
    assert_eq!(rem, 0);
}

#[test]
fn test_rem_by_word_empty() {
    let a: [Word; 0] = [];
    let rem = rem_by_word(&a, 7);
    assert_eq!(rem, 0);
}

#[test]
fn test_fast_divisor() {
    let mut rng = StdRng::seed_from_u64(1);
    for _ in 0..1000000 {
        let a: Word = rng.gen();
        let b = rng.gen_range(1..=Word::MAX);
        let fast_div = FastDivisor::new(b);
        let (q, r) = fast_div.div_rem(a);
        assert_eq!(q, a / b);
        assert_eq!(r, a % b);
    }
}

#[test]
fn test_fast_divide_small() {
    let mut rng = StdRng::seed_from_u64(1);
    for _ in 0..1000000 {
        let d_bits = rng.gen_range(2..=WORD_BITS);
        let max_d = ones(d_bits);
        let d = rng.gen_range(max_d / 2 + 1..=max_d);
        let fast_div = FastDivisor::new(d);
        let n: Word = rng.gen();
        let (q, r) = fast_div.div_rem(n);
        assert_eq!(q, n / d);
        assert_eq!(r, n % d);
    }
}

#[test]
fn test_fast_divide_normalized() {
    let mut rng = StdRng::seed_from_u64(1);
    for _ in 0..1000000 {
        let d = rng.gen_range(Word::MAX / 2 + 1..=Word::MAX);
        let q: Word = rng.gen();
        let r = rng.gen_range(0..d);
        let a = extend_word(q) * extend_word(d) + extend_word(r);
        let fast_div = FastDivisorNormalized::new(d);
        assert_eq!(fast_div.div_rem(a), (q, r));
    }
}
