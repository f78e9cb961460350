use ibig::convert::{
    ibig_from_signed, signed_from_ubig, ubig_from_signed, ubig_from_unsigned, unsigned_from_ibig,
    unsigned_from_ubig,
};
use ibig::error::OutOfBoundsError;
use ibig::float_bits::round_to_even_adjustment;
use rand::{Rng, SeedableRng};
use ibig::ubig::UBig;

fn ubig(x: u128) -> UBig {
    ubig_from_unsigned(x)
}

#[test]
fn test_bits() {
    let mut x = ubig(0b1010);
    assert!(x.bit(1));
    assert!(!x.bit(2));
    assert!(!x.bit(1000));
    x.set_bit(100);
    assert_eq!(x, ubig((1 << 100) | 0b1010));
    x.clear_bit(100);
    assert_eq!(x, ubig(0b1010));
    assert_eq!(ubig(0b1000).trailing_zeros(), Some(3));
    assert_eq!(ubig(0).trailing_zeros(), None);
    assert_eq!(ubig(1 << 70).trailing_zeros(), Some(70));
    assert_eq!(ubig(1 << 70).ilog2(), Some(70));
    assert_eq!(ubig(0).ilog2(), None);
    assert_eq!(ibig_from_signed(-8).trailing_zeros(), Some(3));
}

#[test]
fn test_bytes() {
    let x = ubig(0x0102030405060708090a);
    assert_eq!(x.to_le_bytes(), vec![10, 9, 8, 7, 6, 5, 4, 3, 2, 1]);
    assert_eq!(x.to_be_bytes(), vec![1, 2, 3, 4, 5, 6, 7, 8, 9, 10]);
    assert_eq!(UBig::from_le_bytes(&[10, 9, 8, 7, 6, 5, 4, 3, 2, 1]), x);
    assert_eq!(UBig::from_be_bytes(&[0, 0, 1, 2, 3, 4, 5, 6, 7, 8, 9, 10]), x);
    assert_eq!(ubig(0).to_le_bytes(), Vec::<u8>::new());
}

#[test]
fn test_conversions_out_of_bounds() {
    assert_eq!(ubig_from_signed(-1), Err(OutOfBoundsError));
    assert_eq!(ubig_from_signed(5).unwrap(), ubig(5));
    assert_eq!(signed_from_ubig(&ubig(1 << 127)), Err(OutOfBoundsError));
    assert_eq!(unsigned_from_ubig(&ubig(u128::MAX)), Ok(u128::MAX));
    assert_eq!(unsigned_from_ibig(&ibig_from_signed(-1)), Err(OutOfBoundsError));
    assert_eq!(OutOfBoundsError.to_string(), "number out of bounds");
}

fn pow2_minus_one(k: usize) -> UBig {
    ubig(1).shl(k).sub(&ubig(1))
}

#[test]
fn test_to_f64_bits_slow() {
    let two64 = 1u128 << 64;
    assert_eq!(ubig(two64).to_f64_bits_slow(), (two64 as f64).to_bits());
    // halfway between two neighbours: ties to even
    assert_eq!(ubig(two64 + (1 << 11)).to_f64_bits_slow(), (two64 as f64).to_bits());
    assert_eq!(
        ubig(two64 + (3 << 11)).to_f64_bits_slow(),
        ((two64 + (1 << 13)) as f64).to_bits()
    );
    // just above halfway: rounds up
    assert_eq!(
        ubig(two64 + (1 << 11) + 1).to_f64_bits_slow(),
        ((two64 + (1 << 12)) as f64).to_bits()
    );
    assert_eq!(ubig(u128::MAX).to_f64_bits_slow(), (u128::MAX as f64).to_bits());
    let mut rng = rand::rngs::StdRng::seed_from_u64(7);
    for _ in 0..1000 {
        let x: u128 = rng.gen::<u128>() | two64;
        let shift = rng.gen_range(0..64);
        let x = x >> shift;
        let x = if x < two64 { x | two64 } else { x };
        assert_eq!(ubig(x).to_f64_bits_slow(), (x as f64).to_bits());
    }
    // 2^1000 is exact
    assert_eq!(
        ubig(1).shl(1000).to_f64_bits_slow(),
        2f64.powi(1000).to_bits()
    );
    // rounding up into infinity, and beyond
    assert_eq!(pow2_minus_one(1024).to_f64_bits_slow(), f64::INFINITY.to_bits());
    assert_eq!(ubig(1).shl(1024).to_f64_bits_slow(), f64::INFINITY.to_bits());
    assert_eq!(ubig(1).shl(1100).to_f64_bits_slow(), f64::INFINITY.to_bits());
    // the largest finite value
    assert_eq!(pow2_minus_one(1023).to_f64_bits_slow(), 2f64.powi(1023).to_bits());
}

#[test]
fn test_to_f32_bits_slow() {
    let two32 = 1u128 << 32;
    assert_eq!(ubig(two32).to_f32_bits_slow(), (two32 as f32).to_bits());
    assert_eq!(ubig(two32 + (1 << 8)).to_f32_bits_slow(), (two32 as f32).to_bits());
    assert_eq!(
        ubig(two32 + (3 << 8)).to_f32_bits_slow(),
        ((two32 + (1 << 10)) as f32).to_bits()
    );
    let mut rng = rand::rngs::StdRng::seed_from_u64(11);
    for _ in 0..1000 {
        let x: u128 = rng.gen::<u128>() | two32;
        let shift = rng.gen_range(0..96);
        let x = x >> shift;
        let x = if x < two32 { x | two32 } else { x };
        assert_eq!(ubig(x).to_f32_bits_slow(), (x as f32).to_bits());
    }
    assert_eq!(ubig(u128::MAX).to_f32_bits_slow(), f32::INFINITY.to_bits());
    assert_eq!(pow2_minus_one(127).to_f32_bits_slow(), 2f32.powi(127).to_bits());
    assert_eq!(ubig(1).shl(200).to_f32_bits_slow(), f32::INFINITY.to_bits());
}

#[test]
fn test_round_to_even_adjustment() {
    let expected = [false, false, false, true, false, false, true, true];
    for bits in 0..8u32 {
        assert_eq!(round_to_even_adjustment(bits), expected[bits as usize]);
    }
}

#[test]
fn test_bytes_round_trip() {
    let values = [0u128, 1, 0xff, 0x100, 0x010203, 1 << 64, u128::MAX, 0xdead_beef << 70];
    for &x in &values {
        let v = ubig(x);
        let le = v.to_le_bytes();
        assert_eq!(UBig::from_le_bytes(&le), v);
        assert!(le.is_empty() || *le.last().unwrap() != 0);
        let be = v.to_be_bytes();
        assert_eq!(UBig::from_be_bytes(&be), v);
        let mut rev = le.clone();
        rev.reverse();
        assert_eq!(be, rev);
    }
    assert_eq!(ubig(0x010203).to_le_bytes(), vec![3u8, 2, 1]);
    assert!(ubig(0).to_le_bytes().is_empty());
    let big = ubig(1).shl(1000);
    assert_eq!(UBig::from_le_bytes(&big.to_le_bytes()), big);
}

#[test]
fn test_set_clear_bit_other_bits() {
    let x = ubig(0b1011_0110);
    for n in [0usize, 1, 3, 7, 70] {
        let mut set = x.clone();
        set.set_bit(n);
        let mut cleared = x.clone();
        cleared.clear_bit(n);
        for m in 0..80usize {
            assert_eq!(set.bit(m), m == n || x.bit(m));
            assert_eq!(cleared.bit(m), m != n && x.bit(m));
        }
    }
}
