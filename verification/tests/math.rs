use ibig::math::{bit_len, ceil_div, ceil_log_2, ones, round_up};

#[test]
fn test_bit_len() {
    assert_eq!(bit_len(0), 0);
    assert_eq!(bit_len(0b10011101), 8);
    assert_eq!(bit_len(0b10000000), 8);
    assert_eq!(bit_len(0b1111111), 7);
}

#[test]
fn test_ceil_log_2() {
    assert_eq!(ceil_log_2(1), 0);
    assert_eq!(ceil_log_2(7), 3);
    assert_eq!(ceil_log_2(8), 3);
    assert_eq!(ceil_log_2(9), 4);
    assert_eq!(ceil_log_2(u32::MAX as u64), 32);
}

#[test]
fn test_ceil_div() {
    assert_eq!(ceil_div(0, 10), 0);
    assert_eq!(ceil_div(9, 10), 1);
    assert_eq!(ceil_div(10, 10), 1);
    assert_eq!(ceil_div(11, 10), 2);
}

#[test]
fn test_round_up() {
    assert_eq!(round_up(0, 10), 0);
    assert_eq!(round_up(9, 10), 10);
    assert_eq!(round_up(10, 10), 10);
    assert_eq!(round_up(11, 10), 20);
}

#[test]
fn test_ones() {
    assert_eq!(ones(0), 0);
    assert_eq!(ones(5), 0b11111);
    assert_eq!(ones(32), u32::MAX as u64);
}
