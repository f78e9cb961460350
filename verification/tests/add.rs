use ibig::add::{
    add_in_place, add_one_in_place, add_signed_word_in_place, add_word_in_place, sub_in_place,
    sub_in_place_with_sign, sub_one_in_place, sub_word_in_place,
};
use ibig::primitive::Word;
use ibig::sign::Sign::{Negative, Positive};

#[test]
fn test_add_one_in_place() {
    let mut a = [1, 2, 3];
    let overflow = add_one_in_place(&mut a);
    assert!(!overflow);
    assert_eq!(a, [2, 2, 3]);

    let mut a = [Word::MAX, Word::MAX, 3];
    let overflow = add_one_in_place(&mut a);
    assert!(!overflow);
    assert_eq!(a, [0, 0, 4]);

    let mut a = [Word::MAX, Word::MAX, Word::MAX];
    let overflow = add_one_in_place(&mut a);
    assert!(overflow);
    assert_eq!(a, [0, 0, 0]);

    let mut a: [Word; 0] = [];
    let overflow = add_one_in_place(&mut a);
    assert!(overflow);
}

#[test]
fn test_add_word_in_place() {
    let mut a = [1, 2, 3];
    let overflow = add_word_in_place(&mut a, 7);
    assert!(!overflow);
    assert_eq!(a, [8, 2, 3]);

    let mut a = [Word::MAX / 2, Word::MAX, 3];
    let overflow = add_word_in_place(&mut a, Word::MAX / 2 + 3);
    assert!(!overflow);
    assert_eq!(a, [1, 0, 4]);

    let mut a = [Word::MAX / 2, Word::MAX, Word::MAX];
    let overflow = add_word_in_place(&mut a, Word::MAX / 2 + 3);
    assert!(overflow);
    assert_eq!(a, [1, 0, 0]);
}

#[test]
fn test_add_signed_word_in_place() {
    let mut a: [Word; 0] = [];
    let overflow = add_signed_word_in_place(&mut a, -5);
    assert_eq!(overflow, -5);

    let mut a = [1, 2, 3];
    let overflow = add_signed_word_in_place(&mut a, 4);
    assert_eq!(overflow, 0);
    assert_eq!(a, [5, 2, 3]);

    let mut a = [3, 0];
    let overflow = add_signed_word_in_place(&mut a, -4);
    assert_eq!(overflow, -1);
    assert_eq!(a, [Word::MAX, Word::MAX]);
}

#[test]
fn test_add_in_place() {
    let mut a = [1, 2, 3];
    let overflow = add_in_place(&mut a, &[3, 7]);
    assert!(!overflow);
    assert_eq!(a, [4, 9, 3]);

    let mut a = [Word::MAX / 2, 1, Word::MAX];
    let overflow = add_in_place(&mut a, &[Word::MAX / 2 + 3, Word::MAX]);
    assert!(overflow);
    assert_eq!(a, [1, 1, 0]);
}

#[test]
fn test_sub_one_in_place() {
    let mut a = [2, 2, 3];
    let overflow = sub_one_in_place(&mut a);
    assert!(!overflow);
    assert_eq!(a, [1, 2, 3]);

    let mut a = [0, 0, 4];
    let overflow = sub_one_in_place(&mut a);
    assert!(!overflow);
    assert_eq!(a, [Word::MAX, Word::MAX, 3]);

    let mut a = [0, 0, 0];
    let overflow = sub_one_in_place(&mut a);
    assert!(overflow);
    assert_eq!(a, [Word::MAX, Word::MAX, Word::MAX]);

    let mut a: [Word; 0] = [];
    let overflow = sub_one_in_place(&mut a);
    assert!(overflow);
}

#[test]
fn test_sub_word_in_place() {
    let mut a = [8, 2, 3];
    let overflow = sub_word_in_place(&mut a, 7);
    assert!(!overflow);
    assert_eq!(a, [1, 2, 3]);

    let mut a = [1, 0, 4];
    let overflow = sub_word_in_place(&mut a, Word::MAX / 2 + 3);
    assert!(!overflow);
    assert_eq!(a, [Word::MAX / 2, Word::MAX, 3]);

    let mut a = [1, 0, 0];
    let overflow = sub_word_in_place(&mut a, Word::MAX / 2 + 3);
    assert!(overflow);
    assert_eq!(a, [Word::MAX / 2, Word::MAX, Word::MAX]);
}

#[test]
fn test_sub_in_place() {
    let mut a = [4, 9, 3];
    let overflow = sub_in_place(&mut a, &[3, 7]);
    assert!(!overflow);
    assert_eq!(a, [1, 2, 3]);

    let mut a = [1, 1, 0];
    let overflow = sub_in_place(&mut a, &[Word::MAX / 2 + 3, Word::MAX]);
    assert!(overflow);
    assert_eq!(a, [Word::MAX / 2, 1, Word::MAX]);
}

#[test]
fn test_sub_in_place_with_sign() {
    let mut a = [4, 9, 3];
    let sign = sub_in_place_with_sign(&mut a, &[3, 7]);
    assert_eq!(sign, Positive);
    assert_eq!(a, [1, 2, 3]);

    let mut a = [4, 0, 0, 0];
    let sign = sub_in_place_with_sign(&mut a, &[1, 2, 0]);
    assert_eq!(sign, Negative);
    assert_eq!(a, [Word::MAX - 2, 1, 0, 0]);

    let mut a = [4, 9, 3];
    let sign = sub_in_place_with_sign(&mut a, &[3, 9, 3]);
    assert_eq!(sign, Positive);
    assert_eq!(a, [1, 0, 0]);

    let mut a = [4, 9, 3];
    let sign = sub_in_place_with_sign(&mut a, &[5, 9, 3]);
    assert_eq!(sign, Negative);
    assert_eq!(a, [1, 0, 0]);
}
