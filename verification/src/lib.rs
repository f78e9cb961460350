//! A big integer library: unsigned (`UBig`) and signed (`IBig`) integers of arbitrary size,
//! with modular arithmetic on top of them.
//!
//! Numbers are stored as little-endian sequences of machine words. Every operation is
//! specified against the mathematical value of its operands.

pub mod primitive;
pub mod value;
pub mod sign;
pub mod add;
pub mod buffer;
pub mod math;
pub mod compare;
pub mod ubig;
pub mod mul;
pub mod shift;
pub mod fast_divide;
pub mod div;
pub mod div_conquer;
pub mod add_ops;
pub mod karatsuba;
pub mod toom_3;
pub mod mul_ops;
pub mod shift_ops;
pub mod div_ops;
pub mod ibig;
pub mod ibig_ops;
pub mod bits;
pub mod pow;
pub mod gcd_spec;
pub mod gcd;
pub mod gcd_binary;
pub mod gcd_ops;
pub mod xgcd;
pub mod convert;
pub mod float_bits;
pub mod error;
pub mod radix;
pub mod parse;
pub mod modular;
pub mod modular_pow;
pub mod fmt;
pub mod modular_small;
pub mod ntt;
