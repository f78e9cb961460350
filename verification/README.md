# ibig

Arbitrary-precision integers, `UBig` and `IBig`, with modular arithmetic, written in Verus.

- `src/` is the verified library. Each number is a little-endian sequence of 64-bit words, and
  every operation is specified against its mathematical value: addition, subtraction,
  multiplication (simple, Karatsuba, Toom-3), division (simple and divide-and-conquer), shifts,
  bit operations, powers, gcd and extended gcd (Euclid and binary), conversions, parsing and
  printing in any radix from 2 to 36, and arithmetic modulo a number, with the ring of
  residues modulo three word-sized primes and its tables of roots of unity.
- `tests/` runs the library on concrete values.
- `app/` gives the library's types the traits of `std` (`Display`, `FromStr`, the format
  traits, `Error`) and the conversions to floating point.
