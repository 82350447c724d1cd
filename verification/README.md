# exact_complex

Complex numbers over exact rationals, with a flag on every result that tells whether it is
known to be exact. Every function of the library is verified with Verus against a contract
over mathematical rationals, but for one trusted item: `string_of` in `format.rs`, which
collects characters into a `String` with `String::from_iter`.

Exact results are exact or refused with `OutOfRange` when their reduced form does not fit
64-bit parts; approximate results are rounded to fit, and refused only when too large.

Layout of `src/`:

- `rat.rs`: rationals over mathematical integers (`Rat`), their algebra and reduction.
- `realnum.rs`: `Real`, an exact rational with 64-bit parts, and its arithmetic, factorials,
  remainders, bitwise operations, selections and integer powers.
- `exact.rs`: `Exact<T>`, a value with an exactness flag, and exact-or-approximate arithmetic
  on reals.
- `complex.rs`: `Complex` and exact-or-approximate complex addition, multiplication,
  division and powers by repeated squaring.
- `division.rs`: the quotient formula and the proof that division is undone by
  multiplication.
- `power.rs`: powers with complex exponents.
- `root.rs`: square roots and magnitudes.
- `elementary.rs`: exponentials, logarithms, trigonometric and hyperbolic functions and their
  inverses, built on the real functions whose values a caller supplies.
- `format.rs`: writing numbers in a base from 2 to 36.
- `order.rs`, `serial.rs`, `laws.rs`: comparison, byte encoding, and algebraic laws.

`app/` holds what Verus does not see: `std::io` reading and writing, the `f64` values of the
real elementary functions, and the `Display` and `Debug` forms.
