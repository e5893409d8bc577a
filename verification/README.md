# ternary_dropout

Dropout and regularization for ternary networks (values in {-1, 0, +1}),
verified with Verus.

- `src/trit.rs`: `Trit` and its conversions and flip.
- `src/rng.rs`: `TernaryRng`, a seeded xorshift64 generator; its state is
  modelled as the 64-bit word it holds.
- `src/matrix.rs`: `TernaryMatrix`, row-major storage of trits.
- `src/dropout.rs`: random, structured and connection dropout, noise
  injection, and `DropRate`.
- `src/sparse.rs`: top-k sparse dropout.
- `src/monte_carlo.rs`: Monte Carlo dropout.
- `app/lib.rs`: the `f64` face of the library (rates given as floats,
  `next_f64`, a `Display` for trits).

Rates are held as `DropRate`: the number of 21-bit fractions `m / 2^21`
that lie below the rate, and whether the rate is positive. A draw falls
under the rate exactly when its 21-bit numerator is below the threshold,
which is the comparison a float rate makes, decided on integers.
