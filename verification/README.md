# pi digits by binary splitting

A verified library that computes decimal digits of pi with the Chudnovsky
series. The series is summed by binary splitting over multi-precision
integers; the quotient and the square root of 10005 come from fixed-point
Newton iterations.

Layout of `src/`:

- `limbs`, `bigint`: natural numbers as normalized vectors of 64-bit limbs,
  with exact contracts for every operation (sum, difference, product, shifts,
  division by a limb, comparison, decimal text).
- `digits`: text of numbers in radix 10 and 16.
- `binary_fixed`, `reciprocal`, `newton`, `isqrt`: fixed-point numbers, the
  Newton reciprocal and inverse square root, and the proofs of how close
  they come.
- `drm`, `formula`: binary splitting of a series and the Chudnovsky terms,
  down to `compute_pi`.
- `number`: limb vectors that keep their length, and reals scaled by a
  power of 2^64 with a Newton reciprocal that starts from a two-limb seed;
  from a seed within 2^-40 the reciprocal is proved close to 62 bits.

`app/main.rs` prints the digits for a count given on the command line;
`app/float.rs` holds the floating-point helpers, among them the seed of the
reciprocal of a real.
