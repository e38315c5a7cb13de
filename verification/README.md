# paillier

Additively homomorphic Paillier encryption with a short exponent,
`c = (1 + x·n) · hs^r mod n²`, on GMP through `rug`, with its logic
verified by Verus.

## Layout

- `src/limbs.rs`, `src/arith.rs`, `src/number.rs` — the mathematics:
  limb and byte values, powers, the greatest common divisor, Bézout,
  Euclid, the binomial theorem, Fermat's little theorem and its lift to
  prime squares, the uniqueness half of the Chinese remainder theorem.
- `src/bignum.rs` — naturals as limbs; every multi-precision operation is
  a call into `rug` behind a function whose contract states what `rug`
  documents.
- `src/mont.rs` — Montgomery multiplication on fixed-width limb buffers.
- `src/fast.rs` — the table of precomputed powers of `hs` and the
  exponentiation that reads it, one window at a time.
- `src/primes.rs` — the sieve and the safe prime search.
- `src/keys.rs` — key validation and the derivation of `h` and `hs`.
- `src/secret.rs` — decryption by the Chinese remainder theorem.
- `src/scheme.rs` — keys, the blob format, encryption, addition,
  multiplication by a scalar, re-randomisation and decryption.
- `src/laws.rs` — what holds of the scheme as a whole: decryption inverts
  encryption, and the homomorphic operations decrypt to the sum, the
  multiple, the same plaintext.
- `app/lib.rs` — the Python module: Python types, threads, and the
  fixed-point encoding of floats.
