# phantom_zone (verified number theoretic transform)

A Verus library for the negacyclic number theoretic transform over word-sized prime
moduli, as used by lattice-based homomorphic encryption.

- `src/arith.rs`: modular products and powers, Shoup multiplication with a precomputed
  quotient.
- `src/butterfly.rs`: the Cooley-Tukey and Gentleman-Sande butterflies with lazy reduction.
- `src/ntt_spec.rs`: the butterfly networks as integer specifications, and the proof that
  the inverse network undoes the forward one.
- `src/ntt.rs`: the in-place transforms on slices (`ntt`, `ntt_lazy`, `ntt_inv`,
  `ntt_inv_lazy`).
- `src/bit_reverse.rs`: bit reversal of indices.
- `src/fermat.rs`: Euclid's lemma, the binomial theorem and Fermat's little theorem.
- `src/convolution.rs`: the forward transform evaluates at odd powers of a primitive
  `2n`-th root of unity, and evaluation is multiplicative on `Z_q[X] / (X^n + 1)`.
- `src/backend.rs`: root finding over the stream of a seeded ChaCha generator, the
  bit-reversed twiddle tables, the `Ntt` and `NttInit` traits, and the laws of every backend
  that `_new` builds for a prime modulus (round trip, evaluation form, negacyclic products,
  and that two constructions for the same `q` and `n` agree).
- `app/`: LWE encryption and key switching, which rest on ring and decomposition code
  outside this library.
