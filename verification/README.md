# stark

A zkSTARK proving system whose parts are verified with Verus: arithmetic in
the prime field `p = 1 + 407 * 2^119`, univariate and multivariate
polynomials, Merkle commitments, a Fiat-Shamir transcript, FRI, the STARK
prover and verifier, and the Rescue-Prime hash with a signature scheme
built on the STARK layer.

## Layout

- `src/field`: the field and its elements; `laws.rs` holds the field laws.
- `src/math`: extended Euclid and powers of two.
- `src/polynomial`: univariate polynomials (evaluation, interpolation,
  zerofiers, division) and multivariate polynomials with their evaluation
  at field and polynomial points.
- `src/crypto`: the byte encoding of transcripts, the hash functions,
  Merkle trees and the proof stream.
- `src/fri`: folding, commitment, queries and verification of FRI.
- `src/stark`: parameters, the prover, the verifier and the laws that
  relate them.
- `src/rescue_prime`: the permutation, its AIR, the signature scheme and
  what the constraints take on the hash's trace.
- `tests/`: the test suite; `app/`: the example program.

The hash functions (BLAKE2b-512, BLAKE2s-256, SHAKE256), the operating
system's random source and `String::from_utf8` are called through small
trusted wrappers whose contracts say no more than those functions
guarantee; everything else is proved.
