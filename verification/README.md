# sumcheck_utils

Sumcheck over the KoalaBear field `F_p`, `p = 2^31 - 2^24 + 1`, and its
degree-8 extension `F_p[X] / (X^8 - 3)`, written in Verus.

- `src/field.rs`, `src/extension.rs`: the two fields, modelled by residues;
  inverses come from Plonky3 (`p3-koala-bear`, `p3-field`).
- `src/ring.rs`: the product of the extension is commutative and associative.
- `src/evals.rs`: lists of `2^n` evaluations of a multilinear polynomial.
- `src/multilinear.rs`: folding, linear combinations, packing and sums of
  multilinears.
- `src/univariate.rs`: barycentric weights and Lagrange bases on the grid
  `{0, ..., m - 1}`, with the precomputed weights proved equal to the computed
  ones.
- `src/verify.rs`: the sumcheck verifier's round checks and the evaluation of
  round polynomials from their values on the grid.
- `src/prove.rs`: the sumcheck prover's round schedule, round evaluations and
  folding; the user's computation is a trait with a specification, which
  computations are written in Verus to implement (`ProductComputation`).
- `src/fibonacci.rs`: Fibonacci numbers in the field.
- `app/`: the transcript side (reading, writing, sampling and grinding on the
  Fiat-Shamir transcripts of `whir_p3`) and `main`.
