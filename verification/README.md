# jolt_core

Verified building blocks of the Jolt zkVM's commitment and sumcheck layer, written in
Verus. Every executable function carries a `requires`/`ensures` contract that Verus
proves; field arithmetic is delegated to `ark_bn254` through a few trusted wrappers
whose contracts state the modular identities they compute.

Modules (under `src/`):

- `math` — ceiling logarithms, powers of two, rounding helpers on `usize`.
- `field` — the BN254 scalar field `Fr`, viewed as the integer it represents.
- `eq_poly`, `simple_eq_poly` — the equality polynomial, its evaluation table, binding
  and the round polynomial of `Σ f(x) eq(w, x)`.
- `stream` — streams of field elements: the Lagrange basis, bytecode values, `ra` sums.
- `product_sumcheck` — the space-efficient prover for `Σ p(x) (c + q(x))`.
- `partially_bound_sumcheck` — sumcheck rounds over partially bound polynomials.
- `sumcheck` — round polynomials, the verifier's folding of the claim through the rounds,
  and the batched round polynomial of one round.
- `batched_sumcheck` — the front-loaded batched sumcheck over all its rounds: which
  instances are active, the round polynomials, the claims carried between rounds.
- `opening_reduction` — reducing a batch of openings to one: the coefficients per
  polynomial, the opening point, the joint claim, and the verifier's composition.
- `dory_globals`, `dory_layout`, `layout` — Dory matrix dimensions, layouts and their
  descriptors with their byte encoding.
- `rlc_polynomial` — the dense part of a random linear combination and its product with
  a row vector under both matrix layouts; the address-major product of a one-hot
  polynomial.
- `packed_opening` — the shape checks of a packed batch opening.
- `opening_point`, `advice_opening` — opening points and advice-variable bookkeeping.
- `dory_scheme` — setup sizes, commitment layouts and final opening points of the Dory scheme.
- `calendar` — month and day of log timestamps.

`tests/` holds the executable tests.
