# halo2_gpu

The host side of a halo2 prover whose heavy kernels run on a device, written in
Verus: the public functions of `src/` carry contracts, which Verus proves but for
the few calls into other crates named below, whose contracts are believed.

## Layout

- `src/field.rs`, `src/field/`: prime fields as integers modulo their order, the
  scalar field of BN254 over `halo2curves`, and the proof that its order is prime.
- `src/poly.rs`, `src/poly/`: polynomials, evaluation domains and transforms,
  rotations, quotients, and the GWC and SHPLONK multi-point openings.
- `src/plonk.rs`, `src/plonk/`: cell values with deferred inversion, expressions,
  constraint systems and selectors, expression graphs with their device encoding,
  key generation, witnesses, lookup and permutation arguments, the quotient, the
  order of a proof, and the proof itself, step by step.
- `app/`: what runs around the library: circuits, commitments and transcripts of
  `halo2_axiom`, and the calls into the device.
- `tests/`: tests against known values, and whole proofs that the verifier of
  `halo2_axiom` accepts.

## What is proved

Contracts speak of integers modulo the field's order: `val` is the canonical
representative of an element, and a polynomial is the sequence of its
coefficients. Functions named `law_` state what holds of several functions
together, for example:

- `law_graph_computes_expression`, `law_tape_computes_graph`: the device tape of
  an expression computes the expression.
- `law_extended_round_trip`, `law_exact_quotient`: transforms invert each other,
  and division on the coset is exact.
- `law_copies_satisfy_permutation`, `law_lookup_constraints_hold`: the running
  products of an honest prover satisfy their constraints.
- `law_honest_proofs_are_complete`: the quotient of an honest prover for a batch
  of circuits, times `X^n - 1`, is their folded constraints at every point, where
  no denominator of a running product vanishes.
- `law_steps_can_be_followed`: each step of a proof finds what it is about, made by
  the steps before it, and no challenge is replaced once something has been made of
  it.
- `law_finished_proofs_are_complete`: a finished proof of a satisfied circuit opens
  to values that satisfy the folded constraints, under the same condition.
- `law_seeded_tape_gives_row_value`: the device folds each circuit of a batch into
  what the circuits before it have come to.
- `law_identifiers_tell_calculations`: expressions with identical identifiers do
  the same calculation.
- `law_linearisation_vanishes`: what a SHPLONK opening divides has the root that
  it is divided by.

`ProofRun` in `src/plonk/running.rs` makes a proof: it says what is to be hashed,
drawn, committed to or squeezed next, and takes the answers. `app/prover.rs` and
`tests/verifier.rs` do what it says.

What the library takes from other crates is behind small functions marked
`external_body`, most of them in `src/field/bn256.rs`; the comment above each
says what is believed of the call.
