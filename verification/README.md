# lilium_sumcheck

Sumcheck-based polynomial protocols over the scalar field of Vesta, with the
interaction transcript that drives them, written in Verus: every function of
the library carries a contract that Verus proves.

The library is for testing only: the transcript's sponge uses a small
algebraic permutation of no cryptographic strength, so the challenges it
draws do not make a sound Fiat-Shamir transcript.

## Layout

- `field`: field elements (four canonical 64-bit limbs) and their arithmetic,
  with the spec operations `fadd`, `fsub`, `fmul`, `finv`; the primitive
  operations call `ark_vesta::Fr` through a few trusted wrappers.
- `algebra`: sums and products of sequences of field values.
- `polynomials`: points, the equality polynomial, multilinear tables and their
  evaluation (two algorithms, proved to agree).
- `barycentric`: evaluation of a polynomial from its values over `0..=d`.
- `interpolation`: polynomials by coefficients; interpolation over `0..=d` and
  the barycentric formula are exact in a field.
- `message`: round messages as evaluations over `0..=d`.
- `sponge`: the duplex sponge with a fixed absorb/squeeze pattern; its
  permutation is a small algebraic one of no cryptographic strength, not
  Poseidon2.
- `transcript`: the shape of an interaction, the transcript that follows it,
  guards and guarded proofs.
- `sumcheck`: the function of a sumcheck as an expression, its environments,
  the prover (plain and for zerochecks) and the verifier.
- `prove`: the prover over an oracle (structure, instance and witness rows).
- `completeness`: the verifier accepts the honest prover.
- `zerocheck`: compact powers, their tables and the zerocheck indices.
- `folding`: folding of two sumcheck instances (claims, instance
  evaluations and witnesses), and its specialised prover for zerochecks,
  whose message also carries the lines between the two instances' powers.
- `zero_folding`: what that specialised message is, at every point: the
  weighed sum of the function along the lines between the two witnesses,
  weighed by the product table of the lines between the powers.
- `relations`, `reduction`, `sumcheck_relations`, `sumcheck_reduction`,
  `zerocheck_reduction`: relations, reductions between them, their
  composition, and the sumcheck and zerocheck relations and reductions.
- `oracles`: natures and locations of the polynomials, the core oracle's
  instance.
- `composite`: the composite oracle, whose polynomials are answered by two
  partial oracles or provided by the prover.

The tests under `tests/` run the protocols end to end.
