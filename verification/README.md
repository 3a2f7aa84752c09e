# quark_grand_product

Proofs of batches of grand products: the prover convinces the verifier of the product of
many field elements, up to their values at one random point.

- `src/` is the library, verified with Verus. `src/lib.rs` says what each module is for.
- `tests/` runs it over the scalar field of BN254.
- `app/` has proofs as bytes, `std` errors and tracing spans for callers.

## What is proved

- Every function has a contract over integers modulo the field order, tables of values on
  the hypercube, and states of the transcript. The verifiers' contracts give their answer
  and the state of the transcript for every proof, well formed or not.
- The verifier accepts every proof that the prover makes, hands on the same point and the
  values of the leaves there, and ends with the transcript in the same state:
  `completeness::lemma_quark_completeness`, `layer::lemma_layer_completeness`,
  `grand_product::lemma_hybrid_completeness` and `grand_product::lemma_leaves_completeness`.
  They hold of every commitment scheme for which `commitment::accepts_own_openings` holds;
  `plain::lemma_plain_accepts` shows it of the scheme in `plain`.
- What an accepted proof shows: with true values in it, the claims are true, unless a
  challenge of a sum-check was a point at which two different polynomials meet
  (`sumcheck::lemma_sumcheck_soundness` and the laws in `soundness`).
- What the protocols rest on: the table of partial products
  (`product_table::lemma_table_recurrence`, `lemma_table_product`), the sums of the two
  sum-checks (`quark_identity::lemma_quark_total`, `layer::lemma_layer_total`), and the line
  between two points (`line_reduction::lemma_line_reduction`).

## What is believed

- The arithmetic of `ark_bn254::Fr` and its reduction of bytes, in `src/fr.rs`.
- That Keccak-256 as computed by `sha3` is a function of the bytes, in `src/transcript.rs`.
