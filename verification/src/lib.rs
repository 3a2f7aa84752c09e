//! Proofs of batches of grand products.
//!
//! A grand product is the product of many field elements, the leaves. The prover convinces
//! the verifier of the product of each batch of leaves, up to the values of the leaves at
//! one random point, which are left to be checked.
//!
//! `quark` holds the proofs by the technique of Section 5 of the Quarks paper.
//! `grand_product` puts layers that are proved one by one below a quark proof. `layer` has
//! the proof of such a layer, `sumcheck` the protocol that both rest on, and
//! `line_reduction` the reduction of claims at two points to one.
//!
//! Field elements are modelled by integers below the modulus (`field`), and multilinear
//! polynomials by their values on the Boolean hypercube (`mle`, `poly`). Identities between
//! polynomials are proved over the integers and carried to the field by congruence
//! (`arith`). The state of the transcript is part of every contract (`transcript`), so that
//! what prover and verifier draw from it is known on both sides. `completeness` and
//! `grand_product` prove that the verifier accepts what the prover makes, for every
//! commitment scheme that accepts its own openings (`commitment`). `soundness` says what an
//! accepted proof shows, and `answers` when a proof is accepted and how it is refused.
pub mod answers;
pub mod arith;
pub mod combination;
pub mod commitment;
pub mod completeness;
pub mod errors;
pub mod field;
pub mod fr;
pub mod grand_product;
pub mod layer;
pub mod line_reduction;
pub mod math;
pub mod mle;
pub mod plain;
pub mod poly;
pub mod product_table;
pub mod quark;
pub mod quark_identity;
pub mod soundness;
pub mod sumcheck;
pub mod transcript;
