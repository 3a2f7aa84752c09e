//! Commitments to multilinear polynomials.
use crate::errors::ProofVerifyError;
use crate::field;
use crate::field::JoltField;
use crate::poly;
use crate::poly::DensePolynomial;
use crate::transcript::{AppendToTranscript, ProofTranscript};
use vstd::prelude::*;

verus! {

/// How the polynomials of a batch are laid out for the commitment.
#[derive(Clone, Copy, Debug, PartialEq, Eq)]
pub enum BatchType {
    /// Few polynomials with many values.
    Big,
    /// Many polynomials with few values.
    Small,
}

/// A scheme to commit to multilinear polynomials and to open a batch of
/// commitments at one point.
///
/// The specifications name what an implementation does. They do not say that an
/// opening proof is accepted: see `accepts_own_openings`.
pub trait CommitmentScheme: Sized {
    type Field: JoltField;

    type Setup;

    type Commitment: AppendToTranscript;

    type BatchedProof;

    /// The setup is large enough for polynomials with `num_vars` variables.
    spec fn supports(setup: Self::Setup, num_vars: nat) -> bool;

    /// `commitments` are commitments to the polynomials with the values `polys`.
    spec fn commits(
        polys: Seq<Seq<int>>,
        setup: Self::Setup,
        batch_type: BatchType,
        commitments: Seq<Self::Commitment>,
    ) -> bool;

    /// `proof` is an opening proof for the polynomials with the values `polys`.
    spec fn opens(
        setup: Self::Setup,
        polys: Seq<Seq<int>>,
        point: Seq<int>,
        openings: Seq<int>,
        batch_type: BatchType,
        state: Seq<u8>,
        proof: Self::BatchedProof,
    ) -> bool;

    /// The state of the transcript after the prover's part of the opening `proof`.
    spec fn after_prove(
        setup: Self::Setup,
        polys: Seq<Seq<int>>,
        point: Seq<int>,
        openings: Seq<int>,
        batch_type: BatchType,
        state: Seq<u8>,
        proof: Self::BatchedProof,
    ) -> Seq<u8>;

    /// The verifier accepts `proof` of the values `openings` at `point`.
    spec fn accepts(
        proof: Self::BatchedProof,
        setup: Self::Setup,
        point: Seq<int>,
        openings: Seq<int>,
        commitments: Seq<Self::Commitment>,
        state: Seq<u8>,
    ) -> bool;

    /// The state of the transcript after the verifier's part of the opening `proof`.
    spec fn after_verify(
        proof: Self::BatchedProof,
        setup: Self::Setup,
        point: Seq<int>,
        openings: Seq<int>,
        commitments: Seq<Self::Commitment>,
        state: Seq<u8>,
    ) -> Seq<u8>;

    /// Commits to each polynomial.
    fn batch_commit_polys(
        polys: &[DensePolynomial<Self::Field>],
        setup: &Self::Setup,
        batch_type: BatchType,
    ) -> (r: Vec<Self::Commitment>)
        requires
            exists|n: nat| #[trigger] Self::supports(*setup, n) && poly::all_have_vars(polys@, n),
        ensures
            r@.len() == polys@.len(),
            Self::commits(poly::tables(polys@), *setup, batch_type, r@),
    ;

    /// Proves the values of the polynomials at `point`.
    fn batch_prove(
        setup: &Self::Setup,
        polys: &[DensePolynomial<Self::Field>],
        point: &[Self::Field],
        openings: &[Self::Field],
        batch_type: BatchType,
        transcript: &mut ProofTranscript,
    ) -> (r: Self::BatchedProof)
        requires
            Self::supports(*setup, point@.len()),
            poly::all_have_vars(polys@, point@.len()),
            field::values(openings@) == poly::evals_at(
                poly::tables(polys@),
                field::values(point@),
                Self::Field::modulus(),
            ),
        ensures
            Self::opens(
                *setup,
                poly::tables(polys@),
                field::values(point@),
                field::values(openings@),
                batch_type,
                old(transcript)@,
                r,
            ),
            final(transcript)@ == Self::after_prove(
                *setup,
                poly::tables(polys@),
                field::values(point@),
                field::values(openings@),
                batch_type,
                old(transcript)@,
                r,
            ),
    ;

    /// Checks a proof of the values at `point` of the polynomials behind the
    /// commitments.
    fn batch_verify(
        batch_proof: &Self::BatchedProof,
        setup: &Self::Setup,
        point: &[Self::Field],
        openings: &[Self::Field],
        commitments: &[Self::Commitment],
        transcript: &mut ProofTranscript,
    ) -> (r: Result<(), ProofVerifyError>)
        ensures
            r is Ok <==> Self::accepts(
                *batch_proof,
                *setup,
                field::values(point@),
                field::values(openings@),
                commitments@,
                old(transcript)@,
            ),
            final(transcript)@ == Self::after_verify(
                *batch_proof,
                *setup,
                field::values(point@),
                field::values(openings@),
                commitments@,
                old(transcript)@,
            ),
    ;
}

/// The scheme accepts every opening proof that it makes itself, and prover and
/// verifier leave the transcript in the same state.
pub open spec fn accepts_own_openings<C: CommitmentScheme>() -> bool {
    forall|
        setup: C::Setup,
        polys: Seq<Seq<int>>,
        point: Seq<int>,
        openings: Seq<int>,
        batch_type: BatchType,
        commitments: Seq<C::Commitment>,
        state: Seq<u8>,
        proof: C::BatchedProof,
    |
        #![trigger C::commits(polys, setup, batch_type, commitments), C::opens(setup, polys, point, openings, batch_type, state, proof)]
        {
            &&& C::supports(setup, point.len())
            &&& poly::tables_have_vars(polys, point.len())
            &&& commitments.len() == polys.len()
            &&& openings == poly::evals_at(polys, point, C::Field::modulus())
            &&& C::commits(polys, setup, batch_type, commitments)
            &&& C::opens(setup, polys, point, openings, batch_type, state, proof)
        } ==> {
            &&& C::accepts(proof, setup, point, openings, commitments, state)
            &&& C::after_verify(proof, setup, point, openings, commitments, state)
                == C::after_prove(setup, polys, point, openings, batch_type, state, proof)
        }
}

/// The polynomials that `table` finds behind the commitments.
pub open spec fn committed_tables<C: CommitmentScheme>(
    table: spec_fn(C::Commitment) -> Seq<int>,
    commitments: Seq<C::Commitment>,
) -> Seq<Seq<int>> {
    Seq::new(commitments.len(), |i: int| table(commitments[i]))
}

/// The scheme accepts no opening but that of the true values of the polynomials that `table`
/// finds behind the commitments.
pub open spec fn opens_only_true_values<C: CommitmentScheme>(
    setup: C::Setup,
    table: spec_fn(C::Commitment) -> Seq<int>,
) -> bool {
    forall|
        proof: C::BatchedProof,
        point: Seq<int>,
        openings: Seq<int>,
        commitments: Seq<C::Commitment>,
        state: Seq<u8>,
    | #[trigger]
        C::accepts(proof, setup, point, openings, commitments, state) ==> openings
            == poly::evals_at(
            committed_tables::<C>(table, commitments),
            point,
            C::Field::modulus(),
        )
}

} // verus!
