//! Why a proof is not accepted.
use vstd::prelude::*;

verus! {

/// Why a part of a proof is not accepted.
#[derive(Clone, Copy, Debug, PartialEq, Eq)]
pub enum ProofVerifyError {
    /// A sum-check proof does not have one message for each round.
    InvalidRounds,
    /// A message of a sum-check proof is not a polynomial of the degree bound.
    InvalidDegree,
    /// An opening proof fails.
    InvalidOpening,
}

/// Why a quark proof is not accepted.
#[derive(Clone, Copy, Debug, PartialEq, Eq)]
pub enum QuarkError {
    /// Returned if the sumcheck fails.
    InvalidQuarkSumcheck,
    /// Returned if a quark opening proof fails.
    InvalidOpeningProof,
    /// Returned if eq(tau, r)*(f(1, r) - f(r, 0)*f(r,1)) does not match the result from
    /// sumcheck.
    InvalidBinding,
}

impl QuarkError {
    /// The text that is shown for the error.
    pub fn message(&self) -> (r: &'static str)
        ensures
            r@ == match *self {
                QuarkError::InvalidQuarkSumcheck => "InvalidSumcheck"@,
                QuarkError::InvalidOpeningProof => "IvalidOpeningProof"@,
                QuarkError::InvalidBinding => "IvalidOpeningProof"@,
            },
    {
        match self {
            QuarkError::InvalidQuarkSumcheck => "InvalidSumcheck",
            QuarkError::InvalidOpeningProof => "IvalidOpeningProof",
            QuarkError::InvalidBinding => "IvalidOpeningProof",
        }
    }
}

/// Why a proof of a batch of grand products is not accepted.
#[derive(Clone, Copy, Debug, PartialEq, Eq)]
pub enum GrandProductError {
    /// There is a quark proof, but no setup to verify it with.
    MissingSetup,
    /// The quark proof is not accepted.
    Quark(QuarkError),
    /// The sum-check of a layer does not have the right shape.
    InvalidLayerSumcheck,
    /// A layer does not have a pair of claims for each grand product.
    InvalidLayerClaims,
    /// The claims of a layer do not match the result of its sum-check.
    InvalidLayerBinding,
}

} // verus!
