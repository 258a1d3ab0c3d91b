//! Proofs that a vector of Pedersen commitments opens to the evaluations of one
//! low-degree polynomial whose constant term is committed in `f0`.

pub mod completeness;
pub mod helpers;
pub mod polyproof_bulletproof;
pub mod polyproof_fischlin;
pub mod polyproof_schnorr;
pub mod utils;

pub use polyproof_bulletproof::BulletproofPolyProof;
pub use polyproof_fischlin::{FischlinPolyProof, FischlinProofParams};
pub use polyproof_schnorr::{
    PolyWellFormedProof, PolyWellFormedStatement, PolyWellFormedWitness, SchnorrPolyProof,
};
use vstd::prelude::*;

verus! {

/// A proof system for polynomial well-formedness.
pub trait PolyProofScheme {
    type Proof;
    type Params;

    /// What the prover needs of its inputs.
    spec fn prove_requires(
        params: &Self::Params,
        statement: &PolyWellFormedStatement,
        witness: &PolyWellFormedWitness,
    ) -> bool;

    /// What a proof made by `prove` satisfies.
    spec fn proof_honest(
        params: &Self::Params,
        statement: &PolyWellFormedStatement,
        witness: &PolyWellFormedWitness,
        proof: &Self::Proof,
    ) -> bool;

    /// Whether the verifier accepts.
    spec fn proof_valid(
        params: &Self::Params,
        statement: &PolyWellFormedStatement,
        proof: &Self::Proof,
    ) -> bool;

    /// When the prover may come back without a proof.
    spec fn prove_fails(
        params: &Self::Params,
        statement: &PolyWellFormedStatement,
        witness: &PolyWellFormedWitness,
    ) -> bool;

    fn prove(
        params: &Self::Params,
        statement: &PolyWellFormedStatement,
        witness: &PolyWellFormedWitness,
    ) -> (r: Option<Self::Proof>)
        requires
            Self::prove_requires(params, statement, witness),
        ensures
            r matches Some(p) ==> Self::proof_honest(params, statement, witness, &p),
            r is None ==> Self::prove_fails(params, statement, witness),
    ;

    fn verify(
        params: &Self::Params,
        statement: &PolyWellFormedStatement,
        proof: &Self::Proof,
    ) -> (r: bool)
        ensures
            r == Self::proof_valid(params, statement, proof),
    ;
}

} // verus!
