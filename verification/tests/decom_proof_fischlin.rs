// The Fischlin-transformed decommitment proof.

use janus::group::g;
use janus::pedersen::PedersenCommitment;
use janus::scalar::Scalar;
use janus::two_round_proofs::decom_proof::{DecomStatement, DecomWitness};
use janus::two_round_proofs::decom_proof_fischlin::{
    prove_fischlin_with_params, verify_fischlin_with_params, DecomFischlinProof,
    FischlinDecomProofParams,
};

fn params() -> FischlinDecomProofParams {
    FischlinDecomProofParams { rho: 4, b: 4, t_bits: 9 }
}

fn sample_witness_and_statement() -> (DecomWitness, DecomStatement) {
    let witness = DecomWitness {
        a: (0..4).map(|_| Scalar::random()).collect(),
        b: (0..4).map(|_| Scalar::random()).collect(),
        omega: Scalar::random(),
        r: Scalar::random(),
    };
    let statement = DecomStatement {
        pedvss: witness.a.iter().zip(witness.b.iter()).map(|(a, b)| PedersenCommitment::new(*a, *b)).collect(),
        d: PedersenCommitment::new(witness.omega, witness.r),
    };
    (witness, statement)
}

fn proof_for(statement: &DecomStatement, witness: &DecomWitness) -> DecomFischlinProof {
    let p = params();
    prove_fischlin_with_params(statement, witness, p.rho, p.b, p.t_bits).unwrap()
}

fn verifies(statement: &DecomStatement, proof: &DecomFischlinProof) -> bool {
    let p = params();
    verify_fischlin_with_params(statement, proof, p.rho, p.b, p.t_bits)
}

#[test]
fn decom_proof_fischlin_decom_fischlin_roundtrip() {
    let (witness, statement) = sample_witness_and_statement();
    let proof = proof_for(&statement, &witness);
    assert!(verifies(&statement, &proof));
}

#[test]
fn decom_proof_fischlin_decom_fischlin_fails_for_wrong_statement() {
    let (witness, statement) = sample_witness_and_statement();
    let mut wrong_pedvss = statement.pedvss.clone();
    wrong_pedvss[2] = PedersenCommitment::new(Scalar::random(), Scalar::random());
    let wrong = DecomStatement { pedvss: wrong_pedvss, d: statement.d };
    let proof = proof_for(&statement, &witness);
    assert!(!verifies(&wrong, &proof));
}

#[test]
fn decom_proof_fischlin_decom_fischlin_fails_if_t1_modified() {
    let (witness, statement) = sample_witness_and_statement();
    let mut proof = proof_for(&statement, &witness);
    proof.rounds[0].t = proof.rounds[0].t.add(&g());
    assert!(!verifies(&statement, &proof));
}

#[test]
fn decom_proof_fischlin_decom_fischlin_fails_if_e_modified() {
    let (witness, statement) = sample_witness_and_statement();
    let mut proof = proof_for(&statement, &witness);
    proof.rounds[0].e ^= 1;
    assert!(!verifies(&statement, &proof));
}

#[test]
fn decom_proof_fischlin_decom_fischlin_fails_if_z_modified() {
    let (witness, statement) = sample_witness_and_statement();
    let mut proof = proof_for(&statement, &witness);
    proof.rounds[0].z_a[1] = proof.rounds[0].z_a[1].add(&Scalar::one());
    assert!(!verifies(&statement, &proof));
}

#[test]
fn decom_proof_fischlin_decom_fischlin_fails_if_round_removed() {
    let (witness, statement) = sample_witness_and_statement();
    let mut proof = proof_for(&statement, &witness);
    proof.rounds.pop();
    assert!(!verifies(&statement, &proof));
}

#[test]
fn decom_proof_fischlin_decom_fischlin_fails_if_vector_length_modified() {
    let (witness, statement) = sample_witness_and_statement();
    let mut proof = proof_for(&statement, &witness);
    proof.rounds[0].z_b.pop();
    assert!(!verifies(&statement, &proof));
}
