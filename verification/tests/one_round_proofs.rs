// Well-formedness proofs of the one-round protocol: happy path, negative paths,
// and the forgeries an aggregate-equation proof would accept.

use janus::group::{g, h};
use janus::one_round_proofs::polyproof_fischlin::{
    batch_verify_fischlin_with_params, prove_fischlin_with_params, verify_fischlin_with_params,
};
use janus::one_round_proofs::polyproof_schnorr::{
    prove, verify, PolyWellFormedStatement, PolyWellFormedWitness,
};
use janus::pedersen::PedersenCommitment;
use janus::poly::eval_poly_at;
use janus::scalar::Scalar;

fn sc(x: u64) -> Scalar {
    Scalar::from_u64(x)
}

fn scs(xs: &[u64]) -> Vec<Scalar> {
    xs.iter().map(|x| sc(*x)).collect()
}

fn build_instance(
    coeffs: Vec<Scalar>,
    xs: Vec<Scalar>,
    blindings: Vec<Scalar>,
) -> (PolyWellFormedStatement, PolyWellFormedWitness) {
    let commitments: Vec<PedersenCommitment> = xs
        .iter()
        .zip(blindings.iter())
        .map(|(x, rho)| PedersenCommitment::new(eval_poly_at(&coeffs, *x), *rho))
        .collect();
    let degree = coeffs.len() - 1;
    let statement = PolyWellFormedStatement {
        x_points: xs,
        commitments,
        f0_commitment: g().mul(&coeffs[0]),
        degree,
    };
    let witness = PolyWellFormedWitness { coeffs, blindings };
    (statement, witness)
}

fn small_instance() -> (PolyWellFormedStatement, PolyWellFormedWitness) {
    build_instance(scs(&[3, 5, 7]), scs(&[1, 2]), scs(&[11, 13]))
}

fn off_polynomial_statement() -> (PolyWellFormedStatement, PolyWellFormedWitness) {
    let xs: Vec<Scalar> = (1..=5).map(|i| sc(i as u64)).collect();
    // Arbitrary values, not the evaluations of any degree-2 polynomial.
    let vals: Vec<Scalar> = scs(&[1, 2, 9, 1, 7]);
    let blindings: Vec<Scalar> = (0..5).map(|i| sc(100 + i as u64)).collect();
    let commitments: Vec<PedersenCommitment> = vals
        .iter()
        .zip(blindings.iter())
        .map(|(v, b)| PedersenCommitment::new(*v, *b))
        .collect();
    let a0 = sc(3);
    let statement = PolyWellFormedStatement {
        x_points: xs,
        commitments,
        f0_commitment: g().mul(&a0),
        degree: 2,
    };
    let witness = PolyWellFormedWitness { coeffs: vec![a0, sc(5), sc(7)], blindings };
    (statement, witness)
}

fn bump(s: &mut Scalar) {
    *s = s.add(&Scalar::one());
}

#[test]
fn test_poly_well_formed_proof() {
    let (statement, witness) = small_instance();
    let proof = prove(&statement, &witness);
    assert!(verify(&statement, &proof));
}

#[test]
fn test_verify_fails_if_commitment_is_modified() {
    let (mut statement, witness) = small_instance();
    let proof = prove(&statement, &witness);
    let modified = statement.commitments[1].point().add(&g().mul(&Scalar::one()));
    statement.commitments[1] = PedersenCommitment::from_point(modified);
    assert!(!verify(&statement, &proof));
}

#[test]
fn test_verify_fails_if_f0_commitment_is_modified() {
    let (mut statement, witness) = small_instance();
    let proof = prove(&statement, &witness);
    statement.f0_commitment = statement.f0_commitment.add(&g().mul(&Scalar::one()));
    assert!(!verify(&statement, &proof));
}

#[test]
fn test_verify_fails_if_t_is_modified() {
    let (statement, witness) = small_instance();
    let mut proof = prove(&statement, &witness);
    proof.t_commitments[0] = proof.t_commitments[0].add(&h().mul(&Scalar::one()));
    assert!(!verify(&statement, &proof));
}

#[test]
fn test_verify_fails_if_z_coeff_is_modified() {
    let (statement, witness) = small_instance();
    let mut proof = prove(&statement, &witness);
    bump(&mut proof.z_coeffs[1]);
    assert!(!verify(&statement, &proof));
}

#[test]
fn test_verify_fails_if_z_blinding_is_modified() {
    let (statement, witness) = small_instance();
    let mut proof = prove(&statement, &witness);
    bump(&mut proof.z_blindings[0]);
    assert!(!verify(&statement, &proof));
}

#[test]
fn test_verify_fails_for_wrong_witness() {
    let (statement, mut witness) = small_instance();
    bump(&mut witness.coeffs[2]);
    let proof = prove(&statement, &witness);
    assert!(!verify(&statement, &proof));
}

// A malicious dealer commits to evaluations that lie on no polynomial of the
// claimed degree; every proof it can build is rejected.
#[test]
fn one_round_proofs_forgery_non_low_degree_commitments_rejected() {
    let (statement, witness) = off_polynomial_statement();
    let proof = prove(&statement, &witness);
    assert!(!verify(&statement, &proof), "non-low-degree commitments must be rejected");
}

#[test]
fn test_constant_polynomial() {
    let (statement, witness) = build_instance(scs(&[42]), scs(&[1, 2, 5, 9]), scs(&[10, 11, 12, 13]));
    let proof = prove(&statement, &witness);
    assert!(verify(&statement, &proof));
}

#[test]
fn test_many_evaluation_points() {
    let (statement, witness) =
        build_instance(scs(&[2, 3, 5, 7]), scs(&[1, 2, 3, 4, 5]), scs(&[11, 12, 13, 14, 15]));
    let proof = prove(&statement, &witness);
    assert!(verify(&statement, &proof));
}

#[test]
fn test_verify_fails_if_x_points_are_modified() {
    let (mut statement, witness) = small_instance();
    let proof = prove(&statement, &witness);
    statement.x_points[1] = sc(3);
    assert!(!verify(&statement, &proof));
}

#[test]
fn test_verify_fails_on_wrong_number_of_blinding_responses() {
    let (statement, witness) = small_instance();
    let mut proof = prove(&statement, &witness);
    proof.z_blindings.pop();
    assert!(!verify(&statement, &proof));
}

#[test]
fn test_verify_fails_on_empty_coeff_responses() {
    let (statement, witness) = small_instance();
    let mut proof = prove(&statement, &witness);
    proof.z_coeffs.clear();
    assert!(!verify(&statement, &proof));
}

fn fischlin_instance() -> (PolyWellFormedStatement, PolyWellFormedWitness) {
    build_instance(scs(&[2, 3, 5]), scs(&[1, 2, 3]), scs(&[7, 11, 13]))
}

#[test]
fn test_fischlin_proof_valid_custom_params() {
    let (statement, witness) = fischlin_instance();
    let proof = prove_fischlin_with_params(&statement, &witness, 4, 4, 9).unwrap();
    assert!(verify_fischlin_with_params(&statement, &proof, 4, 4, 9));
}

// Commitments that lie on no degree-2 polynomial must be rejected whatever
// degree-2 witness the dealer picks.
#[test]
fn forgery_non_low_degree_commitments_rejected() {
    let (statement, witness) = off_polynomial_statement();
    let proof = prove_fischlin_with_params(&statement, &witness, 4, 4, 9).unwrap();
    assert!(!verify_fischlin_with_params(&statement, &proof, 4, 4, 9));
}

// The rank-1 fold shares one weight vector across rounds; a single corrupted
// equation in an interior round is still caught.
#[test]
fn rank1_fold_rejects_single_middle_round_corruption() {
    let (statement, witness) = fischlin_instance();
    let mut p1 = prove_fischlin_with_params(&statement, &witness, 5, 4, 9).unwrap();
    bump(&mut p1.rounds[2].z_coeffs[1]);
    assert!(!verify_fischlin_with_params(&statement, &p1, 5, 4, 9));
    let mut p2 = prove_fischlin_with_params(&statement, &witness, 5, 4, 9).unwrap();
    bump(&mut p2.rounds[3].z_blindings[2]);
    assert!(!verify_fischlin_with_params(&statement, &p2, 5, 4, 9));
}

#[test]
fn test_batch_verify_valid_single() {
    let (statement, witness) = small_instance();
    let proof = prove_fischlin_with_params(&statement, &witness, 4, 4, 9).unwrap();
    assert!(batch_verify_fischlin_with_params(&[statement], &[proof], 4, 4, 9));
}

#[test]
fn test_batch_verify_valid_many() {
    let mut statements = Vec::new();
    let mut proofs = Vec::new();
    for k in 0..4u64 {
        let coeffs = vec![sc(2 + k), sc(3 + k), sc(5 + k)];
        let blindings = vec![sc(7 + k), sc(11 + k), sc(13 + k)];
        let (statement, witness) = build_instance(coeffs, scs(&[1, 2, 3]), blindings);
        let proof = prove_fischlin_with_params(&statement, &witness, 4, 4, 9).unwrap();
        statements.push(statement);
        proofs.push(proof);
    }
    assert!(batch_verify_fischlin_with_params(&statements, &proofs, 4, 4, 9));
}

#[test]
fn test_fischlin_verify_fails_if_commitment_modified() {
    let (mut statement, witness) = small_instance();
    let proof = prove_fischlin_with_params(&statement, &witness, 4, 4, 9).unwrap();
    let modified = statement.commitments[1].point().add(&g().mul(&Scalar::one()));
    statement.commitments[1] = PedersenCommitment::from_point(modified);
    assert!(!verify_fischlin_with_params(&statement, &proof, 4, 4, 9));
}

#[test]
fn test_fischlin_verify_fails_if_f0_modified() {
    let (mut statement, witness) = small_instance();
    let proof = prove_fischlin_with_params(&statement, &witness, 4, 4, 9).unwrap();
    statement.f0_commitment = statement.f0_commitment.add(&g().mul(&Scalar::one()));
    assert!(!verify_fischlin_with_params(&statement, &proof, 4, 4, 9));
}

#[test]
fn test_fischlin_verify_fails_if_x_points_modified() {
    let (mut statement, witness) = small_instance();
    let proof = prove_fischlin_with_params(&statement, &witness, 4, 4, 9).unwrap();
    statement.x_points[1] = sc(9);
    assert!(!verify_fischlin_with_params(&statement, &proof, 4, 4, 9));
}

#[test]
fn test_fischlin_verify_fails_if_round_t_modified() {
    let (statement, witness) = small_instance();
    let mut proof = prove_fischlin_with_params(&statement, &witness, 4, 4, 9).unwrap();
    proof.rounds[0].t_commitments[0] = proof.rounds[0].t_commitments[0].add(&h().mul(&Scalar::one()));
    assert!(!verify_fischlin_with_params(&statement, &proof, 4, 4, 9));
}

#[test]
fn test_fischlin_verify_fails_if_round_e_modified() {
    let (statement, witness) = small_instance();
    let mut proof = prove_fischlin_with_params(&statement, &witness, 4, 4, 9).unwrap();
    proof.rounds[0].e ^= 1;
    assert!(!verify_fischlin_with_params(&statement, &proof, 4, 4, 9));
}

#[test]
fn test_fischlin_verify_fails_if_z_coeff_modified() {
    let (statement, witness) = small_instance();
    let mut proof = prove_fischlin_with_params(&statement, &witness, 4, 4, 9).unwrap();
    bump(&mut proof.rounds[0].z_coeffs[1]);
    assert!(!verify_fischlin_with_params(&statement, &proof, 4, 4, 9));
}

#[test]
fn test_fischlin_verify_fails_if_z_blinding_modified() {
    let (statement, witness) = small_instance();
    let mut proof = prove_fischlin_with_params(&statement, &witness, 4, 4, 9).unwrap();
    bump(&mut proof.rounds[0].z_blindings[0]);
    assert!(!verify_fischlin_with_params(&statement, &proof, 4, 4, 9));
}

#[test]
fn test_fischlin_verify_fails_if_round_removed() {
    let (statement, witness) = small_instance();
    let mut proof = prove_fischlin_with_params(&statement, &witness, 4, 4, 9).unwrap();
    proof.rounds.pop();
    assert!(!verify_fischlin_with_params(&statement, &proof, 4, 4, 9));
}

#[test]
fn test_fischlin_verify_fails_if_wrong_blinding_length() {
    let (statement, witness) = small_instance();
    let mut proof = prove_fischlin_with_params(&statement, &witness, 4, 4, 9).unwrap();
    proof.rounds[0].z_blindings.pop();
    assert!(!verify_fischlin_with_params(&statement, &proof, 4, 4, 9));
}

#[test]
fn test_fischlin_verify_fails_if_wrong_coeff_length() {
    let (statement, witness) = small_instance();
    let mut proof = prove_fischlin_with_params(&statement, &witness, 4, 4, 9).unwrap();
    proof.rounds[0].z_coeffs.pop();
    assert!(!verify_fischlin_with_params(&statement, &proof, 4, 4, 9));
}

#[test]
fn test_fischlin_verify_fails_if_invalid_params() {
    let (statement, witness) = build_instance(scs(&[2, 3]), scs(&[1]), scs(&[5]));
    let proof = prove_fischlin_with_params(&statement, &witness, 2, 4, 9).unwrap();
    assert!(!verify_fischlin_with_params(&statement, &proof, 0, 4, 9));
    assert!(!verify_fischlin_with_params(&statement, &proof, 2, 0, 9));
    assert!(!verify_fischlin_with_params(&statement, &proof, 2, 4, 0));
    assert!(!verify_fischlin_with_params(&statement, &proof, 2, 10, 9));
    assert!(!verify_fischlin_with_params(&statement, &proof, 2, 4, 16));
}

#[test]
fn test_fischlin_verify_fails_if_invalid_round_count() {
    let (statement, witness) = build_instance(scs(&[2, 3]), scs(&[1]), scs(&[5]));
    let proof = prove_fischlin_with_params(&statement, &witness, 3, 4, 9).unwrap();
    assert!(!verify_fischlin_with_params(&statement, &proof, 2, 4, 9));
}

#[test]
fn test_fischlin_verify_fails_for_wrong_witness() {
    let (statement, mut witness) = build_instance(scs(&[2, 3, 5]), scs(&[1, 2]), scs(&[7, 11]));
    bump(&mut witness.coeffs[1]);
    let proof = prove_fischlin_with_params(&statement, &witness, 4, 4, 9).unwrap();
    assert!(!verify_fischlin_with_params(&statement, &proof, 4, 4, 9));
}

#[test]
fn test_fischlin_constant_polynomial() {
    let (statement, witness) = build_instance(scs(&[42]), scs(&[1, 2, 5, 9]), scs(&[10, 11, 12, 13]));
    let proof = prove_fischlin_with_params(&statement, &witness, 4, 4, 9).unwrap();
    assert!(verify_fischlin_with_params(&statement, &proof, 4, 4, 9));
}

#[test]
fn test_fischlin_many_evaluation_points() {
    let (statement, witness) =
        build_instance(scs(&[2, 3, 5, 7]), scs(&[1, 2, 3, 4, 5]), scs(&[11, 12, 13, 14, 15]));
    let proof = prove_fischlin_with_params(&statement, &witness, 4, 4, 9).unwrap();
    assert!(verify_fischlin_with_params(&statement, &proof, 4, 4, 9));
}
