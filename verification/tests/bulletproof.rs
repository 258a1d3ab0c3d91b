// The inner-product well-formedness proof.

use janus::group::g;
use janus::one_round_proofs::polyproof_bulletproof::{
    make_bulletproof_params, prove_bulletproof, verify_bulletproof, verify_bulletproof_debug,
    PolyWellFormedBulletproofParams,
};
use janus::one_round_proofs::polyproof_schnorr::{PolyWellFormedStatement, PolyWellFormedWitness};
use janus::pedersen::PedersenCommitment;
use janus::poly::eval_poly_at;
use janus::scalar::Scalar;

fn make_instance(
    degree: usize,
    n: usize,
) -> (PolyWellFormedStatement, PolyWellFormedWitness, PolyWellFormedBulletproofParams) {
    let coeffs: Vec<Scalar> = (0..=degree).map(|_| Scalar::random()).collect();
    let blindings: Vec<Scalar> = (0..n).map(|_| Scalar::random()).collect();
    let x_points: Vec<Scalar> = (1..=n).map(|i| Scalar::from_u64(i as u64)).collect();
    let commitments: Vec<PedersenCommitment> = x_points
        .iter()
        .zip(blindings.iter())
        .map(|(x, rho)| PedersenCommitment::new(eval_poly_at(&coeffs, *x), *rho))
        .collect();
    let statement = PolyWellFormedStatement {
        x_points,
        commitments,
        f0_commitment: g().mul(&coeffs[0]),
        degree,
    };
    let witness = PolyWellFormedWitness { coeffs, blindings };
    let pp = make_bulletproof_params(degree + 1, n);
    (statement, witness, pp)
}

#[test]
fn bulletproof_roundtrip_verifies() {
    let (statement, witness, pp) = make_instance(3, 5);
    let proof = prove_bulletproof(&statement, &witness, &pp);
    match verify_bulletproof_debug(&statement, &proof, &pp) {
        Ok(()) => {},
        Err(e) => panic!("{e:?}"),
    }
}

#[test]
fn bulletproof_rejects_a_modified_commitment() {
    let (mut statement, witness, pp) = make_instance(2, 4);
    let proof = prove_bulletproof(&statement, &witness, &pp);
    statement.commitments[1] = PedersenCommitment::new(Scalar::random(), Scalar::random());
    assert!(!verify_bulletproof(&statement, &proof, &pp));
}
