// The compact encoding must accept and refuse exactly what the protocol's own
// encoding does, so these mirror the well-formedness tests, the forgery too.

use janus::compact_encoding::{prove_compact, verify_compact, CompactFischlinPolyProof};
use janus::group::g_mul_scalar;
use janus::one_round_proofs::{FischlinProofParams, PolyProofScheme, PolyWellFormedStatement, PolyWellFormedWitness};
use janus::pedersen::PedersenCommitment;
use janus::poly::eval_poly_at;
use janus::scalar::Scalar;

fn sc(x: u64) -> Scalar {
    Scalar::from_u64(x)
}

fn instance(coeffs: Vec<Scalar>, xs: Vec<Scalar>, blindings: Vec<Scalar>) -> (PolyWellFormedStatement, PolyWellFormedWitness) {
    let commitments: Vec<PedersenCommitment> = xs
        .iter()
        .zip(blindings.iter())
        .map(|(x, r)| PedersenCommitment::new(eval_poly_at(&coeffs, *x), *r))
        .collect();
    let degree = coeffs.len() - 1;
    (
        PolyWellFormedStatement { x_points: xs, commitments, f0_commitment: g_mul_scalar(coeffs[0]), degree },
        PolyWellFormedWitness { coeffs, blindings },
    )
}

fn small() -> (PolyWellFormedStatement, PolyWellFormedWitness) {
    instance(vec![sc(2), sc(3), sc(5)], vec![sc(1), sc(2), sc(3)], vec![sc(7), sc(11), sc(13)])
}

#[test]
fn accepts_an_honest_proof() {
    let (st, wit) = small();
    let p = prove_compact(&st, &wit, 4, 4, 9).unwrap();
    assert!(verify_compact(&st, &p, 4, 4, 9));
}

// Commitments that lie on no degree-2 polynomial.
#[test]
fn rejects_commitments_off_the_polynomial() {
    let xs: Vec<Scalar> = (1..=5).map(|i| sc(i as u64)).collect();
    let vals: Vec<Scalar> = [1u64, 2, 9, 1, 7].iter().map(|v| sc(*v)).collect();
    let blindings: Vec<Scalar> = (0..5).map(|i| sc(100 + i as u64)).collect();
    let commitments: Vec<PedersenCommitment> = vals.iter().zip(blindings.iter()).map(|(v, b)| PedersenCommitment::new(*v, *b)).collect();
    let a0 = sc(3);
    let st = PolyWellFormedStatement { x_points: xs, commitments, f0_commitment: g_mul_scalar(a0), degree: 2 };
    let wit = PolyWellFormedWitness { coeffs: vec![a0, sc(5), sc(7)], blindings };
    let p = prove_compact(&st, &wit, 4, 4, 9).unwrap();
    assert!(!verify_compact(&st, &p, 4, 4, 9));
}

#[test]
fn rejects_tampered_responses() {
    let (st, wit) = small();
    let mut p = prove_compact(&st, &wit, 5, 4, 9).unwrap();
    p.rounds[2].z_coeffs[1] = p.rounds[2].z_coeffs[1].add(&Scalar::one());
    assert!(!verify_compact(&st, &p, 5, 4, 9));
    let mut q = prove_compact(&st, &wit, 5, 4, 9).unwrap();
    q.rounds[3].z_blindings[2] = q.rounds[3].z_blindings[2].add(&Scalar::one());
    assert!(!verify_compact(&st, &q, 5, 4, 9));
    let mut r = prove_compact(&st, &wit, 5, 4, 9).unwrap();
    r.rounds[1].e ^= 1;
    assert!(!verify_compact(&st, &r, 5, 4, 9));
}

#[test]
fn rejects_a_modified_statement() {
    let (mut st, wit) = small();
    let p = prove_compact(&st, &wit, 4, 4, 9).unwrap();
    st.f0_commitment = st.f0_commitment.add(&g_mul_scalar(Scalar::one()));
    assert!(!verify_compact(&st, &p, 4, 4, 9));
}

// The compact scheme runs a whole protocol like the verbose one.
#[test]
fn compact_scheme_proves_and_verifies_through_the_trait() {
    let (st, wit) = small();
    let params = FischlinProofParams { rho: 4, b: 4, t_bits: 9 };
    let p = CompactFischlinPolyProof::prove(&params, &st, &wit).unwrap();
    assert!(CompactFischlinPolyProof::verify(&params, &st, &p));
    assert!(!verify_compact(&st, &p, 3, 4, 9));
}
