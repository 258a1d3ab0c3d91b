// Decommitment, equality and public-key proofs of the two-round protocol.

use curve25519_dalek::scalar::Scalar as DalekScalar;
use janus::group::{g, h};
use janus::pedersen::PedersenCommitment;
use janus::scalar::Scalar;
use janus::transcript::{append_point, challenge_scalar, new_transcript};
use janus::two_round_proofs::comeq_proof::{ComEqProof, ComEqStatement, ComEqWitness};
use janus::two_round_proofs::decom_proof::{DecomProof, DecomStatement, DecomWitness};
use janus::two_round_proofs::decom_proof_fischlin::{
    prove_fischlin_with_params, verify_fischlin_with_params, FischlinDecomProofParams,
};
use janus::two_round_proofs::pk_proof::{PkProof, PkStatement, PkWitness};

fn two_inv() -> Scalar {
    Scalar::from_canonical_bytes(DalekScalar::from(2u64).invert().to_bytes()).unwrap()
}

fn bump(s: &mut Scalar) {
    *s = s.add(&Scalar::one());
}

fn comeq_instance() -> (ComEqWitness, ComEqStatement) {
    let witness = ComEqWitness {
        s: Scalar::random(),
        s_prime: Scalar::random(),
        omega: Scalar::random(),
        r: Scalar::random(),
    };
    let statement = ComEqStatement {
        c: PedersenCommitment::new(witness.s, witness.s_prime),
        vk: PedersenCommitment::new(witness.s, witness.omega),
        d: PedersenCommitment::new(witness.omega, witness.r),
    };
    (witness, statement)
}

fn random_commitment() -> PedersenCommitment {
    PedersenCommitment::new(Scalar::random(), Scalar::random())
}

#[test]
fn comeq_proof_roundtrip() {
    let (witness, statement) = comeq_instance();
    let proof = ComEqProof::prove(&statement, &witness);
    assert!(proof.verify(&statement));
}

#[test]
fn comeq_proof_fails_for_wrong_c() {
    let (witness, statement) = comeq_instance();
    let wrong = ComEqStatement { c: random_commitment(), vk: statement.vk, d: statement.d };
    let proof = ComEqProof::prove(&statement, &witness);
    assert!(!proof.verify(&wrong));
}

#[test]
fn comeq_proof_fails_for_wrong_vk() {
    let (witness, statement) = comeq_instance();
    let wrong = ComEqStatement { c: statement.c, vk: random_commitment(), d: statement.d };
    let proof = ComEqProof::prove(&statement, &witness);
    assert!(!proof.verify(&wrong));
}

#[test]
fn comeq_proof_fails_for_wrong_d() {
    let (witness, statement) = comeq_instance();
    let wrong = ComEqStatement { c: statement.c, vk: statement.vk, d: random_commitment() };
    let proof = ComEqProof::prove(&statement, &witness);
    assert!(!proof.verify(&wrong));
}

#[test]
fn comeq_proof_fails_if_modified() {
    let (witness, statement) = comeq_instance();
    let mut proof = ComEqProof::prove(&statement, &witness);
    bump(&mut proof.z_omega);
    assert!(!proof.verify(&statement));
}

// A cheating proof for `c = g^s1 h^s'` and `vk = g^s2 h^omega` with `s1 != s2`:
// a summed check would accept it, the per-equation check must not.
#[test]
fn comeq_proof_soundness_unlinked_s() {
    let g_point = g();
    let h_point = h();
    let s1 = Scalar::random();
    let s2 = Scalar::random();
    let s_prime = Scalar::random();
    let omega = Scalar::random();
    let r = Scalar::random();
    let statement = ComEqStatement {
        c: PedersenCommitment::new(s1, s_prime),
        vk: PedersenCommitment::new(s2, omega),
        d: PedersenCommitment::new(omega, r),
    };
    let alpha_s1 = Scalar::random();
    let alpha_s2 = Scalar::random();
    let alpha_s_prime = Scalar::random();
    let alpha_omega = Scalar::random();
    let alpha_r = Scalar::random();
    let t_c = g_point.mul(&alpha_s1).add(&h_point.mul(&alpha_s_prime));
    let t_vk = g_point.mul(&alpha_s2).add(&h_point.mul(&alpha_omega));
    let t_d = g_point.mul(&alpha_omega).add(&h_point.mul(&alpha_r));

    let mut transcript = new_transcript("comeq_proof");
    append_point(&mut transcript, "C", statement.c.point());
    append_point(&mut transcript, "vk", statement.vk.point());
    append_point(&mut transcript, "D", statement.d.point());
    append_point(&mut transcript, "T_c", &t_c);
    append_point(&mut transcript, "T_vk", &t_vk);
    append_point(&mut transcript, "T_d", &t_d);
    let e = challenge_scalar(&mut transcript, "e");

    let z_s = alpha_s1.add(&alpha_s2).add(&e.mul(&s1.add(&s2))).mul(&two_inv());
    let z_omega = alpha_omega.add(&e.mul(&omega));
    let z_s_prime = alpha_s_prime.add(&e.mul(&s_prime));
    let z_r = alpha_r.add(&e.mul(&r));
    let cheating_proof = ComEqProof { t_c, t_vk, t_d, z_s, z_s_prime, z_omega, z_r };
    assert!(!cheating_proof.verify(&statement));
}

fn decom_instance() -> (DecomWitness, DecomStatement) {
    let witness = DecomWitness {
        a: (0..4).map(|_| Scalar::random()).collect(),
        b: (0..4).map(|_| Scalar::random()).collect(),
        omega: Scalar::random(),
        r: Scalar::random(),
    };
    let statement = DecomStatement {
        pedvss: witness.a.iter().zip(witness.b.iter()).map(|(a, b)| PedersenCommitment::new(*a, *b)).collect(),
        d: PedersenCommitment::new(witness.omega, witness.r),
    };
    (witness, statement)
}

fn wrong_decom_statement(statement: &DecomStatement) -> DecomStatement {
    let mut wrong_pedvss = statement.pedvss.clone();
    wrong_pedvss[2] = random_commitment();
    DecomStatement { pedvss: wrong_pedvss, d: statement.d }
}

#[test]
fn decom_proof_roundtrip() {
    let (witness, statement) = decom_instance();
    let proof = DecomProof::prove(&statement, &witness);
    assert!(proof.verify(&statement));
}

#[test]
fn decom_proof_fails_for_wrong_statement() {
    let (witness, statement) = decom_instance();
    let wrong = wrong_decom_statement(&statement);
    let proof = DecomProof::prove(&statement, &witness);
    assert!(!proof.verify(&wrong));
}

#[test]
fn decom_proof_fails_if_modified() {
    let (witness, statement) = decom_instance();
    let mut proof = DecomProof::prove(&statement, &witness);
    bump(&mut proof.z_a[1]);
    assert!(!proof.verify(&statement));
}

#[test]
fn decom_proof_fails_for_wrong_length() {
    let (witness, statement) = decom_instance();
    let mut proof = DecomProof::prove(&statement, &witness);
    proof.z_b.pop();
    assert!(!proof.verify(&statement));
}

fn fischlin_params() -> FischlinDecomProofParams {
    FischlinDecomProofParams { rho: 4, b: 4, t_bits: 9 }
}

#[test]
fn two_round_proofs_decom_fischlin_roundtrip() {
    let (witness, statement) = decom_instance();
    let p = fischlin_params();
    let proof = prove_fischlin_with_params(&statement, &witness, p.rho, p.b, p.t_bits).unwrap();
    assert!(verify_fischlin_with_params(&statement, &proof, p.rho, p.b, p.t_bits));
}

#[test]
fn two_round_proofs_decom_fischlin_fails_for_wrong_statement() {
    let (witness, statement) = decom_instance();
    let wrong = wrong_decom_statement(&statement);
    let p = fischlin_params();
    let proof = prove_fischlin_with_params(&statement, &witness, p.rho, p.b, p.t_bits).unwrap();
    assert!(!verify_fischlin_with_params(&wrong, &proof, p.rho, p.b, p.t_bits));
}

#[test]
fn two_round_proofs_decom_fischlin_fails_if_t1_modified() {
    let (witness, statement) = decom_instance();
    let p = fischlin_params();
    let mut proof = prove_fischlin_with_params(&statement, &witness, p.rho, p.b, p.t_bits).unwrap();
    proof.rounds[0].t = proof.rounds[0].t.add(&g());
    assert!(!verify_fischlin_with_params(&statement, &proof, p.rho, p.b, p.t_bits));
}

#[test]
fn two_round_proofs_decom_fischlin_fails_if_e_modified() {
    let (witness, statement) = decom_instance();
    let p = fischlin_params();
    let mut proof = prove_fischlin_with_params(&statement, &witness, p.rho, p.b, p.t_bits).unwrap();
    proof.rounds[0].e ^= 1;
    assert!(!verify_fischlin_with_params(&statement, &proof, p.rho, p.b, p.t_bits));
}

#[test]
fn two_round_proofs_decom_fischlin_fails_if_z_modified() {
    let (witness, statement) = decom_instance();
    let p = fischlin_params();
    let mut proof = prove_fischlin_with_params(&statement, &witness, p.rho, p.b, p.t_bits).unwrap();
    bump(&mut proof.rounds[0].z_a[1]);
    assert!(!verify_fischlin_with_params(&statement, &proof, p.rho, p.b, p.t_bits));
}

#[test]
fn two_round_proofs_decom_fischlin_fails_if_round_removed() {
    let (witness, statement) = decom_instance();
    let p = fischlin_params();
    let mut proof = prove_fischlin_with_params(&statement, &witness, p.rho, p.b, p.t_bits).unwrap();
    proof.rounds.pop();
    assert!(!verify_fischlin_with_params(&statement, &proof, p.rho, p.b, p.t_bits));
}

#[test]
fn two_round_proofs_decom_fischlin_fails_if_vector_length_modified() {
    let (witness, statement) = decom_instance();
    let p = fischlin_params();
    let mut proof = prove_fischlin_with_params(&statement, &witness, p.rho, p.b, p.t_bits).unwrap();
    proof.rounds[0].z_b.pop();
    assert!(!verify_fischlin_with_params(&statement, &proof, p.rho, p.b, p.t_bits));
}

fn pk_instance() -> (PkWitness, PkStatement) {
    let witness = PkWitness { a: Scalar::random(), b: Scalar::random() };
    let statement = PkStatement { pk: g().mul(&witness.a), commitment: PedersenCommitment::new(witness.a, witness.b) };
    (witness, statement)
}

#[test]
fn pk_proof_roundtrip() {
    let (witness, statement) = pk_instance();
    let proof = PkProof::prove(&statement, &witness);
    assert!(proof.verify(&statement));
}

#[test]
fn pk_proof_fails_for_wrong_pk() {
    let (witness, statement) = pk_instance();
    let wrong = PkStatement { pk: g().mul(&Scalar::random()), commitment: statement.commitment };
    let proof = PkProof::prove(&statement, &witness);
    assert!(!proof.verify(&wrong));
}

#[test]
fn pk_proof_fails_for_wrong_commitment() {
    let (witness, statement) = pk_instance();
    let wrong = PkStatement { pk: statement.pk, commitment: random_commitment() };
    let proof = PkProof::prove(&statement, &witness);
    assert!(!proof.verify(&wrong));
}

#[test]
fn pk_proof_fails_if_modified() {
    let (witness, statement) = pk_instance();
    let mut proof = PkProof::prove(&statement, &witness);
    bump(&mut proof.z_a);
    assert!(!proof.verify(&statement));
}

// A cheating proof for `pk = g^a1` and `commitment = g^a2 h^b` with `a1 != a2`:
// a combined check would accept it, the per-equation check must not.
#[test]
fn pk_proof_soundness_unlinked_discrete_logs() {
    let g_point = g();
    let h_point = h();
    let a1 = Scalar::random();
    let a2 = Scalar::random();
    let b = Scalar::random();
    let statement = PkStatement { pk: g_point.mul(&a1), commitment: PedersenCommitment::new(a2, b) };
    let alpha1 = Scalar::random();
    let alpha2 = Scalar::random();
    let alpha_b = Scalar::random();
    let t_pk = g_point.mul(&alpha1);
    let t_com = g_point.mul(&alpha2).add(&h_point.mul(&alpha_b));

    let mut transcript = new_transcript("pk_proof");
    append_point(&mut transcript, "pk", &statement.pk);
    append_point(&mut transcript, "commitment", statement.commitment.point());
    append_point(&mut transcript, "T_pk", &t_pk);
    append_point(&mut transcript, "T_com", &t_com);
    let e = challenge_scalar(&mut transcript, "e");

    let z_a = alpha1.add(&alpha2).add(&e.mul(&a1.add(&a2))).mul(&two_inv());
    let z_b = alpha_b.add(&e.mul(&b));
    let cheating_proof = PkProof { t_pk, t_com, z_a, z_b };
    assert!(!cheating_proof.verify(&statement));
}

// The Pedersen commitment is additively homomorphic.
#[test]
fn pedersen_commitments_add_up() {
    let (m1, r1, m2, r2) = (Scalar::random(), Scalar::random(), Scalar::random(), Scalar::random());
    let sum = PedersenCommitment::new(m1, r1).point().add(PedersenCommitment::new(m2, r2).point());
    assert!(PedersenCommitment::from_point(sum).matches_opening(m1.add(&m2), r1.add(&r2)));
}

// An honest proof of equal openings verifies for every random witness.
#[test]
fn comeq_proof_completeness_repeated() {
    for _ in 0..5 {
        let (witness, statement) = comeq_instance();
        assert!(ComEqProof::prove(&statement, &witness).verify(&statement));
    }
}
