//! Proof that three Pedersen commitments share openings:
//! `C = g^s h^{s'}`, `vk = g^s h^omega`, `D = g^omega h^r`.

use crate::arith::{lemma_modl_bound, modl};
use crate::group::{
    check_combination, combination_is_identity, dlogs, h_dlog, lemma_lin_comb4, svals, Point,
};
use crate::pedersen::{com_dlog, commit_point, PedersenCommitment};
use crate::scalar::Scalar;
use crate::transcript::{
    append_point, challenge_scalar, challenge_value, new_transcript, op_append, op_init,
    transcript_contents, TranscriptOp,
};
use crate::two_round_proofs::lemma_sigma_eq2;
use merlin::Transcript;
use vstd::prelude::*;
use vstd::string::StringSliceAdditionalSpecFns;

verus! {

/// The three commitments.
#[derive(Clone, Copy)]
pub struct ComEqStatement {
    pub c: PedersenCommitment,
    pub vk: PedersenCommitment,
    pub d: PedersenCommitment,
}

/// Their openings.
#[derive(Clone, Copy, Debug)]
pub struct ComEqWitness {
    pub s: Scalar,
    pub s_prime: Scalar,
    pub omega: Scalar,
    pub r: Scalar,
}

/// First-round commitments and responses.
#[derive(Clone, Copy)]
pub struct ComEqProof {
    pub t_c: Point,
    pub t_vk: Point,
    pub t_d: Point,
    pub z_s: Scalar,
    pub z_s_prime: Scalar,
    pub z_omega: Scalar,
    pub z_r: Scalar,
}

/// The witness opens the statement.
pub open spec fn comeq_relation(stmt: ComEqStatement, wit: ComEqWitness) -> bool {
    &&& stmt.c@ == com_dlog(wit.s@, wit.s_prime@)
    &&& stmt.vk@ == com_dlog(wit.s@, wit.omega@)
    &&& stmt.d@ == com_dlog(wit.omega@, wit.r@)
}

/// The transcript entries of the statement.
pub open spec fn comeq_statement_ops(stmt: ComEqStatement) -> Seq<TranscriptOp> {
    seq![
        op_init("comeq_proof".spec_bytes()),
        op_append("C".spec_bytes(), crate::group::compressed_multiple(stmt.c@)),
        op_append("vk".spec_bytes(), crate::group::compressed_multiple(stmt.vk@)),
        op_append("D".spec_bytes(), crate::group::compressed_multiple(stmt.d@)),
    ]
}

/// The history from which the challenge is drawn.
pub open spec fn comeq_history(stmt: ComEqStatement, t_c: Point, t_vk: Point, t_d: Point) -> Seq<
    TranscriptOp,
> {
    comeq_statement_ops(stmt) + seq![
        op_append("T_c".spec_bytes(), t_c.enc()),
        op_append("T_vk".spec_bytes(), t_vk.enc()),
        op_append("T_d".spec_bytes(), t_d.enc()),
    ]
}

/// The challenge of a proof.
pub open spec fn comeq_challenge(stmt: ComEqStatement, proof: ComEqProof) -> int {
    challenge_value(comeq_history(stmt, proof.t_c, proof.t_vk, proof.t_d), "e".spec_bytes())
}

/// The equation `z_x g + z_y h - T - e C = 0`.
pub open spec fn sigma_holds(zx: int, zy: int, t: int, c: int, e: int) -> bool {
    combination_is_identity(seq![zx, zy, modl(-1), modl(-e)], seq![1, h_dlog(), t, c])
}

/// What the verifier accepts: the three equations under the proof's challenge.
pub open spec fn comeq_valid(stmt: ComEqStatement, proof: ComEqProof) -> bool {
    let e = comeq_challenge(stmt, proof);
    &&& sigma_holds(proof.z_s@, proof.z_s_prime@, proof.t_c@, stmt.c@, e)
    &&& sigma_holds(proof.z_s@, proof.z_omega@, proof.t_vk@, stmt.vk@, e)
    &&& sigma_holds(proof.z_omega@, proof.z_r@, proof.t_d@, stmt.d@, e)
}

/// An honest proof with nonces `a = (alpha_s, alpha_s', alpha_omega, alpha_r)`.
pub open spec fn comeq_honest(stmt: ComEqStatement, wit: ComEqWitness, proof: ComEqProof, a: Seq<int>) -> bool {
    let e = comeq_challenge(stmt, proof);
    &&& a.len() == 4
    &&& proof.t_c@ == com_dlog(a[0], a[1])
    &&& proof.t_vk@ == com_dlog(a[0], a[2])
    &&& proof.t_d@ == com_dlog(a[2], a[3])
    &&& proof.z_s@ == modl(a[0] + modl(e * wit.s@))
    &&& proof.z_s_prime@ == modl(a[1] + modl(e * wit.s_prime@))
    &&& proof.z_omega@ == modl(a[2] + modl(e * wit.omega@))
    &&& proof.z_r@ == modl(a[3] + modl(e * wit.r@))
}

/// The linear combination behind one checked equation.
pub fn check_sigma_eq(zx: &Scalar, zy: &Scalar, t: &Point, c: &Point, e: &Scalar) -> (r: bool)
    ensures
        r == sigma_holds(zx@, zy@, t@, c@, e@),
{
    let m1 = Scalar::one().neg();
    let me = e.neg();
    let scalars = [*zx, *zy, m1, me];
    let points = [Point::generator(), Point::pedersen_h(), *t, *c];
    proof {
        assert(svals(scalars@) =~= seq![zx@, zy@, modl(-1), modl(-e@)]);
        assert(dlogs(points@) =~= seq![1, h_dlog(), t@, c@]);
    }
    check_combination(&scalars, &points)
}

impl ComEqProof {
    fn transcript(statement: &ComEqStatement) -> (t: Transcript)
        ensures
            transcript_contents(t) == comeq_statement_ops(*statement),
    {
        let mut t = new_transcript("comeq_proof");
        append_point(&mut t, "C", statement.c.point());
        append_point(&mut t, "vk", statement.vk.point());
        append_point(&mut t, "D", statement.d.point());
        assert(transcript_contents(t) =~= comeq_statement_ops(*statement));
        t
    }

    /// Proves that the statement's commitments share the witness's openings.
    pub fn prove(statement: &ComEqStatement, witness: &ComEqWitness) -> (r: ComEqProof)
        ensures
            exists|a: Seq<int>| comeq_honest(*statement, *witness, r, a),
    {
        let mut transcript = Self::transcript(statement);
        let alpha_s = Scalar::random();
        let alpha_s_prime = Scalar::random();
        let alpha_omega = Scalar::random();
        let alpha_r = Scalar::random();
        let t_c = commit_point(&alpha_s, &alpha_s_prime);
        let t_vk = commit_point(&alpha_s, &alpha_omega);
        let t_d = commit_point(&alpha_omega, &alpha_r);
        append_point(&mut transcript, "T_c", &t_c);
        append_point(&mut transcript, "T_vk", &t_vk);
        append_point(&mut transcript, "T_d", &t_d);
        assert(transcript_contents(transcript) =~= comeq_history(*statement, t_c, t_vk, t_d));
        let e = challenge_scalar(&mut transcript, "e");
        let z_s = alpha_s.add(&e.mul(&witness.s));
        let z_s_prime = alpha_s_prime.add(&e.mul(&witness.s_prime));
        let z_omega = alpha_omega.add(&e.mul(&witness.omega));
        let z_r = alpha_r.add(&e.mul(&witness.r));
        let proof = ComEqProof { t_c, t_vk, t_d, z_s, z_s_prime, z_omega, z_r };
        assert(comeq_honest(
            *statement,
            *witness,
            proof,
            seq![alpha_s@, alpha_s_prime@, alpha_omega@, alpha_r@],
        ));
        proof
    }

    /// Checks the three equations.
    pub fn verify(&self, statement: &ComEqStatement) -> (r: bool)
        ensures
            r == comeq_valid(*statement, *self),
    {
        let mut transcript = Self::transcript(statement);
        append_point(&mut transcript, "T_c", &self.t_c);
        append_point(&mut transcript, "T_vk", &self.t_vk);
        append_point(&mut transcript, "T_d", &self.t_d);
        assert(transcript_contents(transcript) =~= comeq_history(
            *statement,
            self.t_c,
            self.t_vk,
            self.t_d,
        ));
        let e = challenge_scalar(&mut transcript, "e");
        let c_point = *statement.c.point();
        let vk_point = *statement.vk.point();
        let d_point = *statement.d.point();
        check_sigma_eq(&self.z_s, &self.z_s_prime, &self.t_c, &c_point, &e)
            && check_sigma_eq(&self.z_s, &self.z_omega, &self.t_vk, &vk_point, &e)
            && check_sigma_eq(&self.z_omega, &self.z_r, &self.t_d, &d_point, &e)
    }
}

/// Completeness: an honest proof for a witness that opens the statement is
/// accepted.
pub proof fn lemma_comeq_complete(stmt: ComEqStatement, wit: ComEqWitness, proof: ComEqProof, a: Seq<int>)
    requires
        comeq_relation(stmt, wit),
        comeq_honest(stmt, wit, proof, a),
    ensures
        comeq_valid(stmt, proof),
{
    let e = comeq_challenge(stmt, proof);
    let h = h_dlog();
    crate::arith::lemma_modl_idem(a[0] + a[1] * h);
    crate::arith::lemma_modl_idem(a[0] + a[2] * h);
    crate::arith::lemma_modl_idem(a[2] + a[3] * h);
    crate::arith::lemma_modl_idem(wit.s@ + wit.s_prime@ * h);
    crate::arith::lemma_modl_idem(wit.s@ + wit.omega@ * h);
    crate::arith::lemma_modl_idem(wit.omega@ + wit.r@ * h);
    lemma_sigma_eq2(proof.z_s@, proof.z_s_prime@, proof.t_c@, stmt.c@, a[0], a[1], wit.s@, wit.s_prime@, e, h);
    lemma_sigma_eq2(proof.z_s@, proof.z_omega@, proof.t_vk@, stmt.vk@, a[0], a[2], wit.s@, wit.omega@, e, h);
    lemma_sigma_eq2(proof.z_omega@, proof.z_r@, proof.t_d@, stmt.d@, a[2], a[3], wit.omega@, wit.r@, e, h);
    lemma_lin_comb4(seq![proof.z_s@, proof.z_s_prime@, modl(-1), modl(-e)], seq![1, h, proof.t_c@, stmt.c@]);
    lemma_lin_comb4(seq![proof.z_s@, proof.z_omega@, modl(-1), modl(-e)], seq![1, h, proof.t_vk@, stmt.vk@]);
    lemma_lin_comb4(seq![proof.z_omega@, proof.z_r@, modl(-1), modl(-e)], seq![1, h, proof.t_d@, stmt.d@]);
}


/// Soundness of each equation: the verifier accepts a proof exactly when,
/// under the transcript challenge `e`, all three equations hold in the
/// exponent: `z_s g + z_s' h = T_c + e C`, `z_s g + z_omega h = T_vk + e vk`
/// and `z_omega g + z_r h = T_d + e D`. A proof for which any one of them
/// fails is refused.
pub proof fn lemma_comeq_valid_iff_equations(stmt: ComEqStatement, proof: ComEqProof)
    ensures
        comeq_valid(stmt, proof) <==> {
            let e = comeq_challenge(stmt, proof);
            let h = h_dlog();
            &&& modl(proof.z_s@ + proof.z_s_prime@ * h) == modl(proof.t_c@ + e * stmt.c@)
            &&& modl(proof.z_s@ + proof.z_omega@ * h) == modl(proof.t_vk@ + e * stmt.vk@)
            &&& modl(proof.z_omega@ + proof.z_r@ * h) == modl(proof.t_d@ + e * stmt.d@)
        },
{
    let e = comeq_challenge(stmt, proof);
    crate::two_round_proofs::lemma_sigma_holds_means(proof.z_s@, proof.z_s_prime@, proof.t_c@, stmt.c@, e);
    crate::two_round_proofs::lemma_sigma_holds_means(proof.z_s@, proof.z_omega@, proof.t_vk@, stmt.vk@, e);
    crate::two_round_proofs::lemma_sigma_holds_means(proof.z_omega@, proof.z_r@, proof.t_d@, stmt.d@, e);
}

/// The responses are bound by the commitments: two accepted proofs for one
/// statement with the same first messages `T_c`, `T_vk`, `T_d` (so the same
/// challenge) have the same `z_s g + z_s' h`, `z_s g + z_omega h` and
/// `z_omega g + z_r h`. In particular, changing only `z_r` of an accepted
/// proof by `delta` keeps it accepted only when `delta h` is the neutral
/// element.
pub proof fn lemma_comeq_responses_bound(stmt: ComEqStatement, p1: ComEqProof, p2: ComEqProof)
    requires
        comeq_valid(stmt, p1),
        comeq_valid(stmt, p2),
        p1.t_c == p2.t_c,
        p1.t_vk == p2.t_vk,
        p1.t_d == p2.t_d,
    ensures
        modl(p1.z_s@ + p1.z_s_prime@ * h_dlog()) == modl(p2.z_s@ + p2.z_s_prime@ * h_dlog()),
        modl(p1.z_s@ + p1.z_omega@ * h_dlog()) == modl(p2.z_s@ + p2.z_omega@ * h_dlog()),
        modl(p1.z_omega@ + p1.z_r@ * h_dlog()) == modl(p2.z_omega@ + p2.z_r@ * h_dlog()),
        p1.z_s == p2.z_s && p1.z_omega == p2.z_omega ==> modl((p1.z_r@ - p2.z_r@) * h_dlog()) == 0,
{
    let h = h_dlog();
    assert(comeq_challenge(stmt, p1) == comeq_challenge(stmt, p2));
    lemma_comeq_valid_iff_equations(stmt, p1);
    lemma_comeq_valid_iff_equations(stmt, p2);
    if p1.z_s == p2.z_s && p1.z_omega == p2.z_omega {
        let w = p1.z_omega@;
        assert((w + p1.z_r@ * h) - (w + p2.z_r@ * h) == (p1.z_r@ - p2.z_r@) * h) by (nonlinear_arith);
        crate::arith::lemma_modl_diff_zero(w + p1.z_r@ * h, w + p2.z_r@ * h);
    }
}

} // verus!
