//! Proof that a public key `pk = g^a` and a commitment `g^a h^b` share `a`.

use crate::arith::modl;
use crate::group::{
    check_combination, combination_is_identity, dlogs, h_dlog, lemma_lin_comb3, svals, Point,
};
use crate::pedersen::{com_dlog, commit_point, PedersenCommitment};
use crate::scalar::Scalar;
use crate::transcript::{
    append_point, challenge_scalar, challenge_value, new_transcript, op_append, op_init,
    transcript_contents, TranscriptOp,
};
use crate::two_round_proofs::comeq_proof::{check_sigma_eq, sigma_holds};
use crate::two_round_proofs::{lemma_sigma_eq1, lemma_sigma_eq2};
use merlin::Transcript;
use vstd::prelude::*;
use vstd::string::StringSliceAdditionalSpecFns;

verus! {

/// The public key and the commitment.
#[derive(Clone, Copy)]
pub struct PkStatement {
    pub pk: Point,
    pub commitment: PedersenCommitment,
}

/// The exponents `a` and `b`.
#[derive(Clone, Copy, Debug)]
pub struct PkWitness {
    pub a: Scalar,
    pub b: Scalar,
}

/// First-round commitments and responses.
#[derive(Clone, Copy)]
pub struct PkProof {
    pub t_pk: Point,
    pub t_com: Point,
    pub z_a: Scalar,
    pub z_b: Scalar,
}

/// The witness opens the statement.
pub open spec fn pk_relation(stmt: PkStatement, wit: PkWitness) -> bool {
    &&& stmt.pk@ == modl(wit.a@)
    &&& stmt.commitment@ == com_dlog(wit.a@, wit.b@)
}

/// The transcript entries of the statement.
pub open spec fn pk_statement_ops(stmt: PkStatement) -> Seq<TranscriptOp> {
    seq![
        op_init("pk_proof".spec_bytes()),
        op_append("pk".spec_bytes(), stmt.pk.enc()),
        op_append("commitment".spec_bytes(), crate::group::compressed_multiple(stmt.commitment@)),
    ]
}

/// The challenge of a proof.
pub open spec fn pk_challenge(stmt: PkStatement, t_pk: Point, t_com: Point) -> int {
    challenge_value(
        pk_statement_ops(stmt) + seq![
            op_append("T_pk".spec_bytes(), t_pk.enc()),
            op_append("T_com".spec_bytes(), t_com.enc()),
        ],
        "e".spec_bytes(),
    )
}

/// What the verifier accepts: `z_a g = T_pk + e pk` and
/// `z_a g + z_b h = T_com + e C`.
pub open spec fn pk_valid(stmt: PkStatement, proof: PkProof) -> bool {
    let e = pk_challenge(stmt, proof.t_pk, proof.t_com);
    &&& combination_is_identity(
        seq![proof.z_a@, modl(-1), modl(-e)],
        seq![1, proof.t_pk@, stmt.pk@],
    )
    &&& sigma_holds(proof.z_a@, proof.z_b@, proof.t_com@, stmt.commitment@, e)
}

/// An honest proof with nonces `alpha_a`, `alpha_b`.
pub open spec fn pk_honest(stmt: PkStatement, wit: PkWitness, proof: PkProof, aa: int, ab: int) -> bool {
    let e = pk_challenge(stmt, proof.t_pk, proof.t_com);
    &&& proof.t_pk@ == modl(aa)
    &&& proof.t_com@ == com_dlog(aa, ab)
    &&& proof.z_a@ == modl(aa + modl(e * wit.a@))
    &&& proof.z_b@ == modl(ab + modl(e * wit.b@))
}

impl PkProof {
    fn transcript(statement: &PkStatement) -> (t: Transcript)
        ensures
            transcript_contents(t) == pk_statement_ops(*statement),
    {
        let mut t = new_transcript("pk_proof");
        append_point(&mut t, "pk", &statement.pk);
        append_point(&mut t, "commitment", statement.commitment.point());
        assert(transcript_contents(t) =~= pk_statement_ops(*statement));
        t
    }

    /// Proves that `pk` and the commitment share the witness's `a`.
    pub fn prove(statement: &PkStatement, witness: &PkWitness) -> (r: PkProof)
        ensures
            exists|aa: int, ab: int| pk_honest(*statement, *witness, r, aa, ab),
    {
        let mut transcript = Self::transcript(statement);
        let alpha_a = Scalar::random();
        let alpha_b = Scalar::random();
        let t_pk = Point::basepoint_mul(&alpha_a);
        let t_com = commit_point(&alpha_a, &alpha_b);
        append_point(&mut transcript, "T_pk", &t_pk);
        append_point(&mut transcript, "T_com", &t_com);
        assert(transcript_contents(transcript) =~= pk_statement_ops(*statement) + seq![
            op_append("T_pk".spec_bytes(), t_pk.enc()),
            op_append("T_com".spec_bytes(), t_com.enc()),
        ]);
        let e = challenge_scalar(&mut transcript, "e");
        let z_a = alpha_a.add(&e.mul(&witness.a));
        let z_b = alpha_b.add(&e.mul(&witness.b));
        let proof = PkProof { t_pk, t_com, z_a, z_b };
        assert(pk_honest(*statement, *witness, proof, alpha_a@, alpha_b@));
        proof
    }

    /// Checks both equations.
    pub fn verify(&self, statement: &PkStatement) -> (r: bool)
        ensures
            r == pk_valid(*statement, *self),
    {
        let mut transcript = Self::transcript(statement);
        append_point(&mut transcript, "T_pk", &self.t_pk);
        append_point(&mut transcript, "T_com", &self.t_com);
        assert(transcript_contents(transcript) =~= pk_statement_ops(*statement) + seq![
            op_append("T_pk".spec_bytes(), self.t_pk.enc()),
            op_append("T_com".spec_bytes(), self.t_com.enc()),
        ]);
        let e = challenge_scalar(&mut transcript, "e");
        let m1 = Scalar::one().neg();
        let me = e.neg();
        let scalars = [self.z_a, m1, me];
        let points = [Point::generator(), self.t_pk, statement.pk];
        proof {
            assert(svals(scalars@) =~= seq![self.z_a@, modl(-1), modl(-e@)]);
            assert(dlogs(points@) =~= seq![1, self.t_pk@, statement.pk@]);
        }
        let check_pk = check_combination(&scalars, &points);
        let com_point = *statement.commitment.point();
        let check_com = check_sigma_eq(&self.z_a, &self.z_b, &self.t_com, &com_point, &e);
        check_pk && check_com
    }
}

/// Completeness: an honest proof for a witness that opens the statement is
/// accepted.
pub proof fn lemma_pk_complete(stmt: PkStatement, wit: PkWitness, proof: PkProof, aa: int, ab: int)
    requires
        pk_relation(stmt, wit),
        pk_honest(stmt, wit, proof, aa, ab),
    ensures
        pk_valid(stmt, proof),
{
    let e = pk_challenge(stmt, proof.t_pk, proof.t_com);
    let h = h_dlog();
    crate::arith::lemma_modl_idem(aa);
    crate::arith::lemma_modl_idem(wit.a@);
    crate::arith::lemma_modl_idem(aa + ab * h);
    crate::arith::lemma_modl_idem(wit.a@ + wit.b@ * h);
    lemma_sigma_eq1(proof.z_a@, proof.t_pk@, stmt.pk@, aa, wit.a@, e);
    lemma_sigma_eq2(proof.z_a@, proof.z_b@, proof.t_com@, stmt.commitment@, aa, ab, wit.a@, wit.b@, e, h);
    lemma_lin_comb3(seq![proof.z_a@, modl(-1), modl(-e)], seq![1, proof.t_pk@, stmt.pk@]);
    crate::group::lemma_lin_comb4(seq![proof.z_a@, proof.z_b@, modl(-1), modl(-e)], seq![1, h, proof.t_com@, stmt.commitment@]);
}


/// Soundness of each equation: the verifier accepts a proof exactly when,
/// under the transcript challenge `e`, both equations hold in the exponent:
/// `z_a g = T_pk + e pk` and `z_a g + z_b h = T_com + e C`. A proof for
/// which either fails is refused.
pub proof fn lemma_pk_valid_iff_equations(stmt: PkStatement, proof: PkProof)
    ensures
        pk_valid(stmt, proof) <==> {
            let e = pk_challenge(stmt, proof.t_pk, proof.t_com);
            &&& modl(proof.z_a@) == modl(proof.t_pk@ + e * stmt.pk@)
            &&& modl(proof.z_a@ + proof.z_b@ * h_dlog()) == modl(proof.t_com@ + e * stmt.commitment@)
        },
{
    let e = pk_challenge(stmt, proof.t_pk, proof.t_com);
    crate::two_round_proofs::lemma_sigma1_means(proof.z_a@, proof.t_pk@, stmt.pk@, e);
    crate::two_round_proofs::lemma_sigma_holds_means(proof.z_a@, proof.z_b@, proof.t_com@, stmt.commitment@, e);
}

/// The responses are bound by the commitments: two accepted proofs for one
/// statement with the same `T_pk` and `T_com` (so the same challenge) have
/// the same `z_a`, and their `z_b` differ by a `delta` with `delta h`
/// neutral. So changing only `z_b` of an accepted proof keeps it accepted
/// only when that change vanishes on `h`.
pub proof fn lemma_pk_responses_bound(stmt: PkStatement, p1: PkProof, p2: PkProof)
    requires
        pk_valid(stmt, p1),
        pk_valid(stmt, p2),
        p1.t_pk == p2.t_pk,
        p1.t_com == p2.t_com,
    ensures
        modl(p1.z_a@) == modl(p2.z_a@),
        modl((p1.z_b@ - p2.z_b@) * h_dlog()) == 0,
{
    let h = h_dlog();
    lemma_pk_valid_iff_equations(stmt, p1);
    lemma_pk_valid_iff_equations(stmt, p2);
    let a1 = p1.z_a@;
    let a2 = p2.z_a@;
    crate::arith::lemma_modl_add_cong(a1, p2.z_b@ * h, a2, p2.z_b@ * h);
    assert((a1 + p1.z_b@ * h) - (a1 + p2.z_b@ * h) == (p1.z_b@ - p2.z_b@) * h) by (nonlinear_arith);
    crate::arith::lemma_modl_diff_zero(a1 + p1.z_b@ * h, a1 + p2.z_b@ * h);
}

} // verus!
