//! Schnorr-style proof of polynomial well-formedness: one Sigma round with an
//! equation per commitment, checked through the rank-1 fold.

use crate::arith::{group_order, lemma_modl_bound, modl};
use crate::group::{dlogs, svals, Point};
use crate::one_round_proofs::utils::{
    append_points, append_scalars, append_statement_to_transcript, batched_point_check_rank1,
    point_ops, rank1_check, scalar_ops, statement_ops, RoundView,
};
use crate::one_round_proofs::PolyProofScheme;
use crate::pedersen::{com_dlog, commit_point, commit_points, PedersenCommitment};
use crate::poly::{eval_poly_at, poly_eval};
use crate::scalar::Scalar;
use crate::transcript::{
    append_message, challenge_scalar, challenge_value, indexed_challenges, indexed_history,
    indexed_values, new_transcript, op_append, op_challenge, op_init, transcript_contents,
    TranscriptOp,
};
use vstd::prelude::*;
use vstd::string::StringSliceAdditionalSpecFns;

verus! {

/// `C_j = g^{f(x_j)} h^{omega_j}` for `j = 1..n` and `f0 = g^{a_0}`, for a
/// polynomial `f` of degree `degree`.
#[derive(Clone)]
pub struct PolyWellFormedStatement {
    pub x_points: Vec<Scalar>,
    pub commitments: Vec<PedersenCommitment>,
    pub f0_commitment: Point,
    pub degree: usize,
}

/// The coefficients `a_0..a_degree` and the blindings `omega_1..omega_n`.
#[derive(Clone)]
pub struct PolyWellFormedWitness {
    pub coeffs: Vec<Scalar>,
    pub blindings: Vec<Scalar>,
}

/// One first-round commitment per equation (`T_0` for `f0`, `T_1..T_n` for
/// the commitments) and the responses.
#[derive(Clone)]
pub struct PolyWellFormedProof {
    pub t_commitments: Vec<Point>,
    pub z_coeffs: Vec<Scalar>,
    pub z_blindings: Vec<Scalar>,
}

/// The witness opens the statement: `f0 = g^{a_0}` and every commitment opens
/// to `f(x_j)` with blinding `omega_j`.
pub open spec fn poly_relation(stmt: PolyWellFormedStatement, wit: PolyWellFormedWitness) -> bool {
    let n = stmt.x_points@.len();
    &&& stmt.commitments@.len() == n
    &&& wit.blindings@.len() == n
    &&& wit.coeffs@.len() == stmt.degree + 1
    &&& stmt.f0_commitment@ == modl(wit.coeffs@[0]@)
    &&& forall|j: int|
        0 <= j < n ==> (#[trigger] stmt.commitments@[j])@ == com_dlog(
            poly_eval(svals(wit.coeffs@), stmt.x_points@[j]@),
            wit.blindings@[j]@,
        )
}

/// The history from which the Sigma challenge is drawn.
pub open spec fn schnorr_history(stmt: PolyWellFormedStatement, ts: Seq<Point>) -> Seq<TranscriptOp> {
    seq![op_init("poly-well-formedness".spec_bytes())] + statement_ops(stmt) + point_ops(
        "t".spec_bytes(),
        ts,
        ts.len() as int,
    )
}

/// The Sigma challenge.
pub open spec fn schnorr_challenge(stmt: PolyWellFormedStatement, ts: Seq<Point>) -> int {
    challenge_value(schnorr_history(stmt, ts), "challenge".spec_bytes())
}

/// The history from which the fold weights are drawn.
pub open spec fn schnorr_weight_history(stmt: PolyWellFormedStatement, proof: PolyWellFormedProof) -> Seq<
    TranscriptOp,
> {
    schnorr_history(stmt, proof.t_commitments@).push(op_challenge("challenge".spec_bytes())).push(
        op_append("dom-sep".spec_bytes(), "poly-well-formedness-batch-verify".spec_bytes()),
    ) + scalar_ops("za".spec_bytes(), proof.z_coeffs@, proof.z_coeffs@.len() as int) + scalar_ops(
        "zw".spec_bytes(),
        proof.z_blindings@,
        proof.z_blindings@.len() as int,
    )
}

/// The fold weights `delta_0..delta_n`.
pub open spec fn schnorr_deltas(stmt: PolyWellFormedStatement, proof: PolyWellFormedProof) -> Seq<int> {
    indexed_values(
        schnorr_weight_history(stmt, proof),
        "delta_index".spec_bytes(),
        "delta".spec_bytes(),
        stmt.x_points@.len() + 1int,
    )
}

/// What the verifier accepts: the right lengths, and the folded check of the
/// one round with weight one.
pub open spec fn schnorr_valid(stmt: PolyWellFormedStatement, proof: PolyWellFormedProof) -> bool {
    let n = stmt.x_points@.len();
    &&& stmt.commitments@.len() == n
    &&& proof.t_commitments@.len() == n + 1
    &&& proof.z_blindings@.len() == n
    &&& proof.z_coeffs@.len() == stmt.degree + 1
    &&& rank1_check(
        stmt,
        seq![
            (
                dlogs(proof.t_commitments@),
                schnorr_challenge(stmt, proof.t_commitments@),
                svals(proof.z_coeffs@),
                svals(proof.z_blindings@),
            ),
        ],
        schnorr_deltas(stmt, proof),
        seq![1int],
    )
}

/// An honestly made proof with nonces `rc` (coefficients) and `rb` (blindings).
pub open spec fn schnorr_honest(
    stmt: PolyWellFormedStatement,
    wit: PolyWellFormedWitness,
    rc: Seq<int>,
    rb: Seq<int>,
    proof: PolyWellFormedProof,
) -> bool {
    let n = stmt.x_points@.len();
    let c = schnorr_challenge(stmt, proof.t_commitments@);
    &&& rc.len() == stmt.degree + 1
    &&& rb.len() == n
    &&& proof.t_commitments@.len() == n + 1
    &&& proof.z_coeffs@.len() == stmt.degree + 1
    &&& proof.z_blindings@.len() == n
    &&& proof.t_commitments@[0]@ == modl(rc[0])
    &&& forall|j: int|
        0 <= j < n ==> (#[trigger] proof.t_commitments@[j + 1])@ == com_dlog(
            poly_eval(rc, stmt.x_points@[j]@),
            rb[j],
        )
    &&& forall|k: int|
        0 <= k <= stmt.degree ==> (#[trigger] proof.z_coeffs@[k])@ == modl(
            rc[k] + modl(c * wit.coeffs@[k]@),
        )
    &&& forall|j: int|
        0 <= j < n ==> (#[trigger] proof.z_blindings@[j])@ == modl(
            rb[j] + modl(c * wit.blindings@[j]@),
        )
}

/// Proves that the statement's commitments lie on a polynomial of the stated
/// degree, with fresh nonces.
pub fn prove(statement: &PolyWellFormedStatement, witness: &PolyWellFormedWitness) -> (r:
    PolyWellFormedProof)
    requires
        statement.commitments@.len() == statement.x_points@.len(),
        witness.blindings@.len() == statement.x_points@.len(),
        witness.coeffs@.len() == statement.degree + 1,
        statement.x_points@.len() < usize::MAX,
    ensures
        exists|rc: Seq<int>, rb: Seq<int>| schnorr_honest(*statement, *witness, rc, rb, r),
{
    let n = statement.x_points.len();
    let m = witness.coeffs.len();
    let mut r_coeffs: Vec<Scalar> = Vec::new();
    let mut k: usize = 0;
    while k < m
        invariant
            k <= m,
            m == statement.degree + 1,
            r_coeffs@.len() == k,
            witness.coeffs@.len() == statement.degree + 1,
        decreases m - k,
    {
        r_coeffs.push(Scalar::random());
        k = k + 1;
    }
    let mut r_blindings: Vec<Scalar> = Vec::new();
    let mut k: usize = 0;
    while k < n
        invariant
            k <= n,
            r_blindings@.len() == k,
        decreases n - k,
    {
        r_blindings.push(Scalar::random());
        k = k + 1;
    }
    let ghost rc = svals(r_coeffs@);
    let ghost rb = svals(r_blindings@);
    let mut es: Vec<Scalar> = Vec::new();
    let mut j: usize = 0;
    while j < n
        invariant
            j <= n,
            n == statement.x_points@.len(),
            rc == svals(r_coeffs@),
            es@.len() == j,
            forall|q: int| 0 <= q < j ==> (#[trigger] es@[q])@ == poly_eval(rc, statement.x_points@[q]@),
        decreases n - j,
    {
        es.push(eval_poly_at(r_coeffs.as_slice(), statement.x_points[j]));
        j = j + 1;
    }
    let cs = commit_points(es.as_slice(), r_blindings.as_slice());
    let mut t_commitments: Vec<Point> = Vec::new();
    t_commitments.push(Point::basepoint_mul(&r_coeffs[0]));
    let mut j: usize = 0;
    while j < n
        invariant
            j <= n,
            n == statement.x_points@.len(),
            r_blindings@.len() == n,
            rc == svals(r_coeffs@),
            rb == svals(r_blindings@),
            cs@.len() == n,
            es@.len() == n,
            forall|q: int| 0 <= q < n ==> (#[trigger] es@[q])@ == poly_eval(rc, statement.x_points@[q]@),
            forall|q: int| 0 <= q < n ==> (#[trigger] cs@[q])@ == com_dlog(es@[q]@, r_blindings@[q]@),
            t_commitments@.len() == j + 1,
            t_commitments@[0]@ == modl(rc[0]),
            forall|q: int|
                0 <= q < j ==> (#[trigger] t_commitments@[q + 1])@ == com_dlog(
                    poly_eval(rc, statement.x_points@[q]@),
                    rb[q],
                ),
        decreases n - j,
    {
        t_commitments.push(cs[j]);
        j = j + 1;
    }
    let mut transcript = new_transcript("poly-well-formedness");
    append_statement_to_transcript(&mut transcript, statement);
    append_points(&mut transcript, "t", t_commitments.as_slice());
    let ghost h = transcript_contents(transcript);
    let c = challenge_scalar(&mut transcript, "challenge");
    assert(h =~= schnorr_history(*statement, t_commitments@));
    let mut z_coeffs: Vec<Scalar> = Vec::new();
    let mut k: usize = 0;
    while k < m
        invariant
            k <= m,
            m == statement.degree + 1,
            z_coeffs@.len() == k,
            r_coeffs@.len() == statement.degree + 1,
            witness.coeffs@.len() == statement.degree + 1,
            rc == svals(r_coeffs@),
            forall|q: int|
                0 <= q < k ==> (#[trigger] z_coeffs@[q])@ == modl(rc[q] + modl(c@ * witness.coeffs@[q]@)),
        decreases m - k,
    {
        let ca = c.mul(&witness.coeffs[k]);
        z_coeffs.push(r_coeffs[k].add(&ca));
        k = k + 1;
    }
    let mut z_blindings: Vec<Scalar> = Vec::new();
    let mut k: usize = 0;
    while k < n
        invariant
            k <= n,
            z_blindings@.len() == k,
            r_blindings@.len() == n,
            witness.blindings@.len() == n,
            rb == svals(r_blindings@),
            forall|q: int|
                0 <= q < k ==> (#[trigger] z_blindings@[q])@ == modl(rb[q] + modl(c@ * witness.blindings@[q]@)),
        decreases n - k,
    {
        let cw = c.mul(&witness.blindings[k]);
        z_blindings.push(r_blindings[k].add(&cw));
        k = k + 1;
    }
    let proof = PolyWellFormedProof { t_commitments, z_coeffs, z_blindings };
    assert(schnorr_honest(*statement, *witness, rc, rb, proof));
    proof
}

/// Checks a well-formedness proof.
pub fn verify(statement: &PolyWellFormedStatement, proof: &PolyWellFormedProof) -> (r: bool)
    ensures
        r == schnorr_valid(*statement, *proof),
{
    let n = statement.x_points.len();
    let t_len = proof.t_commitments.len();
    let zc_len = proof.z_coeffs.len();
    if statement.commitments.len() != n || n == usize::MAX || t_len != n + 1
        || proof.z_blindings.len() != n || statement.degree == usize::MAX
        || zc_len != statement.degree + 1 {
        return false;
    }
    let mut transcript = new_transcript("poly-well-formedness");
    append_statement_to_transcript(&mut transcript, statement);
    append_points(&mut transcript, "t", proof.t_commitments.as_slice());
    let ghost h = transcript_contents(transcript);
    let c = challenge_scalar(&mut transcript, "challenge");
    assert(h =~= schnorr_history(*statement, proof.t_commitments@));
    // Fold weights from the same transcript, binding the responses.
    let dom = "poly-well-formedness-batch-verify";
    proof {
        reveal_strlit("poly-well-formedness-batch-verify");
        assert(vstd::string::is_ascii(dom));
        vstd::string::is_ascii_spec_bytes(dom);
    }
    append_message(&mut transcript, "dom-sep", dom.as_bytes());
    append_scalars(&mut transcript, "za", proof.z_coeffs.as_slice());
    append_scalars(&mut transcript, "zw", proof.z_blindings.as_slice());
    let ghost h2 = transcript_contents(transcript);
    assert(h2 =~= schnorr_weight_history(*statement, *proof));
    let deltas = indexed_challenges(&mut transcript, "delta_index", "delta", n + 1);
    let round = RoundView {
        t_commitments: proof.t_commitments.as_slice(),
        challenge: c,
        z_coeffs: proof.z_coeffs.as_slice(),
        z_blindings: proof.z_blindings.as_slice(),
    };
    let rounds = [round];
    let gammas = [Scalar::one()];
    let r = batched_point_check_rank1(statement, &rounds, deltas.as_slice(), &gammas);
    proof {
        assert(crate::one_round_proofs::utils::rounds_data(rounds@) =~= seq![
            (
                dlogs(proof.t_commitments@),
                schnorr_challenge(*statement, proof.t_commitments@),
                svals(proof.z_coeffs@),
                svals(proof.z_blindings@),
            ),
        ]);
        assert(svals(gammas@) =~= seq![1int]);
    }
    r
}

/// Checks one proof per statement; `false` when the counts differ.
pub fn batch_verify(statements: &[PolyWellFormedStatement], proofs: &[PolyWellFormedProof]) -> (r:
    bool)
    ensures
        r == (statements@.len() == proofs@.len() && forall|i: int|
            0 <= i < statements@.len() ==> schnorr_valid(statements@[i], proofs@[i])),
{
    if statements.len() != proofs.len() {
        return false;
    }
    let mut i: usize = 0;
    while i < statements.len()
        invariant
            i <= statements@.len(),
            statements@.len() == proofs@.len(),
            forall|q: int| 0 <= q < i ==> schnorr_valid(statements@[q], proofs@[q]),
        decreases statements@.len() - i,
    {
        if !verify(&statements[i], &proofs[i]) {
            return false;
        }
        i = i + 1;
    }
    true
}

/// The Schnorr proof system as a [`PolyProofScheme`].
#[derive(Clone, Copy)]
pub struct SchnorrPolyProof;

impl PolyProofScheme for SchnorrPolyProof {
    type Proof = PolyWellFormedProof;
    type Params = ();

    open spec fn prove_requires(params: &(), statement: &PolyWellFormedStatement, witness: &PolyWellFormedWitness) -> bool {
        &&& statement.commitments@.len() == statement.x_points@.len()
        &&& witness.blindings@.len() == statement.x_points@.len()
        &&& witness.coeffs@.len() == statement.degree + 1
        &&& statement.x_points@.len() < usize::MAX
    }

    open spec fn proof_honest(params: &(), statement: &PolyWellFormedStatement, witness: &PolyWellFormedWitness, proof: &PolyWellFormedProof) -> bool {
        exists|rc: Seq<int>, rb: Seq<int>| schnorr_honest(*statement, *witness, rc, rb, *proof)
    }

    open spec fn proof_valid(params: &(), statement: &PolyWellFormedStatement, proof: &PolyWellFormedProof) -> bool {
        schnorr_valid(*statement, *proof)
    }

    /// The prover always makes a proof.
    open spec fn prove_fails(params: &(), statement: &PolyWellFormedStatement, witness: &PolyWellFormedWitness) -> bool {
        false
    }

    fn prove(params: &(), statement: &PolyWellFormedStatement, witness: &PolyWellFormedWitness) -> (r: Option<PolyWellFormedProof>) {
        Some(prove(statement, witness))
    }

    fn verify(params: &(), statement: &PolyWellFormedStatement, proof: &PolyWellFormedProof) -> (r: bool) {
        verify(statement, proof)
    }
}

} // verus!
