//! Proof that a batch of Pedersen commitments `C_k = g^{a_k} h^{b_k}` and
//! `D = g^omega h^r` are opened by the witness, folded by weights drawn from
//! the statement into one equation.

use crate::arith::modl;
use crate::group::{check_combination, combination_is_identity, dlogs, h_dlog, svals, Point};
use crate::one_round_proofs::utils::com_dlogs;
use crate::pedersen::{com_dlog, commit_point, PedersenCommitment};
use crate::scalar::Scalar;
use crate::transcript::{
    append_point, append_u64, challenge_scalar, challenge_value, indexed_challenges,
    indexed_history, indexed_values, new_transcript, op_append, op_init, transcript_contents,
    TranscriptOp,
};
use crate::two_round_proofs::DecomProofScheme;
use merlin::Transcript;
use vstd::prelude::*;
use vstd::string::StringSliceAdditionalSpecFns;

verus! {

/// The commitments `C_k` and `D`.
#[derive(Clone)]
pub struct DecomStatement {
    pub pedvss: Vec<PedersenCommitment>,
    pub d: PedersenCommitment,
}

/// The openings `(a_k, b_k)` and `(omega, r)`.
#[derive(Clone)]
pub struct DecomWitness {
    pub a: Vec<Scalar>,
    pub b: Vec<Scalar>,
    pub omega: Scalar,
    pub r: Scalar,
}

/// The folded first-round commitment and one response per witness scalar.
#[derive(Clone)]
pub struct DecomProof {
    pub t: Point,
    pub z_a: Vec<Scalar>,
    pub z_b: Vec<Scalar>,
    pub z_omega: Scalar,
    pub z_r: Scalar,
}

/// The witness opens the statement.
pub open spec fn decom_relation(stmt: DecomStatement, wit: DecomWitness) -> bool {
    let n = stmt.pedvss@.len();
    &&& wit.a@.len() == n
    &&& wit.b@.len() == n
    &&& forall|k: int|
        0 <= k < n ==> (#[trigger] stmt.pedvss@[k])@ == com_dlog(wit.a@[k]@, wit.b@[k]@)
    &&& stmt.d@ == com_dlog(wit.omega@, wit.r@)
}

/// The entries of the first `k` commitments: index, then encoding.
pub open spec fn pedvss_ops(cs: Seq<PedersenCommitment>, k: int) -> Seq<TranscriptOp>
    decreases k,
{
    if k <= 0 {
        Seq::empty()
    } else {
        pedvss_ops(cs, k - 1) + seq![
            op_append("pedvss_idx".spec_bytes(), vstd::bytes::spec_u64_to_le_bytes((k - 1) as u64)),
            op_append("C_k".spec_bytes(), crate::group::compressed_multiple(cs[k - 1]@)),
        ]
    }
}

/// The transcript entries of the statement.
pub open spec fn decom_statement_ops(stmt: DecomStatement) -> Seq<TranscriptOp> {
    let n = stmt.pedvss@.len();
    seq![
        op_init("decom_proof_combined".spec_bytes()),
        op_append("pedvss_len".spec_bytes(), vstd::bytes::spec_u64_to_le_bytes(n as u64)),
    ] + pedvss_ops(stmt.pedvss@, n as int) + seq![
        op_append("D".spec_bytes(), crate::group::compressed_multiple(stmt.d@)),
    ]
}

/// The weights `lambda_0..lambda_n`.
pub open spec fn decom_lambdas(stmt: DecomStatement) -> Seq<int> {
    indexed_values(
        decom_statement_ops(stmt),
        "lambda_idx".spec_bytes(),
        "lambda".spec_bytes(),
        stmt.pedvss@.len() + 1int,
    )
}

/// The challenge for first-round commitment `t`.
pub open spec fn decom_challenge(stmt: DecomStatement, t: Point) -> int {
    challenge_value(
        indexed_history(
            decom_statement_ops(stmt),
            "lambda_idx".spec_bytes(),
            "lambda".spec_bytes(),
            stmt.pedvss@.len() + 1int,
        ).push(op_append("T".spec_bytes(), t.enc())),
        "e".spec_bytes(),
    )
}

/// `sum_{k < j} zs[k] * ls[k]`, reduced at every step.
pub open spec fn fold_sum(zs: Seq<int>, ls: Seq<int>, j: int) -> int
    decreases j,
{
    if j <= 0 {
        0
    } else {
        modl(fold_sum(zs, ls, j - 1) + modl(zs[j - 1] * ls[j - 1]))
    }
}

/// `sum_{k < n} zs[k] * ls[k] + ls[n] * last`.
pub open spec fn combined(zs: Seq<int>, ls: Seq<int>, last: int, n: int) -> int {
    modl(fold_sum(zs, ls, n) + modl(ls[n] * last))
}

/// The scalars of the folded check.
pub open spec fn decom_scalars(za: Seq<int>, zb: Seq<int>, zo: int, zr: int, ls: Seq<int>, e: int, n: int) -> Seq<int> {
    seq![combined(za, ls, zo, n), combined(zb, ls, zr, n), modl(-1)] + Seq::new(
        (n + 1) as nat,
        |k: int| modl(modl(-e) * ls[k]),
    )
}

/// The elements of the folded check.
pub open spec fn decom_points(stmt: DecomStatement, t: int) -> Seq<int> {
    seq![1, h_dlog(), t] + com_dlogs(stmt.pedvss@) + seq![stmt.d@]
}

/// What the verifier accepts.
pub open spec fn decom_valid(stmt: DecomStatement, proof: DecomProof) -> bool {
    let n = stmt.pedvss@.len() as int;
    let ls = decom_lambdas(stmt);
    let e = decom_challenge(stmt, proof.t);
    &&& n > 0
    &&& n < usize::MAX
    &&& proof.z_a@.len() == n
    &&& proof.z_b@.len() == n
    &&& combination_is_identity(
        decom_scalars(svals(proof.z_a@), svals(proof.z_b@), proof.z_omega@, proof.z_r@, ls, e, n),
        decom_points(stmt, proof.t@),
    )
}

/// An honest proof with nonces `aa`, `ab`, `ao`, `ar`.
pub open spec fn decom_honest(
    stmt: DecomStatement,
    wit: DecomWitness,
    proof: DecomProof,
    aa: Seq<int>,
    ab: Seq<int>,
    ao: int,
    ar: int,
) -> bool {
    let n = stmt.pedvss@.len() as int;
    let ls = decom_lambdas(stmt);
    let e = decom_challenge(stmt, proof.t);
    &&& aa.len() == n
    &&& ab.len() == n
    &&& proof.z_a@.len() == n
    &&& proof.z_b@.len() == n
    &&& proof.t@ == com_dlog(combined(aa, ls, ao, n), combined(ab, ls, ar, n))
    &&& forall|k: int| 0 <= k < n ==> (#[trigger] proof.z_a@[k])@ == modl(aa[k] + modl(e * wit.a@[k]@))
    &&& forall|k: int| 0 <= k < n ==> (#[trigger] proof.z_b@[k])@ == modl(ab[k] + modl(e * wit.b@[k]@))
    &&& proof.z_omega@ == modl(ao + modl(e * wit.omega@))
    &&& proof.z_r@ == modl(ar + modl(e * wit.r@))
}

/// `sum_{k < n} zs[k] * ls[k] + ls[n] * last`, as the prover and verifier
/// compute it.
fn combine(zs: &[Scalar], ls: &[Scalar], last: &Scalar) -> (r: Scalar)
    requires
        ls@.len() == zs@.len() + 1,
    ensures
        r@ == combined(svals(zs@), svals(ls@), last@, zs@.len() as int),
{
    let n = zs.len();
    let mut acc = Scalar::zero();
    let mut k: usize = 0;
    while k < n
        invariant
            k <= n,
            n == zs@.len(),
            ls@.len() == n + 1,
            acc@ == fold_sum(svals(zs@), svals(ls@), k as int),
        decreases n - k,
    {
        let t = zs[k].mul(&ls[k]);
        acc = acc.add(&t);
        k = k + 1;
    }
    let t = ls[n].mul(last);
    acc.add(&t)
}

/// The elements `C_0..C_{n-1}, D` of a statement.
pub fn statement_points(statement: &DecomStatement) -> (r: Vec<Point>)
    ensures
        dlogs(r@) == com_dlogs(statement.pedvss@) + seq![statement.d@],
{
    let mut out: Vec<Point> = Vec::new();
    let mut k: usize = 0;
    while k < statement.pedvss.len()
        invariant
            k <= statement.pedvss@.len(),
            dlogs(out@) == com_dlogs(statement.pedvss@).subrange(0, k as int),
        decreases statement.pedvss@.len() - k,
    {
        let ghost p0 = out@;
        out.push(*statement.pedvss[k].point());
        proof {
            assert(dlogs(out@) =~= dlogs(p0).push(statement.pedvss@[k as int]@));
            assert(com_dlogs(statement.pedvss@).subrange(0, k + 1) =~= com_dlogs(
                statement.pedvss@,
            ).subrange(0, k as int).push(statement.pedvss@[k as int]@));
        }
        k = k + 1;
    }
    let ghost p0 = out@;
    out.push(*statement.d.point());
    proof {
        assert(dlogs(out@) =~= dlogs(p0).push(statement.d@));
        assert(com_dlogs(statement.pedvss@).subrange(0, statement.pedvss@.len() as int)
            =~= com_dlogs(statement.pedvss@));
    }
    out
}

/// `m * l` for every weight `l`.
pub fn scaled(m: &Scalar, ls: &[Scalar]) -> (r: Vec<Scalar>)
    ensures
        svals(r@) == Seq::new(ls@.len(), |q: int| modl(m@ * svals(ls@)[q])),
{
    let mut out: Vec<Scalar> = Vec::new();
    let mut k: usize = 0;
    while k < ls.len()
        invariant
            k <= ls@.len(),
            svals(out@) == Seq::new(k as nat, |q: int| modl(m@ * svals(ls@)[q])),
        decreases ls@.len() - k,
    {
        let ghost s0 = out@;
        out.push(m.mul(&ls[k]));
        proof {
            assert(svals(out@) =~= svals(s0).push(modl(m@ * ls@[k as int]@)));
            assert(svals(out@) =~= Seq::new((k + 1) as nat, |q: int| modl(m@ * svals(ls@)[q])));
        }
        k = k + 1;
    }
    out
}

impl DecomProof {
    /// The statement has a commitment, and each given witness or proof has
    /// one entry per commitment in each of its two vectors.
    fn validate_shapes(statement: &DecomStatement, witness: Option<&DecomWitness>, given_proof: Option<&Self>) -> (r: bool)
        ensures
            r == ({
                &&& statement.pedvss@.len() > 0
                &&& (witness matches Some(w) ==> (w.a@.len() == statement.pedvss@.len() && w.b@.len()
                    == statement.pedvss@.len()))
                &&& (given_proof matches Some(p) ==> (p.z_a@.len() == statement.pedvss@.len() && p.z_b@.len()
                    == statement.pedvss@.len()))
            }),
    {
        let n = statement.pedvss.len();
        let witness_ok = match witness {
            Some(w) => w.a.len() == n && w.b.len() == n,
            None => true,
        };
        let proof_ok = match given_proof {
            Some(p) => p.z_a.len() == n && p.z_b.len() == n,
            None => true,
        };
        n > 0 && witness_ok && proof_ok
    }

    fn transcript(statement: &DecomStatement) -> (t: Transcript)
        ensures
            transcript_contents(t) == decom_statement_ops(*statement),
    {
        let mut t = new_transcript("decom_proof_combined");
        append_u64(&mut t, "pedvss_len", statement.pedvss.len() as u64);
        let ghost h1 = transcript_contents(t);
        let mut k: usize = 0;
        while k < statement.pedvss.len()
            invariant
                k <= statement.pedvss@.len(),
                transcript_contents(t) == h1 + pedvss_ops(statement.pedvss@, k as int),
            decreases statement.pedvss@.len() - k,
        {
            append_u64(&mut t, "pedvss_idx", k as u64);
            append_point(&mut t, "C_k", statement.pedvss[k].point());
            proof {
                assert(transcript_contents(t) =~= h1 + pedvss_ops(statement.pedvss@, k + 1));
            }
            k = k + 1;
        }
        append_point(&mut t, "D", statement.d.point());
        assert(transcript_contents(t) =~= decom_statement_ops(*statement));
        t
    }

    /// Draws `count` weights, each after its index.
    pub fn derive_lambdas(transcript: &mut Transcript, count: usize) -> (r: Vec<Scalar>)
        ensures
            svals(r@) == indexed_values(
                transcript_contents(*old(transcript)),
                "lambda_idx".spec_bytes(),
                "lambda".spec_bytes(),
                count as int,
            ),
            r@.len() == count,
            transcript_contents(*final(transcript)) == indexed_history(
                transcript_contents(*old(transcript)),
                "lambda_idx".spec_bytes(),
                "lambda".spec_bytes(),
                count as int,
            ),
    {
        let r = indexed_challenges(transcript, "lambda_idx", "lambda", count);
        r
    }

    /// Proves that the witness opens the statement.
    pub fn prove(statement: &DecomStatement, witness: &DecomWitness) -> (r: DecomProof)
        requires
            statement.pedvss@.len() > 0,
            statement.pedvss@.len() < usize::MAX,
            witness.a@.len() == statement.pedvss@.len(),
            witness.b@.len() == statement.pedvss@.len(),
        ensures
            exists|aa: Seq<int>, ab: Seq<int>, ao: int, ar: int|
                decom_honest(*statement, *witness, r, aa, ab, ao, ar),
    {
        let n = statement.pedvss.len();
        let mut transcript = Self::transcript(statement);
        let lambdas = Self::derive_lambdas(&mut transcript, n + 1);
        let mut alpha_a: Vec<Scalar> = Vec::new();
        let mut alpha_b: Vec<Scalar> = Vec::new();
        let mut k: usize = 0;
        while k < n
            invariant
                k <= n,
                alpha_a@.len() == k,
                alpha_b@.len() == k,
            decreases n - k,
        {
            alpha_a.push(Scalar::random());
            alpha_b.push(Scalar::random());
            k = k + 1;
        }
        let alpha_omega = Scalar::random();
        let alpha_r = Scalar::random();
        let combined_a = combine(alpha_a.as_slice(), lambdas.as_slice(), &alpha_omega);
        let combined_b = combine(alpha_b.as_slice(), lambdas.as_slice(), &alpha_r);
        let t = commit_point(&combined_a, &combined_b);
        append_point(&mut transcript, "T", &t);
        let e = challenge_scalar(&mut transcript, "e");
        let mut z_a: Vec<Scalar> = Vec::new();
        let mut z_b: Vec<Scalar> = Vec::new();
        let mut k: usize = 0;
        while k < n
            invariant
                k <= n,
                n == statement.pedvss@.len(),
                alpha_a@.len() == n,
                alpha_b@.len() == n,
                witness.a@.len() == n,
                witness.b@.len() == n,
                z_a@.len() == k,
                z_b@.len() == k,
                forall|q: int|
                    0 <= q < k ==> (#[trigger] z_a@[q])@ == modl(alpha_a@[q]@ + modl(e@ * witness.a@[q]@)),
                forall|q: int|
                    0 <= q < k ==> (#[trigger] z_b@[q])@ == modl(alpha_b@[q]@ + modl(e@ * witness.b@[q]@)),
            decreases n - k,
        {
            z_a.push(alpha_a[k].add(&e.mul(&witness.a[k])));
            z_b.push(alpha_b[k].add(&e.mul(&witness.b[k])));
            k = k + 1;
        }
        let z_omega = alpha_omega.add(&e.mul(&witness.omega));
        let z_r = alpha_r.add(&e.mul(&witness.r));
        let proof = DecomProof { t, z_a, z_b, z_omega, z_r };
        proof {
            assert(decom_honest(
                *statement,
                *witness,
                proof,
                svals(alpha_a@),
                svals(alpha_b@),
                alpha_omega@,
                alpha_r@,
            ));
        }
        proof
    }

    /// Checks the folded equation.
    #[verifier::rlimit(40)]
    pub fn verify(&self, statement: &DecomStatement) -> (r: bool)
        ensures
            r == decom_valid(*statement, *self),
    {
        let n = statement.pedvss.len();
        if n == usize::MAX || !Self::validate_shapes(statement, None, Some(self)) {
            return false;
        }
        let mut transcript = Self::transcript(statement);
        let lambdas = Self::derive_lambdas(&mut transcript, n + 1);
        append_point(&mut transcript, "T", &self.t);
        let e = challenge_scalar(&mut transcript, "e");
        let combined_z_a = combine(self.z_a.as_slice(), lambdas.as_slice(), &self.z_omega);
        let combined_z_b = combine(self.z_b.as_slice(), lambdas.as_slice(), &self.z_r);
        let me = e.neg();
        let mut scalars: Vec<Scalar> = Vec::new();
        scalars.push(combined_z_a);
        scalars.push(combined_z_b);
        scalars.push(Scalar::one().neg());
        let mut tail_s = scaled(&me, lambdas.as_slice());
        scalars.append(&mut tail_s);
        let mut points: Vec<Point> = Vec::new();
        points.push(Point::generator());
        points.push(Point::pedersen_h());
        points.push(self.t);
        let mut tail_p = statement_points(statement);
        let ghost head = points@;
        let ghost tailv = tail_p@;
        points.append(&mut tail_p);
        proof {
            assert(points@ =~= head + tailv);
            assert(dlogs(head + tailv) =~= dlogs(head) + dlogs(tailv));
            assert(dlogs(head) =~= seq![1, h_dlog(), self.t@]);
        }
        proof {
            let ls = svals(lambdas@);
            assert(svals(scalars@) =~= decom_scalars(
                svals(self.z_a@),
                svals(self.z_b@),
                self.z_omega@,
                self.z_r@,
                ls,
                e@,
                n as int,
            ));
            assert(dlogs(points@) =~= decom_points(*statement, self.t@));
        }
        check_combination(scalars.as_slice(), points.as_slice())
    }
}

/// The Schnorr decommitment proof as a [`DecomProofScheme`].
#[derive(Clone, Copy, Debug)]
pub struct SchnorrDecomProof;

/// It takes no parameters.
#[derive(Clone, Copy, Debug)]
pub struct SchnorrDecomProofParams;

impl DecomProofScheme for SchnorrDecomProof {
    type Statement = DecomStatement;
    type Witness = DecomWitness;
    type Proof = DecomProof;
    type Params = SchnorrDecomProofParams;

    open spec fn prove_requires(params: &SchnorrDecomProofParams, statement: &DecomStatement, witness: &DecomWitness) -> bool {
        &&& statement.pedvss@.len() > 0
        &&& statement.pedvss@.len() < usize::MAX
        &&& witness.a@.len() == statement.pedvss@.len()
        &&& witness.b@.len() == statement.pedvss@.len()
    }

    open spec fn proof_honest(params: &SchnorrDecomProofParams, statement: &DecomStatement, witness: &DecomWitness, proof: &DecomProof) -> bool {
        exists|aa: Seq<int>, ab: Seq<int>, ao: int, ar: int|
            decom_honest(*statement, *witness, *proof, aa, ab, ao, ar)
    }

    open spec fn proof_valid(params: &SchnorrDecomProofParams, statement: &DecomStatement, proof: &DecomProof) -> bool {
        decom_valid(*statement, *proof)
    }

    /// The prover always makes a proof.
    open spec fn prove_fails(params: &SchnorrDecomProofParams, statement: &DecomStatement, witness: &DecomWitness) -> bool {
        false
    }

    fn prove(params: &SchnorrDecomProofParams, statement: &DecomStatement, witness: &DecomWitness) -> (r: Option<DecomProof>) {
        Some(DecomProof::prove(statement, witness))
    }

    fn verify(params: &SchnorrDecomProofParams, statement: &DecomStatement, proof: &DecomProof) -> (r: bool) {
        proof.verify(statement)
    }
}

} // verus!
