//! The random linear combination behind the batched well-formedness proof:
//! weights `lambda_0..lambda_n` drawn from the transcript turn the `n + 1`
//! openings of a statement into one inner product with the coefficients.

use crate::arith::{lemma_modl_add, lemma_modl_bound, lemma_modl_mul, modl};
use crate::group::{dlogs, lin_comb, multiscalar_mul, svals, Point};
use crate::one_round_proofs::polyproof_schnorr::PolyWellFormedStatement;
use crate::one_round_proofs::utils::{c_ops, com_dlogs, x_ops};
use crate::pedersen::PedersenCommitment;
use crate::scalar::Scalar;
use crate::transcript::{
    append_message, append_point, append_scalar, append_u64, indexed_challenges, indexed_history, indexed_values,
    op_append, transcript_contents, TranscriptOp,
};
use merlin::Transcript;
use vstd::arithmetic::power::pow;
use vstd::prelude::*;
use vstd::string::StringSliceAdditionalSpecFns;

verus! {

/// What absorbing a statement for the batched proof appends to a transcript.
pub open spec fn batched_statement_ops(stmt: PolyWellFormedStatement) -> Seq<TranscriptOp> {
    let n = stmt.x_points@.len() as int;
    seq![
        op_append("dom-sep".spec_bytes(), "poly-well-formedness-batched".spec_bytes()),
        op_append("f0_commitment".spec_bytes(), stmt.f0_commitment.enc()),
        op_append("n".spec_bytes(), vstd::bytes::spec_u64_to_le_bytes(n as u64)),
    ] + x_ops(stmt.x_points@, n) + c_ops(stmt.commitments@, stmt.commitments@.len() as int)
}

/// Absorbs the statement: `f0`, the evaluation points and the commitments,
/// each under its own label and index.
pub fn append_statement_to_transcript(transcript: &mut Transcript, statement: &PolyWellFormedStatement)
    ensures
        transcript_contents(*final(transcript)) == transcript_contents(*old(transcript))
            + batched_statement_ops(*statement),
{
    let ghost h0 = transcript_contents(*transcript);
    let dom = "poly-well-formedness-batched";
    proof {
        reveal_strlit("poly-well-formedness-batched");
        assert(vstd::string::is_ascii(dom));
        vstd::string::is_ascii_spec_bytes(dom);
    }
    append_message(transcript, "dom-sep", dom.as_bytes());
    append_point(transcript, "f0_commitment", &statement.f0_commitment);
    append_u64(transcript, "n", statement.x_points.len() as u64);
    let ghost h1 = transcript_contents(*transcript);
    let mut i: usize = 0;
    while i < statement.x_points.len()
        invariant
            i <= statement.x_points@.len(),
            transcript_contents(*transcript) == h1 + x_ops(statement.x_points@, i as int),
        decreases statement.x_points@.len() - i,
    {
        let ib = vstd::bytes::u64_to_le_bytes(i as u64);
        append_message(transcript, "x_index", ib.as_slice());
        append_scalar(transcript, "x", &statement.x_points[i]);
        proof {
            assert(transcript_contents(*transcript) =~= h1 + x_ops(statement.x_points@, i + 1));
        }
        i = i + 1;
    }
    let ghost h2 = transcript_contents(*transcript);
    let mut i: usize = 0;
    while i < statement.commitments.len()
        invariant
            i <= statement.commitments@.len(),
            transcript_contents(*transcript) == h2 + c_ops(statement.commitments@, i as int),
        decreases statement.commitments@.len() - i,
    {
        let ib = vstd::bytes::u64_to_le_bytes(i as u64);
        append_message(transcript, "c_index", ib.as_slice());
        append_point(transcript, "commitment", statement.commitments[i].point());
        proof {
            assert(transcript_contents(*transcript) =~= h2 + c_ops(statement.commitments@, i + 1));
        }
        i = i + 1;
    }
    proof {
        assert(transcript_contents(*transcript) =~= h0 + batched_statement_ops(*statement));
    }
}

/// Draws `lambda_0..lambda_n` from the transcript, each after its index.
pub fn derive_lambdas(transcript: &mut Transcript, n: usize) -> (r: Vec<Scalar>)
    requires
        n < usize::MAX,
    ensures
        svals(r@) == indexed_values(
            transcript_contents(*old(transcript)),
            "lambda_index".spec_bytes(),
            "lambda".spec_bytes(),
            n + 1,
        ),
        r@.len() == n + 1,
        transcript_contents(*final(transcript)) == indexed_history(
            transcript_contents(*old(transcript)),
            "lambda_index".spec_bytes(),
            "lambda".spec_bytes(),
            n + 1,
        ),
{
    indexed_challenges(transcript, "lambda_index", "lambda", n + 1)
}


/// `sum_{i < k} l[i + 1] * x[i]^j`.
pub open spec fn weighted_power_sum(x: Seq<int>, l: Seq<int>, j: nat, k: int) -> int
    decreases k,
{
    if k <= 0 {
        0
    } else {
        weighted_power_sum(x, l, j, k - 1) + l[k] * pow(x[k - 1], j)
    }
}

/// `mu_j`, the weight on coefficient `j`: `lambda_0 [j = 0] + sum_i lambda_{i+1} x_i^j`,
/// so that `sum_j mu_j a_j = lambda_0 a_0 + sum_i lambda_{i+1} f(x_i)`.
pub open spec fn mu_value(x: Seq<int>, l: Seq<int>, j: nat) -> int {
    modl((if j == 0 { l[0] } else { 0 }) + weighted_power_sum(x, l, j, x.len() as int))
}

/// The weights `mu_0..mu_degree` for evaluation points `x_points` and weights
/// `lambdas`.
pub fn compute_mus(x_points: &[Scalar], lambdas: &[Scalar], degree: usize) -> (r: Vec<Scalar>)
    requires
        lambdas@.len() == x_points@.len() + 1,
        degree < usize::MAX,
    ensures
        r@.len() == degree + 1,
        forall|j: int|
            0 <= j <= degree ==> (#[trigger] r@[j])@ == mu_value(
                svals(x_points@),
                svals(lambdas@),
                j as nat,
            ),
{
    let n = x_points.len();
    let ghost xs = svals(x_points@);
    let ghost ls = svals(lambdas@);
    let mut mus: Vec<Scalar> = Vec::new();
    let mut j: usize = 0;
    // x_pows[i] holds x_i^j, updated in place as j grows.
    let mut x_pows: Vec<Scalar> = Vec::new();
    let mut i: usize = 0;
    while i < n
        invariant
            i <= n,
            n == x_points@.len(),
            x_pows@.len() == i,
            forall|q: int| 0 <= q < i ==> (#[trigger] x_pows@[q])@ == 1,
        decreases n - i,
    {
        x_pows.push(Scalar::one());
        i = i + 1;
    }
    proof {
        lemma_modl_bound(1);
        assert forall|q: int| 0 <= q < n implies (#[trigger] x_pows@[q])@ == modl(pow(xs[q], 0)) by {
            vstd::arithmetic::power::lemma_pow0(xs[q]);
        }
    }
    while j <= degree
        invariant
            j <= degree + 1,
            degree < usize::MAX,
            n == x_points@.len(),
            lambdas@.len() == n + 1,
            xs == svals(x_points@),
            ls == svals(lambdas@),
            mus@.len() == j,
            x_pows@.len() == n,
            j <= degree ==> forall|q: int|
                0 <= q < n ==> (#[trigger] x_pows@[q])@ == modl(pow(xs[q], j as nat)),
            forall|q: int| 0 <= q < j ==> (#[trigger] mus@[q])@ == mu_value(xs, ls, q as nat),
        decreases degree + 1 - j,
    {
        let mut acc = Scalar::zero();
        if j == 0 {
            acc = acc.add(&lambdas[0]);
        }
        let ghost base: int = if j == 0 { ls[0] } else { 0 };
        let mut i: usize = 0;
        while i < n
            invariant
                i <= n,
                n == x_points@.len(),
                lambdas@.len() == n + 1,
                xs == svals(x_points@),
                ls == svals(lambdas@),
                x_pows@.len() == n,
                forall|q: int| 0 <= q < n ==> (#[trigger] x_pows@[q])@ == modl(pow(xs[q], j as nat)),
                acc@ == modl(base + weighted_power_sum(xs, ls, j as nat, i as int)),
            decreases n - i,
        {
            let t = lambdas[i + 1].mul(&x_pows[i]);
            let ghost prev = acc@;
            acc = acc.add(&t);
            proof {
                let w = weighted_power_sum(xs, ls, j as nat, i as int);
                let p = pow(xs[i as int], j as nat);
                assert(ls[i + 1] == lambdas@[i + 1]@);
                lemma_modl_mul(ls[i + 1], p);
                lemma_modl_add(base + w, modl(ls[i + 1] * p));
                lemma_modl_add(base + w, ls[i + 1] * p);
            }
            i = i + 1;
        }
        proof {
            if j == 0 {
                assert(base == ls[0]);
            }
        }
        mus.push(acc);
        proof {
            assert(mus@[j as int]@ == mu_value(xs, ls, j as nat));
        }
        if j < degree {
            let mut i: usize = 0;
            while i < n
                invariant
                    i <= n,
                    n == x_points@.len(),
                    xs == svals(x_points@),
                    x_pows@.len() == n,
                    forall|q: int|
                        0 <= q < i ==> (#[trigger] x_pows@[q])@ == modl(pow(xs[q], (j + 1) as nat)),
                    forall|q: int|
                        i <= q < n ==> (#[trigger] x_pows@[q])@ == modl(pow(xs[q], j as nat)),
                decreases n - i,
            {
                let v = x_pows[i].mul(&x_points[i]);
                proof {
                    let p = pow(xs[i as int], j as nat);
                    lemma_modl_mul(p, xs[i as int]);
                    assert(pow(xs[i as int], (j + 1) as nat) == xs[i as int] * p) by {
                        reveal(pow);
                    }
                    assert(p * xs[i as int] == xs[i as int] * p) by (nonlinear_arith);
                }
                x_pows.set(i, v);
                i = i + 1;
            }
        }
        j = j + 1;
    }
    mus
}

/// `f0^{lambda_0} * prod_i C_i^{lambda_{i+1}}`.
pub fn combine_publics(f0_commitment: &Point, commitments: &[PedersenCommitment], lambdas: &[Scalar]) -> (r: Point)
    requires
        lambdas@.len() == commitments@.len() + 1,
    ensures
        r@ == modl(lin_comb(svals(lambdas@), seq![f0_commitment@] + com_dlogs(commitments@))),
{
    let mut points: Vec<Point> = Vec::new();
    points.push(*f0_commitment);
    let mut i: usize = 0;
    while i < commitments.len()
        invariant
            i <= commitments@.len(),
            dlogs(points@) == seq![f0_commitment@] + com_dlogs(commitments@).subrange(0, i as int),
        decreases commitments@.len() - i,
    {
        let ghost p0 = points@;
        points.push(*commitments[i].point());
        proof {
            assert(dlogs(points@) =~= dlogs(p0).push(commitments@[i as int]@));
            assert(com_dlogs(commitments@).subrange(0, i + 1) =~= com_dlogs(commitments@).subrange(
                0,
                i as int,
            ).push(commitments@[i as int]@));
        }
        i = i + 1;
    }
    proof {
        assert(com_dlogs(commitments@).subrange(0, commitments@.len() as int) =~= com_dlogs(
            commitments@,
        ));
    }
    multiscalar_mul(lambdas, points.as_slice())
}

} // verus!
