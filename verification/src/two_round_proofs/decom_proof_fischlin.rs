//! Fischlin-transformed decommitment proof: `rho` rounds of the folded Sigma
//! protocol, each with a small challenge found by search so that a hash of the
//! round has `b` leading zero bits.

use crate::arith::{group_order, lemma_modl_add, lemma_modl_bound, modl};
use crate::bytes::{push_bytes, push_u64, sha512, sha512_spec, u64_le};
use crate::codec::{points_bytes, push_points};
use crate::group::{dlogs, lin_comb, multiscalar_mul, svals, Point};
use crate::one_round_proofs::polyproof_fischlin::{digest_u32, lemma_responses_unique, responses_at};
use crate::one_round_proofs::utils::com_dlogs;
use crate::pedersen::{com_dlog, commit_point, PedersenCommitment};
use crate::scalar::Scalar;
use crate::transcript::{
    append_point, append_u64, indexed_challenges, indexed_values, new_transcript, op_append,
    op_init, transcript_contents, TranscriptOp,
};
use crate::two_round_proofs::comeq_proof::{check_sigma_eq, sigma_holds};
use crate::two_round_proofs::decom_proof::{
    combined, fold_sum, statement_points, DecomStatement, DecomWitness,
};
use crate::two_round_proofs::DecomProofScheme;
use vstd::arithmetic::power2::pow2;
use vstd::prelude::*;
use vstd::string::StringSliceAdditionalSpecFns;

pub use crate::one_round_proofs::polyproof_fischlin::score_has_b_leading_zero_bits;

verus! {

/// One round: the folded first-round commitment, the challenge found by the
/// search, and the responses.
#[derive(Clone)]
pub struct DecomFischlinRound {
    pub t: Point,
    pub e: u16,
    pub z_a: Vec<Scalar>,
    pub z_b: Vec<Scalar>,
    pub z_omega: Scalar,
    pub z_r: Scalar,
}

/// A proof: `rho` rounds.
#[derive(Clone)]
pub struct DecomFischlinProof {
    pub rounds: Vec<DecomFischlinRound>,
}

/// The parameters of the transform.
#[derive(Clone, Copy, Debug)]
pub struct FischlinDecomProofParams {
    pub rho: usize,
    pub b: usize,
    pub t_bits: usize,
}

/// Each commitment preceded by its index.
pub open spec fn indexed_commitments_bytes(cs: Seq<PedersenCommitment>) -> Seq<u8>
    decreases cs.len(),
{
    if cs.len() == 0 {
        Seq::empty()
    } else {
        indexed_commitments_bytes(cs.drop_last()) + u64_le((cs.len() - 1) as u64)
            + crate::group::compressed_multiple(cs.last()@)
    }
}

/// Each scalar preceded by its index.
pub open spec fn indexed_scalars_bytes(ss: Seq<Scalar>) -> Seq<u8>
    decreases ss.len(),
{
    if ss.len() == 0 {
        Seq::empty()
    } else {
        indexed_scalars_bytes(ss.drop_last()) + u64_le((ss.len() - 1) as u64)
            + ss.last().spec_encoding()
    }
}

/// The bytes of a statement that open the common hash.
pub open spec fn decom_statement_hash_bytes(stmt: DecomStatement) -> Seq<u8> {
    "decom-fischlin-common-h-batched-pedvss-v1".spec_bytes() + u64_le(stmt.pedvss@.len() as u64)
        + indexed_commitments_bytes(stmt.pedvss@) + crate::group::compressed_multiple(stmt.d@)
}

/// The common hash over the statement and the first-round commitments.
pub open spec fn decom_common_h(stmt: DecomStatement, ts: Seq<Point>) -> Seq<u8> {
    sha512_spec(decom_statement_hash_bytes(stmt) + u64_le(ts.len() as u64) + points_bytes(ts))
}

/// The bytes that open the score hash of round `i`.
pub open spec fn decom_score_prefix(ch: Seq<u8>, i: int, t: Point) -> Seq<u8> {
    "decom-fischlin-score-batched-pedvss-v1".spec_bytes() + ch + u64_le(i as u64) + t.enc()
}

/// The score of a round.
pub open spec fn decom_score_of(
    prefix: Seq<u8>,
    e: u16,
    za: Seq<Scalar>,
    zb: Seq<Scalar>,
    zo: Scalar,
    zr: Scalar,
) -> int {
    digest_u32(
        sha512_spec(
            prefix + u64_le(e as u64) + u64_le(za.len() as u64) + indexed_scalars_bytes(za)
                + u64_le(zb.len() as u64) + indexed_scalars_bytes(zb) + zo.spec_encoding()
                + zr.spec_encoding(),
        ),
    )
}

fn push_indexed_commitments(out: &mut Vec<u8>, cs: &[PedersenCommitment])
    ensures
        final(out)@ == old(out)@ + indexed_commitments_bytes(cs@),
{
    let mut k: usize = 0;
    while k < cs.len()
        invariant
            k <= cs@.len(),
            out@ == old(out)@ + indexed_commitments_bytes(cs@.subrange(0, k as int)),
        decreases cs@.len() - k,
    {
        push_u64(out, k as u64);
        let b = cs[k].compress();
        push_bytes(out, &b);
        proof {
            let s = cs@.subrange(0, k + 1);
            assert(s.drop_last() =~= cs@.subrange(0, k as int));
            assert(out@ =~= old(out)@ + indexed_commitments_bytes(s));
        }
        k = k + 1;
    }
    assert(cs@.subrange(0, cs@.len() as int) =~= cs@);
}

fn push_indexed_scalars(out: &mut Vec<u8>, ss: &[Scalar])
    ensures
        final(out)@ == old(out)@ + indexed_scalars_bytes(ss@),
{
    let mut k: usize = 0;
    while k < ss.len()
        invariant
            k <= ss@.len(),
            out@ == old(out)@ + indexed_scalars_bytes(ss@.subrange(0, k as int)),
        decreases ss@.len() - k,
    {
        push_u64(out, k as u64);
        let b = ss[k].to_bytes();
        push_bytes(out, &b);
        proof {
            let s = ss@.subrange(0, k + 1);
            assert(s.drop_last() =~= ss@.subrange(0, k as int));
            assert(out@ =~= old(out)@ + indexed_scalars_bytes(s));
        }
        k = k + 1;
    }
    assert(ss@.subrange(0, ss@.len() as int) =~= ss@);
}

/// The statement's part of the common hash input, which every common hash
/// starts with.
fn statement_common_h_prefix(statement: &DecomStatement) -> (r: Vec<u8>)
    ensures
        r@ == decom_statement_hash_bytes(*statement),
{
    let mut buf: Vec<u8> = Vec::new();
    let label = "decom-fischlin-common-h-batched-pedvss-v1";
    push_bytes(&mut buf, label.as_bytes());
    push_u64(&mut buf, statement.pedvss.len() as u64);
    push_indexed_commitments(&mut buf, statement.pedvss.as_slice());
    let d = statement.d.compress();
    push_bytes(&mut buf, &d);
    assert(buf@ =~= decom_statement_hash_bytes(*statement));
    buf
}

fn common_h_of(statement: &DecomStatement, ts: &[Point]) -> (r: [u8; 64])
    ensures
        r@ == decom_common_h(*statement, ts@),
{
    let mut buf = statement_common_h_prefix(statement);
    push_u64(&mut buf, ts.len() as u64);
    push_points(&mut buf, ts);
    assert(buf@ =~= decom_statement_hash_bytes(*statement) + u64_le(ts@.len() as u64) + points_bytes(ts@));
    sha512(buf.as_slice())
}

/// The common hash over the statement and the prover's first messages.
pub fn hash_statement_and_first_messages(statement: &DecomStatement, first_messages: &[Point]) -> (r: [u8; 64])
    ensures
        r@ == decom_common_h(*statement, first_messages@),
{
    common_h_of(statement, first_messages)
}

/// The first-round commitments of the rounds.
pub open spec fn decom_round_ts(rs: Seq<DecomFischlinRound>) -> Seq<Point> {
    rs.map_values(|r: DecomFischlinRound| r.t)
}

/// The common hash over the statement and the rounds' first-round commitments.
pub fn hash_statement_and_round_ts(statement: &DecomStatement, rounds: &[DecomFischlinRound]) -> (r: [u8; 64])
    ensures
        r@ == decom_common_h(*statement, decom_round_ts(rounds@)),
{
    let mut ts: Vec<Point> = Vec::new();
    let mut i: usize = 0;
    while i < rounds.len()
        invariant
            i <= rounds@.len(),
            ts@ == decom_round_ts(rounds@).subrange(0, i as int),
        decreases rounds@.len() - i,
    {
        ts.push(rounds[i].t);
        proof {
            assert(ts@ =~= decom_round_ts(rounds@).subrange(0, i + 1));
        }
        i = i + 1;
    }
    assert(ts@ =~= decom_round_ts(rounds@));
    common_h_of(statement, ts.as_slice())
}

fn score_hasher_prefix(common_h: &[u8; 64], round_index: usize, t: &Point) -> (r: Vec<u8>)
    ensures
        r@ == decom_score_prefix(common_h@, round_index as int, *t),
{
    let mut buf: Vec<u8> = Vec::new();
    let label = "decom-fischlin-score-batched-pedvss-v1";
    push_bytes(&mut buf, label.as_bytes());
    push_bytes(&mut buf, common_h);
    push_u64(&mut buf, round_index as u64);
    let tb = t.to_bytes();
    push_bytes(&mut buf, &tb);
    assert(buf@ =~= decom_score_prefix(common_h@, round_index as int, *t));
    buf
}

fn fischlin_score_u32_from_prefix(
    base: &[u8],
    e: u16,
    z_a: &[Scalar],
    z_b: &[Scalar],
    z_omega: &Scalar,
    z_r: &Scalar,
) -> (r: u32)
    ensures
        r == decom_score_of(base@, e, z_a@, z_b@, *z_omega, *z_r),
{
    let mut buf: Vec<u8> = Vec::new();
    push_bytes(&mut buf, base);
    push_u64(&mut buf, e as u64);
    push_u64(&mut buf, z_a.len() as u64);
    push_indexed_scalars(&mut buf, z_a);
    push_u64(&mut buf, z_b.len() as u64);
    push_indexed_scalars(&mut buf, z_b);
    let ob = z_omega.to_bytes();
    push_bytes(&mut buf, &ob);
    let rb = z_r.to_bytes();
    push_bytes(&mut buf, &rb);
    let d = sha512(buf.as_slice());
    assert(buf@ =~= base@ + u64_le(e as u64) + u64_le(z_a@.len() as u64) + indexed_scalars_bytes(z_a@)
        + u64_le(z_b@.len() as u64) + indexed_scalars_bytes(z_b@) + z_omega.spec_encoding()
        + z_r.spec_encoding());
    (d[0] as u32) + (d[1] as u32) * 256 + (d[2] as u32) * 65536 + (d[3] as u32) * 16777216
}

/// The score of round `round_index`.
pub fn fischlin_score_u32(
    common_h: &[u8; 64],
    round_index: usize,
    t: &Point,
    e: u16,
    z_a: &[Scalar],
    z_b: &[Scalar],
    z_omega: &Scalar,
    z_r: &Scalar,
) -> (r: u32)
    ensures
        r == decom_score_of(
            decom_score_prefix(common_h@, round_index as int, *t),
            e,
            z_a@,
            z_b@,
            *z_omega,
            *z_r,
        ),
{
    let base = score_hasher_prefix(common_h, round_index, t);
    fischlin_score_u32_from_prefix(base.as_slice(), e, z_a, z_b, z_omega, z_r)
}

/// The entries of the first `k` commitments: index, then encoding.
pub open spec fn lambda_statement_ops(cs: Seq<PedersenCommitment>, k: int) -> Seq<TranscriptOp>
    decreases k,
{
    if k <= 0 {
        Seq::empty()
    } else {
        lambda_statement_ops(cs, k - 1) + seq![
            op_append("k".spec_bytes(), u64_le((k - 1) as u64)),
            op_append("C_k".spec_bytes(), crate::group::compressed_multiple(cs[k - 1]@)),
        ]
    }
}

/// The weights `lambda_0..lambda_m`, drawn from the statement alone.
pub open spec fn decom_fischlin_lambdas(stmt: DecomStatement) -> Seq<int> {
    let m = stmt.pedvss@.len();
    indexed_values(
        seq![
            op_init("decom_fischlin_lambdas".spec_bytes()),
            op_append("pedvss_len".spec_bytes(), u64_le(m as u64)),
        ] + lambda_statement_ops(stmt.pedvss@, m as int) + seq![
            op_append("D".spec_bytes(), crate::group::compressed_multiple(stmt.d@)),
        ],
        "lambda_idx".spec_bytes(),
        "lambda".spec_bytes(),
        m + 1int,
    )
}

fn derive_lambdas(statement: &DecomStatement) -> (r: Vec<Scalar>)
    requires
        statement.pedvss@.len() < usize::MAX,
    ensures
        svals(r@) == decom_fischlin_lambdas(*statement),
        r@.len() == statement.pedvss@.len() + 1,
{
    let m = statement.pedvss.len();
    let mut t = new_transcript("decom_fischlin_lambdas");
    append_u64(&mut t, "pedvss_len", m as u64);
    let ghost h1 = transcript_contents(t);
    let mut k: usize = 0;
    while k < m
        invariant
            k <= m,
            m == statement.pedvss@.len(),
            transcript_contents(t) == h1 + lambda_statement_ops(statement.pedvss@, k as int),
        decreases m - k,
    {
        append_u64(&mut t, "k", k as u64);
        append_point(&mut t, "C_k", statement.pedvss[k].point());
        proof {
            assert(transcript_contents(t) =~= h1 + lambda_statement_ops(statement.pedvss@, k + 1));
        }
        k = k + 1;
    }
    append_point(&mut t, "D", statement.d.point());
    let ghost h = transcript_contents(t);
    assert(h =~= seq![
        op_init("decom_fischlin_lambdas".spec_bytes()),
        op_append("pedvss_len".spec_bytes(), u64_le(m as u64)),
    ] + lambda_statement_ops(statement.pedvss@, m as int) + seq![
        op_append("D".spec_bytes(), crate::group::compressed_multiple(statement.d@)),
    ]);
    let r = indexed_challenges(&mut t, "lambda_idx", "lambda", m + 1);
    r
}

/// `sum_k lambda_k C_k + lambda_m D`, discrete logarithm.
pub open spec fn pedvss_star(stmt: DecomStatement, ls: Seq<int>) -> int {
    modl(lin_comb(ls, com_dlogs(stmt.pedvss@) + seq![stmt.d@]))
}

fn precompute_pedvss_star(statement: &DecomStatement, lambdas: &[Scalar]) -> (r: Point)
    requires
        lambdas@.len() == statement.pedvss@.len() + 1,
    ensures
        r@ == pedvss_star(*statement, svals(lambdas@)),
{
    let points = statement_points(statement);
    multiscalar_mul(lambdas, points.as_slice())
}

/// `sum_{k < n} zs[k] * ls[k] + ls[n] * last`.
fn combine(zs: &[Scalar], ls: &[Scalar], last: &Scalar) -> (r: Scalar)
    requires
        ls@.len() == zs@.len() + 1,
    ensures
        r@ == combined(svals(zs@), svals(ls@), last@, zs@.len() as int),
{
    let n = zs.len();
    let mut acc = Scalar::zero();
    let mut k: usize = 0;
    while k < n
        invariant
            k <= n,
            n == zs@.len(),
            ls@.len() == n + 1,
            acc@ == fold_sum(svals(zs@), svals(ls@), k as int),
        decreases n - k,
    {
        let t = zs[k].mul(&ls[k]);
        acc = acc.add(&t);
        k = k + 1;
    }
    let t = ls[n].mul(last);
    acc.add(&t)
}

/// Whether a round has the shape the statement asks for.
pub open spec fn decom_round_shape(stmt: DecomStatement, r: DecomFischlinRound) -> bool {
    &&& r.z_a@.len() == stmt.pedvss@.len()
    &&& r.z_b@.len() == stmt.pedvss@.len()
}

/// The per-round checks: challenge range, score, and the folded equation.
#[verifier::opaque]
pub open spec fn decom_round_valid(
    stmt: DecomStatement,
    ch: Seq<u8>,
    i: int,
    r: DecomFischlinRound,
    ls: Seq<int>,
    b: int,
    t_bits: int,
) -> bool {
    let m = stmt.pedvss@.len() as int;
    &&& r.e < pow2(t_bits as nat)
    &&& decom_score_of(decom_score_prefix(ch, i, r.t), r.e, r.z_a@, r.z_b@, r.z_omega, r.z_r)
        < pow2((32 - b) as nat)
    &&& sigma_holds(
        combined(svals(r.z_a@), ls, r.z_omega@, m),
        combined(svals(r.z_b@), ls, r.z_r@, m),
        r.t@,
        pedvss_star(stmt, ls),
        r.e as int,
    )
}

/// What the verifier accepts.
pub open spec fn decom_fischlin_valid(
    stmt: DecomStatement,
    proof: DecomFischlinProof,
    rho: int,
    b: int,
    t_bits: int,
) -> bool {
    let rs = proof.rounds@;
    let m = stmt.pedvss@.len();
    let ch = decom_common_h(stmt, decom_round_ts(rs));
    let ls = decom_fischlin_lambdas(stmt);
    &&& rho > 0 && 1 <= b <= 31 && 1 <= t_bits <= 15 && b <= t_bits
    &&& rs.len() == rho
    &&& m > 0
    &&& m < usize::MAX
    &&& forall|i: int| 0 <= i < rs.len() ==> decom_round_shape(stmt, #[trigger] rs[i])
    &&& forall|i: int|
        0 <= i < rs.len() ==> decom_round_valid(stmt, ch, i, #[trigger] rs[i], ls, b, t_bits)
}

/// The statement has a commitment, the proof has a round, and every round has
/// the statement's shape.
fn validate_statement_proof_shape(statement: &DecomStatement, proof: &DecomFischlinProof) -> (r: bool)
    ensures
        r == ({
            &&& statement.pedvss@.len() > 0
            &&& proof.rounds@.len() > 0
            &&& forall|q: int| 0 <= q < proof.rounds@.len() ==> decom_round_shape(*statement, #[trigger] proof.rounds@[q])
        }),
{
    if statement.pedvss.len() == 0 || proof.rounds.len() == 0 {
        return false;
    }
    let ghost rs = proof.rounds@;
    let mut i: usize = 0;
    while i < proof.rounds.len()
        invariant
            i <= rs.len(),
            rs == proof.rounds@,
            forall|q: int| 0 <= q < i ==> decom_round_shape(*statement, #[trigger] rs[q]),
        decreases rs.len() - i,
    {
        if proof.rounds[i].z_a.len() != statement.pedvss.len() || proof.rounds[i].z_b.len()
            != statement.pedvss.len() {
            return false;
        }
        i = i + 1;
    }
    true
}

/// The per-round checks of the verifier.
fn check_round(
    statement: &DecomStatement,
    common_h: &[u8; 64],
    i: usize,
    round: &DecomFischlinRound,
    lambdas: &Vec<Scalar>,
    pstar: &Point,
    b: usize,
    t_bits: usize,
    challenge_bound: u32,
) -> (r: bool)
    requires
        1 <= b <= 31,
        lambdas@.len() == statement.pedvss@.len() + 1,
        challenge_bound == pow2(t_bits as nat),
        pstar@ == pedvss_star(*statement, svals(lambdas@)),
        decom_round_shape(*statement, *round),
    ensures
        r == decom_round_valid(*statement, common_h@, i as int, *round, svals(lambdas@), b as int, t_bits as int),
{
    reveal(decom_round_valid);
    if (round.e as u32) >= challenge_bound {
        return false;
    }
    let score = fischlin_score_u32(
        common_h,
        i,
        &round.t,
        round.e,
        round.z_a.as_slice(),
        round.z_b.as_slice(),
        &round.z_omega,
        &round.z_r,
    );
    if !score_has_b_leading_zero_bits(score, b) {
        return false;
    }
    let combined_z_a = combine(round.z_a.as_slice(), lambdas.as_slice(), &round.z_omega);
    let combined_z_b = combine(round.z_b.as_slice(), lambdas.as_slice(), &round.z_r);
    let e_scalar = Scalar::from_u64(round.e as u64);
    check_sigma_eq(&combined_z_a, &combined_z_b, &round.t, pstar, &e_scalar)
}

/// Checks a proof.
#[verifier::rlimit(50)]
pub fn verify_fischlin_with_params(
    statement: &DecomStatement,
    proof: &DecomFischlinProof,
    rho: usize,
    b: usize,
    t_bits: usize,
) -> (r: bool)
    ensures
        r == decom_fischlin_valid(*statement, *proof, rho as int, b as int, t_bits as int),
{
    if rho == 0 || b == 0 || b > 31 || t_bits == 0 || t_bits > 15 || b > t_bits {
        return false;
    }
    if proof.rounds.len() != rho || statement.pedvss.len() == usize::MAX {
        return false;
    }
    if !validate_statement_proof_shape(statement, proof) {
        return false;
    }
    let m = statement.pedvss.len();
    let ghost rs = proof.rounds@;
    let challenge_bound = crate::one_round_proofs::polyproof_fischlin::challenge_space_size(t_bits);
    let common_h = hash_statement_and_round_ts(statement, proof.rounds.as_slice());
    let lambdas = derive_lambdas(statement);
    let pstar = precompute_pedvss_star(statement, lambdas.as_slice());
    let ghost ls = svals(lambdas@);
    let mut i: usize = 0;
    while i < proof.rounds.len()
        invariant
            i <= rs.len(),
            rs == proof.rounds@,
            1 <= b <= 31,
            m == statement.pedvss@.len(),
            lambdas@.len() == m + 1,
            ls == svals(lambdas@),
            ls == decom_fischlin_lambdas(*statement),
            challenge_bound == pow2(t_bits as nat),
            pstar@ == pedvss_star(*statement, ls),
            common_h@ == decom_common_h(*statement, decom_round_ts(rs)),
            forall|q: int| 0 <= q < rs.len() ==> decom_round_shape(*statement, #[trigger] rs[q]),
            forall|q: int|
                0 <= q < i ==> decom_round_valid(
                    *statement,
                    common_h@,
                    q,
                    #[trigger] rs[q],
                    ls,
                    b as int,
                    t_bits as int,
                ),
        decreases rs.len() - i,
    {
        if !check_round(statement, &common_h, i, &proof.rounds[i], &lambdas, &pstar, b, t_bits, challenge_bound) {
            assert(!decom_round_valid(*statement, common_h@, i as int, rs[i as int], ls, b as int, t_bits as int));
            assert(!decom_fischlin_valid(*statement, *proof, rho as int, b as int, t_bits as int));
            return false;
        }
        i = i + 1;
    }
    true
}

/// The nonces behind a round: `T = g^{<r_a, lambda>} h^{<r_b, lambda>}` and
/// responses `z = r + e * witness`.
pub open spec fn decom_round_opens(
    stmt: DecomStatement,
    wit: DecomWitness,
    r: DecomFischlinRound,
    ra: Seq<int>,
    rb: Seq<int>,
    ro: int,
    rr: int,
) -> bool {
    let m = stmt.pedvss@.len() as int;
    let ls = decom_fischlin_lambdas(stmt);
    &&& ra.len() == m
    &&& rb.len() == m
    &&& r.z_a@.len() == m
    &&& r.z_b@.len() == m
    &&& r.t@ == com_dlog(combined(ra, ls, ro, m), combined(rb, ls, rr, m))
    &&& forall|k: int| 0 <= k < m ==> (#[trigger] r.z_a@[k])@ == modl(ra[k] + r.e * wit.a@[k]@)
    &&& forall|k: int| 0 <= k < m ==> (#[trigger] r.z_b@[k])@ == modl(rb[k] + r.e * wit.b@[k]@)
    &&& r.z_omega@ == modl(ro + r.e * wit.omega@)
    &&& r.z_r@ == modl(rr + r.e * wit.r@)
}

/// A round opens from nonces `ra`, `rb`, `ro`, `rr`, and every challenge below
/// its own fails the score test: its challenge is the least that passes.
pub open spec fn decom_round_least(
    stmt: DecomStatement,
    wit: DecomWitness,
    ch: Seq<u8>,
    i: int,
    round: DecomFischlinRound,
    ra: Seq<int>,
    rb: Seq<int>,
    ro: int,
    rr: int,
    b: int,
) -> bool {
    &&& decom_round_opens(stmt, wit, round, ra, rb, ro, rr)
    &&& forall|e: int|
        0 <= e < round.e ==> #[trigger] decom_challenge_fails(decom_score_prefix(ch, i, round.t), wit, ra, rb, ro, rr, e, b)
}

/// An honestly made proof.
pub open spec fn decom_fischlin_honest(
    stmt: DecomStatement,
    wit: DecomWitness,
    proof: DecomFischlinProof,
    rho: int,
    b: int,
    t_bits: int,
) -> bool {
    let rs = proof.rounds@;
    let ch = decom_common_h(stmt, decom_round_ts(rs));
    &&& rs.len() == rho
    &&& forall|i: int|
        0 <= i < rho ==> {
            &&& exists|ra: Seq<int>, rb: Seq<int>, ro: int, rr: int|
                decom_round_least(stmt, wit, ch, i, #[trigger] rs[i], ra, rb, ro, rr, b)
            &&& rs[i].e < pow2(t_bits as nat)
            &&& decom_score_of(
                decom_score_prefix(ch, i, rs[i].t),
                rs[i].e,
                rs[i].z_a@,
                rs[i].z_b@,
                rs[i].z_omega,
                rs[i].z_r,
            ) < pow2((32 - b) as nat)
        }
}

/// The responses after `e` steps: `r + e * w` for every witness scalar.
fn advance(z: &mut Vec<Scalar>, w: &[Scalar], Ghost(r0): Ghost<Seq<int>>, Ghost(e): Ghost<int>)
    requires
        old(z)@.len() == w@.len(),
        r0.len() == w@.len(),
        forall|k: int|
            0 <= k < w@.len() ==> (#[trigger] old(z)@[k])@ == modl(r0[k] + e * w@[k]@),
    ensures
        final(z)@.len() == w@.len(),
        forall|k: int|
            0 <= k < w@.len() ==> (#[trigger] final(z)@[k])@ == modl(r0[k] + (e + 1) * w@[k]@),
{
    let m = w.len();
    let mut k: usize = 0;
    while k < m
        invariant
            k <= m,
            m == w@.len(),
            r0.len() == m,
            z@.len() == m,
            forall|q: int| 0 <= q < k ==> (#[trigger] z@[q])@ == modl(r0[q] + (e + 1) * w@[q]@),
            forall|q: int| k <= q < m ==> (#[trigger] z@[q])@ == modl(r0[q] + e * w@[q]@),
        decreases m - k,
    {
        let v = z[k].add(&w[k]);
        proof {
            let a = w@[k as int]@;
            lemma_modl_add(r0[k as int] + e * a, a);
            assert(r0[k as int] + e * a + a == r0[k as int] + (e + 1) * a) by (nonlinear_arith);
        }
        z.set(k, v);
        k = k + 1;
    }
}

/// Random nonces, each below the group order.
fn sample_nonces(m: usize) -> (r: Vec<Scalar>)
    ensures
        r@.len() == m,
        forall|k: int| 0 <= k < m ==> 0 <= #[trigger] r@[k]@ < group_order(),
{
    let mut out: Vec<Scalar> = Vec::new();
    let mut k: usize = 0;
    while k < m
        invariant
            k <= m,
            out@.len() == k,
            forall|q: int| 0 <= q < k ==> 0 <= #[trigger] out@[q]@ < group_order(),
        decreases m - k,
    {
        out.push(Scalar::random());
        k = k + 1;
    }
    out
}

/// The response `z = r + e w` at challenge `e`, as a scalar.
pub open spec fn response_at(r: int, w: Scalar, e: int, z: Scalar) -> bool {
    z@ == modl(r + e * w@)
}

/// Challenge `e` of a round with nonces `ra`, `rb`, `ro`, `rr` fails the
/// score test: the responses it determines score too high.
pub open spec fn decom_challenge_fails(
    prefix: Seq<u8>,
    wit: DecomWitness,
    ra: Seq<int>,
    rb: Seq<int>,
    ro: int,
    rr: int,
    e: int,
    b: int,
) -> bool {
    forall|za: Seq<Scalar>, zb: Seq<Scalar>, zo: Scalar, zr: Scalar|
        #![trigger responses_at(ra, wit.a@, e, za), responses_at(rb, wit.b@, e, zb), response_at(ro, wit.omega, e, zo), response_at(rr, wit.r, e, zr)]
        responses_at(ra, wit.a@, e, za) && responses_at(rb, wit.b@, e, zb) && response_at(ro, wit.omega, e, zo)
            && response_at(rr, wit.r, e, zr) ==> decom_score_of(prefix, e as u16, za, zb, zo, zr) >= pow2(
            (32 - b) as nat,
        )
}

/// The first-round commitment `t` of a round made from nonces `ra`, `rb`,
/// `ro`, `rr`.
pub open spec fn decom_first_commitment(stmt: DecomStatement, t: Point, ra: Seq<int>, rb: Seq<int>, ro: int, rr: int) -> bool {
    let m = stmt.pedvss@.len() as int;
    let ls = decom_fischlin_lambdas(stmt);
    &&& ra.len() == m
    &&& rb.len() == m
    &&& t@ == com_dlog(combined(ra, ls, ro, m), combined(rb, ls, rr, m))
}

/// An attempt can fail: for some first-round commitments of `rho` rounds, one
/// round made from nonces has no challenge below `cs` that passes under the
/// common hash.
pub open spec fn decom_attempt_can_fail(stmt: DecomStatement, wit: DecomWitness, rho: int, b: int, cs: int) -> bool {
    exists|ts: Seq<Point>, i: int, ra: Seq<int>, rb: Seq<int>, ro: int, rr: int|
        #![trigger decom_first_commitment(stmt, ts[i], ra, rb, ro, rr)]
        ts.len() == rho && 0 <= i < rho && decom_first_commitment(stmt, ts[i], ra, rb, ro, rr) && forall|e: int|
            0 <= e < cs ==> #[trigger] decom_challenge_fails(
                decom_score_prefix(decom_common_h(stmt, ts), i, ts[i]),
                wit,
                ra,
                rb,
                ro,
                rr,
                e,
                b,
            )
}

/// One attempt: fresh nonces for every round, then the challenge search.
#[verifier::spinoff_prover]
fn prove_attempt(
    statement: &DecomStatement,
    witness: &DecomWitness,
    lambdas: &Vec<Scalar>,
    rho: usize,
    b: usize,
    challenge_space: u32,
) -> (r: Option<DecomFischlinProof>)
    requires
        1 <= b <= 31,
        challenge_space <= 65536,
        statement.pedvss@.len() < usize::MAX,
        witness.a@.len() == statement.pedvss@.len(),
        witness.b@.len() == statement.pedvss@.len(),
        svals(lambdas@) == decom_fischlin_lambdas(*statement),
        lambdas@.len() == statement.pedvss@.len() + 1,
    ensures
        r matches Some(p) ==> {
            let rs = p.rounds@;
            let ch = decom_common_h(*statement, decom_round_ts(rs));
            &&& rs.len() == rho
            &&& forall|i: int|
                0 <= i < rho ==> {
                    &&& exists|ra: Seq<int>, rb: Seq<int>, ro: int, rr: int|
                        decom_round_least(*statement, *witness, ch, i, #[trigger] rs[i], ra, rb, ro, rr, b as int)
                    &&& rs[i].e < challenge_space
                    &&& decom_score_of(
                        decom_score_prefix(ch, i, rs[i].t),
                        rs[i].e,
                        rs[i].z_a@,
                        rs[i].z_b@,
                        rs[i].z_omega,
                        rs[i].z_r,
                    ) < pow2((32 - b) as nat)
                }
        },
        r is None ==> decom_attempt_can_fail(*statement, *witness, rho as int, b as int, challenge_space as int),
{
    let m = statement.pedvss.len();
    let ghost ls = svals(lambdas@);
    let mut ts: Vec<Point> = Vec::new();
    let mut ras: Vec<Vec<Scalar>> = Vec::new();
    let mut rbs: Vec<Vec<Scalar>> = Vec::new();
    let mut ros: Vec<Scalar> = Vec::new();
    let mut rrs: Vec<Scalar> = Vec::new();
    let mut i: usize = 0;
    while i < rho
        invariant
            i <= rho,
            m == statement.pedvss@.len(),
            lambdas@.len() == m + 1,
            ls == svals(lambdas@),
            ts@.len() == i,
            ras@.len() == i,
            rbs@.len() == i,
            ros@.len() == i,
            rrs@.len() == i,
            forall|q: int|
                0 <= q < i ==> {
                    &&& (#[trigger] ras@[q])@.len() == m
                    &&& rbs@[q]@.len() == m
                    &&& forall|k: int| 0 <= k < m ==> 0 <= #[trigger] ras@[q]@[k]@ < group_order()
                    &&& forall|k: int| 0 <= k < m ==> 0 <= #[trigger] rbs@[q]@[k]@ < group_order()
                    &&& 0 <= ros@[q]@ < group_order()
                    &&& 0 <= rrs@[q]@ < group_order()
                    &&& ts@[q]@ == com_dlog(
                        combined(svals(ras@[q]@), ls, ros@[q]@, m as int),
                        combined(svals(rbs@[q]@), ls, rrs@[q]@, m as int),
                    )
                },
        decreases rho - i,
    {
        let ra = sample_nonces(m);
        let rb = sample_nonces(m);
        let ro = Scalar::random();
        let rr = Scalar::random();
        let ga = combine(ra.as_slice(), lambdas.as_slice(), &ro);
        let gb = combine(rb.as_slice(), lambdas.as_slice(), &rr);
        let t = commit_point(&ga, &gb);
        let ghost rav = ra@;
        let ghost rbv = rb@;
        ts.push(t);
        ras.push(ra);
        rbs.push(rb);
        ros.push(ro);
        rrs.push(rr);
        proof {
            assert(ras@[i as int]@ == rav);
            assert(rbs@[i as int]@ == rbv);
        }
        i = i + 1;
    }
    assert(i == rho);
    let ch = hash_statement_and_first_messages(statement, ts.as_slice());
    let mut rounds: Vec<DecomFischlinRound> = Vec::new();
    let mut i: usize = 0;
    while i < rho
        invariant
            i <= rho,
            1 <= b <= 31,
            challenge_space <= 65536,
            m == statement.pedvss@.len(),
            witness.a@.len() == m,
            witness.b@.len() == m,
            lambdas@.len() == m + 1,
            ls == svals(lambdas@),
            ls == decom_fischlin_lambdas(*statement),
            ts@.len() == rho,
            ras@.len() == rho,
            rbs@.len() == rho,
            ros@.len() == rho,
            rrs@.len() == rho,
            ch@ == decom_common_h(*statement, ts@),
            rounds@.len() == i,
            forall|q: int|
                0 <= q < rho ==> {
                    &&& (#[trigger] ras@[q])@.len() == m
                    &&& rbs@[q]@.len() == m
                    &&& forall|k: int| 0 <= k < m ==> 0 <= #[trigger] ras@[q]@[k]@ < group_order()
                    &&& forall|k: int| 0 <= k < m ==> 0 <= #[trigger] rbs@[q]@[k]@ < group_order()
                    &&& 0 <= ros@[q]@ < group_order()
                    &&& 0 <= rrs@[q]@ < group_order()
                    &&& ts@[q]@ == com_dlog(
                        combined(svals(ras@[q]@), ls, ros@[q]@, m as int),
                        combined(svals(rbs@[q]@), ls, rrs@[q]@, m as int),
                    )
                },
            forall|q: int|
                0 <= q < i ==> {
                    &&& (#[trigger] rounds@[q]).t == ts@[q]
                    &&& exists|ra: Seq<int>, rb: Seq<int>, ro: int, rr: int|
                        decom_round_least(*statement, *witness, ch@, q, rounds@[q], ra, rb, ro, rr, b as int)
                    &&& rounds@[q].e < challenge_space
                    &&& decom_score_of(
                        decom_score_prefix(ch@, q, ts@[q]),
                        rounds@[q].e,
                        rounds@[q].z_a@,
                        rounds@[q].z_b@,
                        rounds@[q].z_omega,
                        rounds@[q].z_r,
                    ) < pow2((32 - b) as nat)
                },
        decreases rho - i,
    {
        let t = ts[i];
        let ghost ra0 = svals(ras@[i as int]@);
        let ghost rb0 = svals(rbs@[i as int]@);
        let ghost ro0 = ros@[i as int]@;
        let ghost rr0 = rrs@[i as int]@;
        let mut z_a = ras[i].clone();
        let mut z_b = rbs[i].clone();
        let mut z_omega = ros[i];
        let mut z_r = rrs[i];
        assert(z_a@ == ras@[i as int]@);
        assert(z_b@ == rbs@[i as int]@);
        proof {
            assert forall|k: int| 0 <= k < m implies (#[trigger] z_a@[k])@ == modl(ra0[k] + 0 * witness.a@[k]@) by {
                lemma_modl_bound(ra0[k]);
            }
            assert forall|k: int| 0 <= k < m implies (#[trigger] z_b@[k])@ == modl(rb0[k] + 0 * witness.b@[k]@) by {
                lemma_modl_bound(rb0[k]);
            }
            lemma_modl_bound(ro0);
            lemma_modl_bound(rr0);
        }
        let prefix = score_hasher_prefix(&ch, i, &t);
        let mut found: Option<u16> = None;
        let mut e: u32 = 0;
        while e < challenge_space
            invariant_except_break
                found is None,
            invariant
                e <= challenge_space,
                challenge_space <= 65536,
                1 <= b <= 31,
                m == statement.pedvss@.len(),
                witness.a@.len() == m,
                witness.b@.len() == m,
                ra0.len() == m,
                rb0.len() == m,
                z_a@.len() == m,
                z_b@.len() == m,
                prefix@ == decom_score_prefix(ch@, i as int, t),
                found is None ==> {
                    &&& (forall|k: int| 0 <= k < m ==> (#[trigger] z_a@[k])@ == modl(ra0[k] + e * witness.a@[k]@))
                    &&& (forall|k: int| 0 <= k < m ==> (#[trigger] z_b@[k])@ == modl(rb0[k] + e * witness.b@[k]@))
                    &&& z_omega@ == modl(ro0 + e * witness.omega@)
                    &&& z_r@ == modl(rr0 + e * witness.r@)
                },
                found matches Some(fe) ==> {
                    &&& fe == e
                    &&& fe < challenge_space
                    &&& (forall|k: int| 0 <= k < m ==> (#[trigger] z_a@[k])@ == modl(ra0[k] + fe * witness.a@[k]@))
                    &&& (forall|k: int| 0 <= k < m ==> (#[trigger] z_b@[k])@ == modl(rb0[k] + fe * witness.b@[k]@))
                    &&& z_omega@ == modl(ro0 + fe * witness.omega@)
                    &&& z_r@ == modl(rr0 + fe * witness.r@)
                    &&& decom_score_of(prefix@, fe, z_a@, z_b@, z_omega, z_r) < pow2((32 - b) as nat)
                },
                forall|e2: int|
                    0 <= e2 < e ==> #[trigger] decom_challenge_fails(prefix@, *witness, ra0, rb0, ro0, rr0, e2, b as int),
            ensures
                found is None ==> e >= challenge_space,
            decreases challenge_space - e,
        {
            let e16: u16 = e as u16;
            let score = fischlin_score_u32_from_prefix(prefix.as_slice(), e16, z_a.as_slice(), z_b.as_slice(), &z_omega, &z_r);
            if score_has_b_leading_zero_bits(score, b) {
                found = Some(e16);
                break;
            }
            proof {
                assert(responses_at(ra0, witness.a@, e as int, z_a@));
                assert(responses_at(rb0, witness.b@, e as int, z_b@));
                assert forall|za: Seq<Scalar>, zb: Seq<Scalar>, zo: Scalar, zr: Scalar|
                    responses_at(ra0, witness.a@, e as int, za) && responses_at(rb0, witness.b@, e as int, zb)
                        && response_at(ro0, witness.omega, e as int, zo) && response_at(rr0, witness.r, e as int, zr)
                    implies decom_score_of(prefix@, (e as int) as u16, za, zb, zo, zr) >= pow2((32 - b) as nat) by {
                    lemma_responses_unique(ra0, witness.a@, e as int, za, z_a@);
                    lemma_responses_unique(rb0, witness.b@, e as int, zb, z_b@);
                    Scalar::lemma_value_determines(zo, z_omega);
                    Scalar::lemma_value_determines(zr, z_r);
                }
                assert(decom_challenge_fails(prefix@, *witness, ra0, rb0, ro0, rr0, e as int, b as int));
            }
            advance(&mut z_a, witness.a.as_slice(), Ghost(ra0), Ghost(e as int));
            advance(&mut z_b, witness.b.as_slice(), Ghost(rb0), Ghost(e as int));
            let ghost po = z_omega@;
            let ghost pr = z_r@;
            z_omega = z_omega.add(&witness.omega);
            z_r = z_r.add(&witness.r);
            proof {
                let w = witness.omega@;
                lemma_modl_add(ro0 + e * w, w);
                assert(ro0 + e * w + w == ro0 + (e + 1) * w) by (nonlinear_arith);
                let v = witness.r@;
                lemma_modl_add(rr0 + e * v, v);
                assert(rr0 + e * v + v == rr0 + (e + 1) * v) by (nonlinear_arith);
            }
            e = e + 1;
        }
        match found {
            Some(fe) => {
                let round = DecomFischlinRound { t, e: fe, z_a, z_b, z_omega, z_r };
                assert(decom_round_opens(*statement, *witness, round, ra0, rb0, ro0, rr0));
                let ghost rg = round;
                rounds.push(round);
                proof {
                    assert(rounds@[i as int] == rg);
                    assert(decom_round_opens(*statement, *witness, rounds@[i as int], ra0, rb0, ro0, rr0));
                    assert(decom_round_least(*statement, *witness, ch@, i as int, rounds@[i as int], ra0, rb0, ro0, rr0, b as int));
                }
            },
            None => {
                proof {
                    assert(decom_first_commitment(*statement, ts@[i as int], ra0, rb0, ro0, rr0));
                    assert(forall|e2: int|
                        0 <= e2 < challenge_space ==> #[trigger] decom_challenge_fails(
                            decom_score_prefix(decom_common_h(*statement, ts@), i as int, ts@[i as int]),
                            *witness,
                            ra0,
                            rb0,
                            ro0,
                            rr0,
                            e2,
                            b as int,
                        ));
                }
                return None;
            },
        }
        i = i + 1;
    }
    let proof = DecomFischlinProof { rounds };
    proof {
        assert(decom_round_ts(proof.rounds@) =~= ts@);
    }
    Some(proof)
}

/// Proves the decommitment with `rho` rounds, `b` zero bits and challenges
/// of `t_bits` bits. Attempts repeat until one succeeds; `None` comes back
/// only after `u64::MAX` failed attempts.
pub fn prove_fischlin_with_params(
    statement: &DecomStatement,
    witness: &DecomWitness,
    rho: usize,
    b: usize,
    t_bits: usize,
) -> (r: Option<DecomFischlinProof>)
    requires
        rho > 0,
        1 <= b <= 31,
        1 <= t_bits <= 15,
        b <= t_bits,
        statement.pedvss@.len() > 0,
        statement.pedvss@.len() < usize::MAX,
        witness.a@.len() == statement.pedvss@.len(),
        witness.b@.len() == statement.pedvss@.len(),
    ensures
        r matches Some(p) ==> decom_fischlin_honest(
            *statement,
            *witness,
            p,
            rho as int,
            b as int,
            t_bits as int,
        ),
        r is None ==> decom_attempt_can_fail(*statement, *witness, rho as int, b as int, pow2(t_bits as nat) as int),
{
    let cs = crate::one_round_proofs::polyproof_fischlin::challenge_space_size(t_bits);
    let lambdas = derive_lambdas(statement);
    let mut attempt: u64 = 0;
    while attempt < u64::MAX
        invariant
            attempt > 0 ==> decom_attempt_can_fail(*statement, *witness, rho as int, b as int, cs as int),
            cs == pow2(t_bits as nat),
            cs <= 32768,
            1 <= b <= 31,
            statement.pedvss@.len() < usize::MAX,
            witness.a@.len() == statement.pedvss@.len(),
            witness.b@.len() == statement.pedvss@.len(),
            svals(lambdas@) == decom_fischlin_lambdas(*statement),
            lambdas@.len() == statement.pedvss@.len() + 1,
        decreases u64::MAX - attempt,
    {
        if let Some(p) = prove_attempt(statement, witness, &lambdas, rho, b, cs) {
            return Some(p);
        }
        attempt = attempt + 1;
    }
    None
}

/// The Fischlin decommitment proof as a [`DecomProofScheme`].
#[derive(Clone, Copy, Debug)]
pub struct FischlinDecomScheme;

impl DecomProofScheme for FischlinDecomScheme {
    type Statement = DecomStatement;
    type Witness = DecomWitness;
    type Proof = DecomFischlinProof;
    type Params = FischlinDecomProofParams;

    open spec fn prove_requires(params: &FischlinDecomProofParams, statement: &DecomStatement, witness: &DecomWitness) -> bool {
        &&& params.rho > 0
        &&& 1 <= params.b <= 31
        &&& 1 <= params.t_bits <= 15
        &&& params.b <= params.t_bits
        &&& statement.pedvss@.len() > 0
        &&& statement.pedvss@.len() < usize::MAX
        &&& witness.a@.len() == statement.pedvss@.len()
        &&& witness.b@.len() == statement.pedvss@.len()
    }

    open spec fn proof_honest(params: &FischlinDecomProofParams, statement: &DecomStatement, witness: &DecomWitness, proof: &DecomFischlinProof) -> bool {
        decom_fischlin_honest(*statement, *witness, *proof, params.rho as int, params.b as int, params.t_bits as int)
    }

    open spec fn proof_valid(params: &FischlinDecomProofParams, statement: &DecomStatement, proof: &DecomFischlinProof) -> bool {
        decom_fischlin_valid(*statement, *proof, params.rho as int, params.b as int, params.t_bits as int)
    }

    open spec fn prove_fails(params: &FischlinDecomProofParams, statement: &DecomStatement, witness: &DecomWitness) -> bool {
        decom_attempt_can_fail(*statement, *witness, params.rho as int, params.b as int, pow2(params.t_bits as nat) as int)
    }

    fn prove(params: &FischlinDecomProofParams, statement: &DecomStatement, witness: &DecomWitness) -> (r: Option<DecomFischlinProof>) {
        prove_fischlin_with_params(statement, witness, params.rho, params.b, params.t_bits)
    }

    fn verify(params: &FischlinDecomProofParams, statement: &DecomStatement, proof: &DecomFischlinProof) -> (r: bool) {
        verify_fischlin_with_params(statement, proof, params.rho, params.b, params.t_bits)
    }
}

} // verus!
