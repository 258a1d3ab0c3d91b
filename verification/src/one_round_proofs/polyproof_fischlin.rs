//! Fischlin-transformed proof of polynomial well-formedness: `rho` parallel
//! Sigma rounds, each with a small challenge `e` that the prover searches for
//! until a hash of the round has `b` leading zero bits. The Sigma equations of
//! all rounds are checked at once through the rank-1 fold.

use crate::arith::{group_order, lemma_modl_add, lemma_modl_bound, modl};
use crate::bytes::{push_bytes, push_u64, sha512, sha512_spec, u64_le};
use crate::codec::{
    commitments_bytes, points_bytes, push_commitments, push_points, push_scalars, scalars_bytes,
};
use crate::group::{dlogs, svals, Point};
use crate::one_round_proofs::polyproof_schnorr::{PolyWellFormedStatement, PolyWellFormedWitness};
use crate::one_round_proofs::utils::{
    append_points, append_scalars, append_statement_to_transcript, batched_point_check_rank1,
    point_ops, rank1_check, scalar_ops, statement_ops, RoundData, RoundView,
};
use crate::one_round_proofs::PolyProofScheme;
use crate::pedersen::{com_dlog, commit_point, commit_points};
use crate::poly::{eval_poly_at, poly_eval};
use crate::scalar::Scalar;
use crate::transcript::{
    append_u64, indexed_challenges, indexed_history, indexed_values, new_transcript, op_append,
    op_init, transcript_contents, TranscriptOp,
};
use vstd::arithmetic::power2::pow2;
use vstd::prelude::*;
use vstd::string::StringSliceAdditionalSpecFns;

verus! {

/// One round: the first-round commitments `T_0..T_n`, the challenge found by
/// the search, and the responses.
#[derive(Clone)]
pub struct PolyWellFormedFischlinRound {
    pub t_commitments: Vec<Point>,
    pub e: u16,
    pub z_coeffs: Vec<Scalar>,
    pub z_blindings: Vec<Scalar>,
}

/// A Fischlin proof: `rho` rounds.
#[derive(Clone)]
pub struct PolyWellFormedFischlinProof {
    pub rounds: Vec<PolyWellFormedFischlinRound>,
}

/// The first-round commitments of each round.
pub open spec fn round_ts(rs: Seq<PolyWellFormedFischlinRound>) -> Seq<Seq<Point>> {
    rs.map_values(|r: PolyWellFormedFischlinRound| r.t_commitments@)
}

/// The element sequences held in a slice of vectors.
pub open spec fn vec_views(vs: Seq<Vec<Point>>) -> Seq<Seq<Point>> {
    vs.map_values(|v: Vec<Point>| v@)
}

/// The bytes of a statement that open the common hash.
pub open spec fn statement_hash_bytes(stmt: PolyWellFormedStatement) -> Seq<u8> {
    "poly-well-formedness-fischlin-common-h-v1".spec_bytes() + u64_le(stmt.degree as u64) + u64_le(
        stmt.x_points@.len() as u64,
    ) + scalars_bytes(stmt.x_points@) + stmt.f0_commitment.enc() + u64_le(
        stmt.commitments@.len() as u64,
    ) + commitments_bytes(stmt.commitments@)
}

/// Each round's first-round commitments, prefixed by their number.
pub open spec fn rounds_bytes(rs: Seq<Seq<Point>>) -> Seq<u8>
    decreases rs.len(),
{
    if rs.len() == 0 {
        Seq::empty()
    } else {
        rounds_bytes(rs.drop_last()) + u64_le(rs.last().len() as u64) + points_bytes(rs.last())
    }
}

/// Everything the common hash binds.
pub open spec fn common_h_input(stmt: PolyWellFormedStatement, rs: Seq<Seq<Point>>) -> Seq<u8> {
    statement_hash_bytes(stmt) + u64_le(rs.len() as u64) + rounds_bytes(rs)
}

/// The bytes that open the score hash of round `i`.
pub open spec fn score_prefix_bytes(ch: Seq<u8>, i: int, ts: Seq<Point>) -> Seq<u8> {
    "poly-well-formedness-fischlin-score-v1".spec_bytes() + ch + u64_le(i as u64) + u64_le(
        ts.len() as u64,
    ) + points_bytes(ts)
}

/// The bytes of a round's challenge and responses that close the score hash.
pub open spec fn score_tail_bytes(e: u16, zc: Seq<Scalar>, zb: Seq<Scalar>) -> Seq<u8> {
    u64_le(e as u64) + u64_le(zc.len() as u64) + scalars_bytes(zc) + u64_le(zb.len() as u64)
        + scalars_bytes(zb)
}

/// The first four bytes of a digest as a little-endian integer.
pub open spec fn digest_u32(d: Seq<u8>) -> int {
    d[0] + 256 * d[1] + 65536 * d[2] + 16777216 * d[3]
}

/// The score of a round, given the bytes that open its hash.
pub open spec fn score_of(prefix: Seq<u8>, e: u16, zc: Seq<Scalar>, zb: Seq<Scalar>) -> int {
    digest_u32(sha512_spec(prefix + score_tail_bytes(e, zc, zb)))
}

/// The statement's part of the common hash input, which every common hash
/// starts with.
fn statement_common_h_prefix(statement: &PolyWellFormedStatement) -> (r: Vec<u8>)
    ensures
        r@ == statement_hash_bytes(*statement),
{
    let mut buf: Vec<u8> = Vec::new();
    let label = "poly-well-formedness-fischlin-common-h-v1";
    push_bytes(&mut buf, label.as_bytes());
    push_u64(&mut buf, statement.degree as u64);
    push_u64(&mut buf, statement.x_points.len() as u64);
    push_scalars(&mut buf, statement.x_points.as_slice());
    let f0 = statement.f0_commitment.to_bytes();
    push_bytes(&mut buf, &f0);
    push_u64(&mut buf, statement.commitments.len() as u64);
    push_commitments(&mut buf, statement.commitments.as_slice());
    assert(buf@ =~= statement_hash_bytes(*statement));
    buf
}

/// Hash binding the statement and every round's first-round commitments.
pub fn common_h(statement: &PolyWellFormedStatement, per_round: &[Vec<Point>]) -> (r: [u8; 64])
    ensures
        r@ == sha512_spec(common_h_input(*statement, vec_views(per_round@))),
{
    let mut buf = statement_common_h_prefix(statement);
    push_u64(&mut buf, per_round.len() as u64);
    let ghost pre = buf@;
    let ghost rs = vec_views(per_round@);
    let mut i: usize = 0;
    while i < per_round.len()
        invariant
            i <= per_round@.len(),
            rs == vec_views(per_round@),
            buf@ == pre + rounds_bytes(rs.subrange(0, i as int)),
        decreases per_round@.len() - i,
    {
        push_u64(&mut buf, per_round[i].len() as u64);
        push_points(&mut buf, per_round[i].as_slice());
        proof {
            let s = rs.subrange(0, i + 1);
            assert(s.drop_last() =~= rs.subrange(0, i as int));
            assert(s.last() == per_round@[i as int]@);
            assert(buf@ =~= pre + rounds_bytes(s));
        }
        i = i + 1;
    }
    assert(rs.subrange(0, rs.len() as int) =~= rs);
    assert(buf@ =~= common_h_input(*statement, rs));
    sha512(buf.as_slice())
}

/// The bytes that open the score hash of round `round_index`; a round's score
/// hashes these followed by its challenge and responses.
pub fn score_hasher_prefix(common_h: &[u8; 64], round_index: usize, t_commitments: &[Point]) -> (r:
    Vec<u8>)
    ensures
        r@ == score_prefix_bytes(common_h@, round_index as int, t_commitments@),
{
    let mut buf: Vec<u8> = Vec::new();
    let label = "poly-well-formedness-fischlin-score-v1";
    push_bytes(&mut buf, label.as_bytes());
    push_bytes(&mut buf, common_h);
    push_u64(&mut buf, round_index as u64);
    push_u64(&mut buf, t_commitments.len() as u64);
    push_points(&mut buf, t_commitments);
    assert(buf@ =~= score_prefix_bytes(common_h@, round_index as int, t_commitments@));
    buf
}

/// The score of a round: the first four bytes of the hash, little-endian.
pub fn fischlin_score_u32_from_prefix(base: &[u8], e: u16, z_coeffs: &[Scalar], z_blindings: &[Scalar]) -> (r: u32)
    ensures
        r == score_of(base@, e, z_coeffs@, z_blindings@),
{
    let mut buf: Vec<u8> = Vec::new();
    push_bytes(&mut buf, base);
    push_u64(&mut buf, e as u64);
    push_u64(&mut buf, z_coeffs.len() as u64);
    push_scalars(&mut buf, z_coeffs);
    push_u64(&mut buf, z_blindings.len() as u64);
    push_scalars(&mut buf, z_blindings);
    assert(buf@ =~= base@ + score_tail_bytes(e, z_coeffs@, z_blindings@));
    let d = sha512(buf.as_slice());
    (d[0] as u32) + (d[1] as u32) * 256 + (d[2] as u32) * 65536 + (d[3] as u32) * 16777216
}

/// The score of round `round_index`.
pub fn fischlin_score_u32(
    common_h: &[u8; 64],
    round_index: usize,
    t_commitments: &[Point],
    e: u16,
    z_coeffs: &[Scalar],
    z_blindings: &[Scalar],
) -> (r: u32)
    ensures
        r == score_of(
            score_prefix_bytes(common_h@, round_index as int, t_commitments@),
            e,
            z_coeffs@,
            z_blindings@,
        ),
{
    let base = score_hasher_prefix(common_h, round_index, t_commitments);
    fischlin_score_u32_from_prefix(base.as_slice(), e, z_coeffs, z_blindings)
}

/// Whether the top `b` bits of the 32-bit score are zero.
pub fn score_has_b_leading_zero_bits(score: u32, b: usize) -> (r: bool)
    requires
        1 <= b <= 31,
    ensures
        r == (score < pow2((32 - b) as nat)),
{
    let shift: u32 = (32 - b) as u32;
    let r = (score >> shift) == 0;
    proof {
        vstd::bits::lemma_u32_shr_is_div(score, shift);
        vstd::arithmetic::power2::lemma_pow2_pos(shift as nat);
        if score < pow2(shift as nat) {
            vstd::arithmetic::div_mod::lemma_basic_div(score as int, pow2(shift as nat) as int);
        } else {
            vstd::arithmetic::div_mod::lemma_div_non_zero(score as int, pow2(shift as nat) as int);
        }
    }
    r
}

/// A fresh nonce.
pub fn sample_scalar() -> (r: Scalar)
    ensures
        0 <= r@ < group_order(),
{
    Scalar::random()
}

/// The nonces behind a round: `T_0 = g^{r_0}`, `T_j = g^{f_r(x_j)} h^{s_j}`,
/// and responses `z = r + e * witness`.
pub open spec fn round_opens(
    stmt: PolyWellFormedStatement,
    wit: PolyWellFormedWitness,
    round: PolyWellFormedFischlinRound,
    rc: Seq<int>,
    rb: Seq<int>,
) -> bool {
    let n = stmt.x_points@.len();
    &&& rc.len() == stmt.degree + 1
    &&& rb.len() == n
    &&& round.t_commitments@.len() == n + 1
    &&& round.z_coeffs@.len() == stmt.degree + 1
    &&& round.z_blindings@.len() == n
    &&& round.t_commitments@[0]@ == modl(rc[0])
    &&& forall|j: int|
        0 <= j < n ==> (#[trigger] round.t_commitments@[j + 1])@ == com_dlog(
            poly_eval(rc, stmt.x_points@[j]@),
            rb[j],
        )
    &&& forall|k: int|
        0 <= k <= stmt.degree ==> (#[trigger] round.z_coeffs@[k])@ == modl(
            rc[k] + round.e * wit.coeffs@[k]@,
        )
    &&& forall|j: int|
        0 <= j < n ==> (#[trigger] round.z_blindings@[j])@ == modl(
            rb[j] + round.e * wit.blindings@[j]@,
        )
}

/// A round opens from nonces `rc`, `rb`, and every challenge below its own
/// fails the score test: its challenge is the least that passes.
pub open spec fn round_least(
    stmt: PolyWellFormedStatement,
    wit: PolyWellFormedWitness,
    ch: Seq<u8>,
    i: int,
    round: PolyWellFormedFischlinRound,
    rc: Seq<int>,
    rb: Seq<int>,
    b: int,
) -> bool {
    &&& round_opens(stmt, wit, round, rc, rb)
    &&& forall|e: int|
        0 <= e < round.e ==> #[trigger] challenge_fails(
            score_prefix_bytes(ch, i, round.t_commitments@),
            wit,
            rc,
            rb,
            e,
            b,
        )
}

/// What the prover guarantees of each round it returns: it opens from some
/// nonces, its challenge lies in the challenge space, its score passes, and
/// no smaller challenge passes.
pub open spec fn round_honest(
    stmt: PolyWellFormedStatement,
    wit: PolyWellFormedWitness,
    ch: Seq<u8>,
    i: int,
    round: PolyWellFormedFischlinRound,
    b: int,
    t_bits: int,
) -> bool {
    &&& exists|rc: Seq<int>, rb: Seq<int>| round_least(stmt, wit, ch, i, round, rc, rb, b)
    &&& round.e < pow2(t_bits as nat)
    &&& score_of(
        score_prefix_bytes(ch, i, round.t_commitments@),
        round.e,
        round.z_coeffs@,
        round.z_blindings@,
    ) < pow2((32 - b) as nat)
}

/// An honestly made proof: `rho` rounds, each honest under the common hash of
/// all first-round commitments.
pub open spec fn fischlin_honest(
    stmt: PolyWellFormedStatement,
    wit: PolyWellFormedWitness,
    proof: PolyWellFormedFischlinProof,
    rho: int,
    b: int,
    t_bits: int,
) -> bool {
    let rs = proof.rounds@;
    let ch = sha512_spec(common_h_input(stmt, round_ts(rs)));
    &&& rs.len() == rho
    &&& forall|i: int| 0 <= i < rho ==> round_honest(stmt, wit, ch, i, #[trigger] rs[i], b, t_bits)
}

/// The first-round commitments of one round, from its nonces.
fn round_first_commitments(statement: &PolyWellFormedStatement, r_coeffs: &[Scalar], r_blindings: &[Scalar]) -> (r: Vec<Point>)
    requires
        r_coeffs@.len() >= 1,
        r_blindings@.len() == statement.x_points@.len(),
    ensures
        r@.len() == statement.x_points@.len() + 1,
        r@[0]@ == modl(r_coeffs@[0]@),
        forall|j: int|
            0 <= j < statement.x_points@.len() ==> (#[trigger] r@[j + 1])@ == com_dlog(
                poly_eval(svals(r_coeffs@), statement.x_points@[j]@),
                r_blindings@[j]@,
            ),
{
    let n = statement.x_points.len();
    let mut es: Vec<Scalar> = Vec::new();
    let mut j: usize = 0;
    while j < n
        invariant
            j <= n,
            n == statement.x_points@.len(),
            es@.len() == j,
            forall|q: int| 0 <= q < j ==> (#[trigger] es@[q])@ == poly_eval(svals(r_coeffs@), statement.x_points@[q]@),
        decreases n - j,
    {
        es.push(eval_poly_at(r_coeffs, statement.x_points[j]));
        j = j + 1;
    }
    let cs = commit_points(es.as_slice(), r_blindings);
    let mut t: Vec<Point> = Vec::new();
    t.push(Point::basepoint_mul(&r_coeffs[0]));
    let mut j: usize = 0;
    while j < n
        invariant
            j <= n,
            n == statement.x_points@.len(),
            cs@.len() == n,
            es@.len() == n,
            r_blindings@.len() == n,
            forall|q: int| 0 <= q < n ==> (#[trigger] es@[q])@ == poly_eval(svals(r_coeffs@), statement.x_points@[q]@),
            forall|q: int| 0 <= q < n ==> (#[trigger] cs@[q])@ == com_dlog(es@[q]@, r_blindings@[q]@),
            t@.len() == j + 1,
            t@[0]@ == modl(r_coeffs@[0]@),
            forall|q: int|
                0 <= q < j ==> (#[trigger] t@[q + 1])@ == com_dlog(
                    poly_eval(svals(r_coeffs@), statement.x_points@[q]@),
                    r_blindings@[q]@,
                ),
        decreases n - j,
    {
        t.push(cs[j]);
        j = j + 1;
    }
    t
}

/// The responses `z_k = r_k + e w_k` at challenge `e`, as scalars.
pub open spec fn responses_at(r: Seq<int>, w: Seq<Scalar>, e: int, z: Seq<Scalar>) -> bool {
    &&& z.len() == r.len()
    &&& forall|k: int| 0 <= k < z.len() ==> (#[trigger] z[k])@ == modl(r[k] + e * w[k]@)
}

/// Challenge `e` of a round with nonces `rc`, `rb` fails the score test: the
/// responses it determines score too high.
pub open spec fn challenge_fails(
    prefix: Seq<u8>,
    wit: PolyWellFormedWitness,
    rc: Seq<int>,
    rb: Seq<int>,
    e: int,
    b: int,
) -> bool {
    forall|zc: Seq<Scalar>, zb: Seq<Scalar>|
        #![trigger responses_at(rc, wit.coeffs@, e, zc), responses_at(rb, wit.blindings@, e, zb)]
        responses_at(rc, wit.coeffs@, e, zc) && responses_at(rb, wit.blindings@, e, zb) ==> score_of(
            prefix,
            e as u16,
            zc,
            zb,
        ) >= pow2((32 - b) as nat)
}

/// The responses at a challenge are determined by it.
pub(crate) proof fn lemma_responses_unique(r: Seq<int>, w: Seq<Scalar>, e: int, z1: Seq<Scalar>, z2: Seq<Scalar>)
    requires
        responses_at(r, w, e, z1),
        responses_at(r, w, e, z2),
    ensures
        z1 == z2,
{
    assert forall|k: int| 0 <= k < z1.len() implies z1[k] == z2[k] by {
        Scalar::lemma_value_determines(z1[k], z2[k]);
    }
    assert(z1 =~= z2);
}

/// Searches the challenge space for a challenge whose score passes; `None`
/// when none does.
fn search_round(
    statement: &PolyWellFormedStatement,
    witness: &PolyWellFormedWitness,
    ch: &[u8; 64],
    i: usize,
    t_commitments: Vec<Point>,
    r_coeffs: Vec<Scalar>,
    r_blindings: Vec<Scalar>,
    b: usize,
    challenge_space: u32,
) -> (r: Option<PolyWellFormedFischlinRound>)
    requires
        1 <= b <= 31,
        challenge_space <= 65536,
        r_coeffs@.len() == statement.degree + 1,
        r_blindings@.len() == statement.x_points@.len(),
        forall|k: int| 0 <= k < r_coeffs@.len() ==> 0 <= #[trigger] r_coeffs@[k]@ < group_order(),
        forall|k: int| 0 <= k < r_blindings@.len() ==> 0 <= #[trigger] r_blindings@[k]@ < group_order(),
        witness.coeffs@.len() == statement.degree + 1,
        witness.blindings@.len() == statement.x_points@.len(),
        t_commitments@.len() == statement.x_points@.len() + 1,
        t_commitments@[0]@ == modl(r_coeffs@[0]@),
        forall|j: int|
            0 <= j < statement.x_points@.len() ==> (#[trigger] t_commitments@[j + 1])@
                == com_dlog(
                poly_eval(svals(r_coeffs@), statement.x_points@[j]@),
                r_blindings@[j]@,
            ),
    ensures
        r matches Some(round) ==> {
            &&& round.t_commitments@ == t_commitments@
            &&& round_opens(*statement, *witness, round, svals(r_coeffs@), svals(r_blindings@))
            &&& round.e < challenge_space
            &&& score_of(
                score_prefix_bytes(ch@, i as int, t_commitments@),
                round.e,
                round.z_coeffs@,
                round.z_blindings@,
            ) < pow2((32 - b) as nat)
            &&& forall|e: int|
                0 <= e < round.e ==> #[trigger] challenge_fails(
                    score_prefix_bytes(ch@, i as int, t_commitments@),
                    *witness,
                    svals(r_coeffs@),
                    svals(r_blindings@),
                    e,
                    b as int,
                )
        },
        r is None ==> forall|e: int|
            0 <= e < challenge_space ==> #[trigger] challenge_fails(
                score_prefix_bytes(ch@, i as int, t_commitments@),
                *witness,
                svals(r_coeffs@),
                svals(r_blindings@),
                e,
                b as int,
            ),
{
    let n = statement.x_points.len();
    let m = r_coeffs.len();
    let ghost rc = svals(r_coeffs@);
    let ghost rb = svals(r_blindings@);
    let prefix = score_hasher_prefix(ch, i, t_commitments.as_slice());
    let z_coeffs_init = r_coeffs.clone();
    let z_blindings_init = r_blindings.clone();
    let mut z_coeffs = z_coeffs_init;
    let mut z_blindings = z_blindings_init;
    proof {
        assert forall|k: int| 0 <= k < m implies (#[trigger] z_coeffs@[k])@ == modl(rc[k] + 0 * witness.coeffs@[k]@) by {
            assert(rc[k] == r_coeffs@[k]@);
            lemma_modl_bound(rc[k]);
        }
        assert forall|k: int| 0 <= k < n implies (#[trigger] z_blindings@[k])@ == modl(rb[k] + 0 * witness.blindings@[k]@) by {
            assert(rb[k] == r_blindings@[k]@);
            lemma_modl_bound(rb[k]);
        }
    }
    let mut e: u32 = 0;
    while e < challenge_space
        invariant
            e <= challenge_space,
            challenge_space <= 65536,
            1 <= b <= 31,
            n == statement.x_points@.len(),
            m == statement.degree + 1,
            z_coeffs@.len() == m,
            z_blindings@.len() == n,
            witness.coeffs@.len() == m,
            witness.blindings@.len() == n,
            prefix@ == score_prefix_bytes(ch@, i as int, t_commitments@),
            rc == svals(r_coeffs@),
            rb == svals(r_blindings@),
            rc.len() == m,
            rb.len() == n,
            t_commitments@.len() == n + 1,
            t_commitments@[0]@ == modl(rc[0]),
            forall|j: int|
                0 <= j < n ==> (#[trigger] t_commitments@[j + 1])@ == com_dlog(
                    poly_eval(rc, statement.x_points@[j]@),
                    rb[j],
                ),
            forall|k: int|
                0 <= k < m ==> (#[trigger] z_coeffs@[k])@ == modl(rc[k] + e * witness.coeffs@[k]@),
            forall|k: int|
                0 <= k < n ==> (#[trigger] z_blindings@[k])@ == modl(
                    rb[k] + e * witness.blindings@[k]@,
                ),
            forall|e2: int| 0 <= e2 < e ==> #[trigger] challenge_fails(prefix@, *witness, rc, rb, e2, b as int),
        decreases challenge_space - e,
    {
        let e16: u16 = e as u16;
        let score = fischlin_score_u32_from_prefix(prefix.as_slice(), e16, z_coeffs.as_slice(), z_blindings.as_slice());
        proof {
            assert(responses_at(rc, witness.coeffs@, e as int, z_coeffs@));
            assert(responses_at(rb, witness.blindings@, e as int, z_blindings@));
            if score >= pow2((32 - b) as nat) {
                assert forall|zc: Seq<Scalar>, zb: Seq<Scalar>|
                    responses_at(rc, witness.coeffs@, e as int, zc) && responses_at(rb, witness.blindings@, e as int, zb)
                    implies score_of(prefix@, (e as int) as u16, zc, zb) >= pow2((32 - b) as nat) by {
                    lemma_responses_unique(rc, witness.coeffs@, e as int, zc, z_coeffs@);
                    lemma_responses_unique(rb, witness.blindings@, e as int, zb, z_blindings@);
                }
                assert(challenge_fails(prefix@, *witness, rc, rb, e as int, b as int));
            }
        }
        if score_has_b_leading_zero_bits(score, b) {
            let round = PolyWellFormedFischlinRound {
                t_commitments,
                e: e16,
                z_coeffs,
                z_blindings,
            };
            assert(round_opens(*statement, *witness, round, rc, rb));
            return Some(round);
        }
        let mut k: usize = 0;
        while k < m
            invariant
                k <= m,
                z_coeffs@.len() == m,
                witness.coeffs@.len() == m,
                forall|q: int|
                    0 <= q < k ==> (#[trigger] z_coeffs@[q])@ == modl(
                        rc[q] + (e + 1) * witness.coeffs@[q]@,
                    ),
                forall|q: int|
                    k <= q < m ==> (#[trigger] z_coeffs@[q])@ == modl(rc[q] + e * witness.coeffs@[q]@),
            decreases m - k,
        {
            let v = z_coeffs[k].add(&witness.coeffs[k]);
            proof {
                let a = witness.coeffs@[k as int]@;
                lemma_modl_add(rc[k as int] + e * a, a);
                assert(rc[k as int] + e * a + a == rc[k as int] + (e + 1) * a) by (nonlinear_arith);
            }
            z_coeffs.set(k, v);
            k = k + 1;
        }
        let mut k: usize = 0;
        while k < n
            invariant
                k <= n,
                z_blindings@.len() == n,
                witness.blindings@.len() == n,
                forall|q: int|
                    0 <= q < k ==> (#[trigger] z_blindings@[q])@ == modl(
                        rb[q] + (e + 1) * witness.blindings@[q]@,
                    ),
                forall|q: int|
                    k <= q < n ==> (#[trigger] z_blindings@[q])@ == modl(
                        rb[q] + e * witness.blindings@[q]@,
                    ),
            decreases n - k,
        {
            let v = z_blindings[k].add(&witness.blindings[k]);
            proof {
                let w = witness.blindings@[k as int]@;
                lemma_modl_add(rb[k as int] + e * w, w);
                assert(rb[k as int] + e * w + w == rb[k as int] + (e + 1) * w) by (nonlinear_arith);
            }
            z_blindings.set(k, v);
            k = k + 1;
        }
        e = e + 1;
    }
    None
}

/// `2^t_bits`, the size of the challenge space.
pub(crate) fn challenge_space_size(t_bits: usize) -> (r: u32)
    requires
        t_bits <= 15,
    ensures
        r == pow2(t_bits as nat),
        r <= 32768,
{
    let mut r: u32 = 1;
    let mut k: usize = 0;
    proof {
        vstd::arithmetic::power2::lemma2_to64();
    }
    while k < t_bits
        invariant
            k <= t_bits,
            t_bits <= 15,
            r == pow2(k as nat),
            pow2(15) == 32768,
        decreases t_bits - k,
    {
        proof {
            vstd::arithmetic::power2::lemma_pow2_unfold((k + 1) as nat);
            if k + 1 < 15 {
                vstd::arithmetic::power2::lemma_pow2_strictly_increases((k + 1) as nat, 15);
            }
        }
        r = r * 2;
        k = k + 1;
    }
    proof {
        if t_bits < 15 {
            vstd::arithmetic::power2::lemma_pow2_strictly_increases(t_bits as nat, 15);
        }
    }
    r
}

/// First-round commitments `t` of a round made from nonces `rc`, `rb`.
pub open spec fn first_commitments(stmt: PolyWellFormedStatement, t: Seq<Point>, rc: Seq<int>, rb: Seq<int>) -> bool {
    let n = stmt.x_points@.len();
    &&& rc.len() == stmt.degree + 1
    &&& rb.len() == n
    &&& t.len() == n + 1
    &&& t[0]@ == modl(rc[0])
    &&& forall|j: int| 0 <= j < n ==> (#[trigger] t[j + 1])@ == com_dlog(poly_eval(rc, stmt.x_points@[j]@), rb[j])
}

/// An attempt can fail: for some first-round commitments of `rho` rounds, one
/// round made from nonces `rc`, `rb` has no challenge below `cs` that passes
/// under the common hash of all the commitments.
pub open spec fn attempt_can_fail(stmt: PolyWellFormedStatement, wit: PolyWellFormedWitness, rho: int, b: int, cs: int) -> bool {
    exists|ts: Seq<Seq<Point>>, i: int, rc: Seq<int>, rb: Seq<int>|
        #![trigger first_commitments(stmt, ts[i], rc, rb)]
        ts.len() == rho && 0 <= i < rho && first_commitments(stmt, ts[i], rc, rb) && forall|e: int|
            0 <= e < cs ==> #[trigger] challenge_fails(
                score_prefix_bytes(sha512_spec(common_h_input(stmt, ts)), i, ts[i]),
                wit,
                rc,
                rb,
                e,
                b,
            )
}

/// One attempt: fresh nonces for every round, then the challenge search in
/// each; `None` when some round finds no passing challenge.
#[verifier::spinoff_prover]
fn prove_attempt(
    statement: &PolyWellFormedStatement,
    witness: &PolyWellFormedWitness,
    rho: usize,
    b: usize,
    challenge_space: u32,
) -> (r: Option<PolyWellFormedFischlinProof>)
    requires
        1 <= b <= 31,
        challenge_space <= 65536,
        statement.commitments@.len() == statement.x_points@.len(),
        witness.blindings@.len() == statement.x_points@.len(),
        witness.coeffs@.len() == statement.degree + 1,
    ensures
        r matches Some(p) ==> {
            let rs = p.rounds@;
            let ch = sha512_spec(common_h_input(*statement, round_ts(rs)));
            &&& rs.len() == rho
            &&& forall|i: int|
                0 <= i < rho ==> {
                    &&& exists|rc: Seq<int>, rb: Seq<int>|
                        round_least(*statement, *witness, ch, i, #[trigger] rs[i], rc, rb, b as int)
                    &&& rs[i].e < challenge_space
                    &&& score_of(
                        score_prefix_bytes(ch, i, rs[i].t_commitments@),
                        rs[i].e,
                        rs[i].z_coeffs@,
                        rs[i].z_blindings@,
                    ) < pow2((32 - b) as nat)
                }
        },
        r is None ==> attempt_can_fail(*statement, *witness, rho as int, b as int, challenge_space as int),
{
    let n = statement.x_points.len();
    let m = witness.coeffs.len();
    let mut ts: Vec<Vec<Point>> = Vec::new();
    let mut rcs: Vec<Vec<Scalar>> = Vec::new();
    let mut rbs: Vec<Vec<Scalar>> = Vec::new();
    let mut i: usize = 0;
    while i < rho
        invariant
            i <= rho,
            n == statement.x_points@.len(),
            m == statement.degree + 1,
            ts@.len() == i,
            rcs@.len() == i,
            rbs@.len() == i,
            forall|q: int|
                0 <= q < i ==> {
                    &&& (#[trigger] rcs@[q])@.len() == m
                    &&& rbs@[q]@.len() == n
                    &&& forall|k: int| 0 <= k < m ==> 0 <= #[trigger] rcs@[q]@[k]@ < group_order()
                    &&& forall|k: int| 0 <= k < n ==> 0 <= #[trigger] rbs@[q]@[k]@ < group_order()
                    &&& ts@[q]@.len() == n + 1
                    &&& ts@[q]@[0]@ == modl(rcs@[q]@[0]@)
                    &&& forall|j: int|
                        0 <= j < n ==> (#[trigger] ts@[q]@[j + 1])@ == com_dlog(
                            poly_eval(svals(rcs@[q]@), statement.x_points@[j]@),
                            rbs@[q]@[j]@,
                        )
                },
        decreases rho - i,
    {
        let mut rc: Vec<Scalar> = Vec::new();
        let mut k: usize = 0;
        while k < m
            invariant
                k <= m,
                rc@.len() == k,
                forall|q: int| 0 <= q < k ==> 0 <= #[trigger] rc@[q]@ < group_order(),
            decreases m - k,
        {
            rc.push(sample_scalar());
            k = k + 1;
        }
        let mut rb: Vec<Scalar> = Vec::new();
        let mut k: usize = 0;
        while k < n
            invariant
                k <= n,
                rb@.len() == k,
                forall|q: int| 0 <= q < k ==> 0 <= #[trigger] rb@[q]@ < group_order(),
            decreases n - k,
        {
            rb.push(sample_scalar());
            k = k + 1;
        }
        let t = round_first_commitments(statement, rc.as_slice(), rb.as_slice());
        let ghost tv = t@;
        let ghost rcv = rc@;
        let ghost rbv = rb@;
        ts.push(t);
        rcs.push(rc);
        rbs.push(rb);
        proof {
            assert(ts@[i as int]@ == tv);
            assert(rcs@[i as int]@ == rcv);
            assert(rbs@[i as int]@ == rbv);
            assert forall|j: int| 0 <= j < n implies (#[trigger] ts@[i as int]@[j + 1])@ == com_dlog(
                poly_eval(svals(rcs@[i as int]@), statement.x_points@[j]@),
                rbs@[i as int]@[j]@,
            ) by {
                assert(tv[j + 1]@ == com_dlog(poly_eval(svals(rcv), statement.x_points@[j]@), rbv[j]@));
            }
        }
        i = i + 1;
    }
    assert(i == rho);
    let ch = common_h(statement, ts.as_slice());
    let mut rounds: Vec<PolyWellFormedFischlinRound> = Vec::new();
    let mut i: usize = 0;
    while i < rho
        invariant
            i <= rho,
            1 <= b <= 31,
            challenge_space <= 65536,
            n == statement.x_points@.len(),
            m == statement.degree + 1,
            statement.commitments@.len() == n,
            witness.coeffs@.len() == m,
            witness.blindings@.len() == n,
            ts@.len() == rho,
            rcs@.len() == rho,
            rbs@.len() == rho,
            ch@ == sha512_spec(common_h_input(*statement, vec_views(ts@))),
            rounds@.len() == i,
            forall|q: int|
                0 <= q < rho ==> {
                    &&& (#[trigger] rcs@[q])@.len() == m
                    &&& rbs@[q]@.len() == n
                    &&& forall|k: int| 0 <= k < m ==> 0 <= #[trigger] rcs@[q]@[k]@ < group_order()
                    &&& forall|k: int| 0 <= k < n ==> 0 <= #[trigger] rbs@[q]@[k]@ < group_order()
                    &&& ts@[q]@.len() == n + 1
                    &&& ts@[q]@[0]@ == modl(rcs@[q]@[0]@)
                    &&& forall|j: int|
                        0 <= j < n ==> (#[trigger] ts@[q]@[j + 1])@ == com_dlog(
                            poly_eval(svals(rcs@[q]@), statement.x_points@[j]@),
                            rbs@[q]@[j]@,
                        )
                },
            forall|q: int|
                0 <= q < i ==> {
                    &&& (#[trigger] rounds@[q]).t_commitments@ == ts@[q]@
                    &&& exists|rc: Seq<int>, rb: Seq<int>|
                        round_least(*statement, *witness, ch@, q, rounds@[q], rc, rb, b as int)
                    &&& rounds@[q].e < challenge_space
                    &&& score_of(
                        score_prefix_bytes(ch@, q, ts@[q]@),
                        rounds@[q].e,
                        rounds@[q].z_coeffs@,
                        rounds@[q].z_blindings@,
                    ) < pow2((32 - b) as nat)
                },
        decreases rho - i,
    {
        let t = ts[i].clone();
        let rc = rcs[i].clone();
        let rb = rbs[i].clone();
        assert(t@ == ts@[i as int]@);
        assert(rc@ == rcs@[i as int]@);
        assert(rb@ == rbs@[i as int]@);
        match search_round(statement, witness, &ch, i, t, rc, rb, b, challenge_space) {
            Some(round) => {
                rounds.push(round);
                proof {
                    let ghost w = (svals(rcs@[i as int]@), svals(rbs@[i as int]@));
                    assert(round_opens(*statement, *witness, rounds@[i as int], w.0, w.1));
                    assert(round_least(*statement, *witness, ch@, i as int, rounds@[i as int], w.0, w.1, b as int));
                }
            },
            None => {
                proof {
                    let tsv = vec_views(ts@);
                    let rcv = svals(rcs@[i as int]@);
                    let rbv = svals(rbs@[i as int]@);
                    assert(tsv[i as int] == ts@[i as int]@);
                    assert(first_commitments(*statement, tsv[i as int], rcv, rbv));
                    assert(forall|e: int|
                        0 <= e < challenge_space ==> #[trigger] challenge_fails(
                            score_prefix_bytes(sha512_spec(common_h_input(*statement, tsv)), i as int, tsv[i as int]),
                            *witness,
                            rcv,
                            rbv,
                            e,
                            b as int,
                        ));
                }
                return None;
            },
        }
        i = i + 1;
    }
    let proof = PolyWellFormedFischlinProof { rounds };
    proof {
        assert(round_ts(proof.rounds@) =~= vec_views(ts@));
    }
    Some(proof)
}

/// Proves well-formedness with `rho` rounds, `b` zero bits and challenges of
/// `t_bits` bits. Each attempt succeeds unless some round's whole challenge
/// space fails; attempts repeat until one succeeds, and `None` comes back only
/// after `u64::MAX` failed attempts.
pub fn prove_fischlin_with_params(
    statement: &PolyWellFormedStatement,
    witness: &PolyWellFormedWitness,
    rho: usize,
    b: usize,
    t_bits: usize,
) -> (r: Option<PolyWellFormedFischlinProof>)
    requires
        rho > 0,
        1 <= b <= 31,
        1 <= t_bits <= 15,
        b <= t_bits,
        statement.commitments@.len() == statement.x_points@.len(),
        witness.blindings@.len() == statement.x_points@.len(),
        witness.coeffs@.len() == statement.degree + 1,
    ensures
        r matches Some(p) ==> fischlin_honest(
            *statement,
            *witness,
            p,
            rho as int,
            b as int,
            t_bits as int,
        ),
        r is None ==> attempt_can_fail(*statement, *witness, rho as int, b as int, pow2(t_bits as nat) as int),
{
    let cs = challenge_space_size(t_bits);
    let mut attempt: u64 = 0;
    while attempt < u64::MAX
        invariant
            attempt > 0 ==> attempt_can_fail(*statement, *witness, rho as int, b as int, cs as int),
            cs == pow2(t_bits as nat),
            cs <= 32768,
            1 <= b <= 31,
            statement.commitments@.len() == statement.x_points@.len(),
            witness.blindings@.len() == statement.x_points@.len(),
            witness.coeffs@.len() == statement.degree + 1,
        decreases u64::MAX - attempt,
    {
        if let Some(p) = prove_attempt(statement, witness, rho, b, cs) {
            return Some(p);
        }
        attempt = attempt + 1;
    }
    None
}

/// The transcript entries of the rounds' public values, first `k` rounds.
pub open spec fn fischlin_rounds_ops(rs: Seq<PolyWellFormedFischlinRound>, k: int) -> Seq<
    TranscriptOp,
>
    decreases k,
{
    if k <= 0 {
        Seq::empty()
    } else {
        let r = rs[k - 1];
        fischlin_rounds_ops(rs, k - 1) + point_ops(
            "t".spec_bytes(),
            r.t_commitments@,
            r.t_commitments@.len() as int,
        ) + seq![op_append("e".spec_bytes(), u64_le(r.e as u64))] + scalar_ops(
            "za".spec_bytes(),
            r.z_coeffs@,
            r.z_coeffs@.len() as int,
        ) + scalar_ops("zw".spec_bytes(), r.z_blindings@, r.z_blindings@.len() as int)
    }
}

/// The history from which the fold weights are drawn.
pub open spec fn fischlin_weight_history(stmt: PolyWellFormedStatement, rs: Seq<PolyWellFormedFischlinRound>) -> Seq<
    TranscriptOp,
> {
    seq![op_init("poly-well-formedness-fischlin-rank1".spec_bytes())] + statement_ops(stmt)
        + fischlin_rounds_ops(rs, rs.len() as int)
}

/// The weights `delta_0..delta_n`.
pub open spec fn fischlin_deltas(stmt: PolyWellFormedStatement, rs: Seq<PolyWellFormedFischlinRound>) -> Seq<int> {
    indexed_values(
        fischlin_weight_history(stmt, rs),
        "delta_index".spec_bytes(),
        "delta".spec_bytes(),
        stmt.x_points@.len() + 1int,
    )
}

/// The weights `gamma_0..gamma_{rho-1}`, drawn after the deltas.
pub open spec fn fischlin_gammas(stmt: PolyWellFormedStatement, rs: Seq<PolyWellFormedFischlinRound>) -> Seq<int> {
    indexed_values(
        indexed_history(
            fischlin_weight_history(stmt, rs),
            "delta_index".spec_bytes(),
            "delta".spec_bytes(),
            stmt.x_points@.len() + 1int,
        ),
        "gamma_index".spec_bytes(),
        "gamma".spec_bytes(),
        rs.len() as int,
    )
}

/// The rounds as the fold reads them, the challenge taken as an integer.
pub open spec fn fischlin_rounds_data(rs: Seq<PolyWellFormedFischlinRound>) -> Seq<RoundData> {
    rs.map_values(
        |r: PolyWellFormedFischlinRound|
            (dlogs(r.t_commitments@), r.e as int, svals(r.z_coeffs@), svals(r.z_blindings@)),
    )
}

/// Draws the fold weights from one transcript over the whole proof.
fn derive_shared_weights(statement: &PolyWellFormedStatement, proof: &PolyWellFormedFischlinProof, rho: usize, n: usize) -> (r: (Vec<Scalar>, Vec<Scalar>))
    requires
        n == statement.x_points@.len(),
        n < usize::MAX,
        rho == proof.rounds@.len(),
    ensures
        svals(r.0@) == fischlin_deltas(*statement, proof.rounds@),
        svals(r.1@) == fischlin_gammas(*statement, proof.rounds@),
{
    let mut tr = new_transcript("poly-well-formedness-fischlin-rank1");
    append_statement_to_transcript(&mut tr, statement);
    let ghost h0 = transcript_contents(tr);
    let mut i: usize = 0;
    while i < proof.rounds.len()
        invariant
            i <= proof.rounds@.len(),
            transcript_contents(tr) == h0 + fischlin_rounds_ops(proof.rounds@, i as int),
        decreases proof.rounds@.len() - i,
    {
        let round = &proof.rounds[i];
        append_points(&mut tr, "t", round.t_commitments.as_slice());
        append_u64(&mut tr, "e", round.e as u64);
        append_scalars(&mut tr, "za", round.z_coeffs.as_slice());
        append_scalars(&mut tr, "zw", round.z_blindings.as_slice());
        proof {
            assert(transcript_contents(tr) =~= h0 + fischlin_rounds_ops(proof.rounds@, i + 1));
        }
        i = i + 1;
    }
    assert(transcript_contents(tr) =~= fischlin_weight_history(*statement, proof.rounds@));
    let deltas = indexed_challenges(&mut tr, "delta_index", "delta", n + 1);
    let gammas = indexed_challenges(&mut tr, "gamma_index", "gamma", rho);
    (deltas, gammas)
}

/// Whether a round has the shape the statement asks for.
pub open spec fn round_shape(stmt: PolyWellFormedStatement, r: PolyWellFormedFischlinRound, t_bits: int) -> bool {
    let n = stmt.x_points@.len();
    &&& r.z_blindings@.len() == n
    &&& r.z_coeffs@.len() == stmt.degree + 1
    &&& r.t_commitments@.len() == n + 1
    &&& r.e < pow2(t_bits as nat)
}

/// What the verifier accepts: sound parameters, the right shapes, every
/// round's score passes under the common hash, and the folded check holds.
pub open spec fn fischlin_valid(
    stmt: PolyWellFormedStatement,
    proof: PolyWellFormedFischlinProof,
    rho: int,
    b: int,
    t_bits: int,
) -> bool {
    let n = stmt.x_points@.len();
    let rs = proof.rounds@;
    let ch = sha512_spec(common_h_input(stmt, round_ts(rs)));
    &&& rho > 0 && 1 <= b <= 31 && 1 <= t_bits <= 15 && b <= t_bits
    &&& stmt.commitments@.len() == n
    &&& rs.len() == rho
    &&& forall|i: int| 0 <= i < rs.len() ==> round_shape(stmt, #[trigger] rs[i], t_bits)
    &&& forall|i: int|
        0 <= i < rs.len() ==> score_of(
            score_prefix_bytes(ch, i, (#[trigger] rs[i]).t_commitments@),
            rs[i].e,
            rs[i].z_coeffs@,
            rs[i].z_blindings@,
        ) < pow2((32 - b) as nat)
    &&& rank1_check(stmt, fischlin_rounds_data(rs), fischlin_deltas(stmt, rs), fischlin_gammas(stmt, rs))
}

/// Checks a Fischlin proof.
pub fn verify_fischlin_with_params(
    statement: &PolyWellFormedStatement,
    proof: &PolyWellFormedFischlinProof,
    rho: usize,
    b: usize,
    t_bits: usize,
) -> (r: bool)
    ensures
        r == fischlin_valid(*statement, *proof, rho as int, b as int, t_bits as int),
{
    let n = statement.x_points.len();
    if rho == 0 || b == 0 || b > 31 || t_bits == 0 || t_bits > 15 || b > t_bits {
        return false;
    }
    if statement.commitments.len() != n || proof.rounds.len() != rho {
        return false;
    }
    let cs = challenge_space_size(t_bits);
    let ghost rs = proof.rounds@;
    let mut i: usize = 0;
    while i < proof.rounds.len()
        invariant
            i <= rs.len(),
            rs == proof.rounds@,
            n == statement.x_points@.len(),
            cs == pow2(t_bits as nat),
            i > 0 ==> n < usize::MAX && statement.degree < usize::MAX,
            forall|q: int| 0 <= q < i ==> round_shape(*statement, #[trigger] rs[q], t_bits as int),
        decreases rs.len() - i,
    {
        let round = &proof.rounds[i];
        let zb_len = round.z_blindings.len();
        let zc_len = round.z_coeffs.len();
        let t_len = round.t_commitments.len();
        if zb_len != n || statement.degree == usize::MAX || zc_len != statement.degree + 1
            || n == usize::MAX || t_len != n + 1 || (round.e as u32) >= cs {
            assert(!round_shape(*statement, rs[i as int], t_bits as int));
            return false;
        }
        i = i + 1;
    }
    let mut per_round: Vec<Vec<Point>> = Vec::new();
    let mut i: usize = 0;
    while i < proof.rounds.len()
        invariant
            i <= rs.len(),
            rs == proof.rounds@,
            per_round@.len() == i,
            forall|q: int| 0 <= q < i ==> (#[trigger] per_round@[q])@ == rs[q].t_commitments@,
        decreases rs.len() - i,
    {
        let t = proof.rounds[i].t_commitments.clone();
        per_round.push(t);
        i = i + 1;
    }
    let ch = common_h(statement, per_round.as_slice());
    proof {
        assert(vec_views(per_round@) =~= round_ts(rs));
    }
    let mut i: usize = 0;
    while i < proof.rounds.len()
        invariant
            i <= rs.len(),
            rs == proof.rounds@,
            1 <= b <= 31,
            ch@ == sha512_spec(common_h_input(*statement, round_ts(rs))),
            forall|q: int|
                0 <= q < i ==> score_of(
                    score_prefix_bytes(ch@, q, (#[trigger] rs[q]).t_commitments@),
                    rs[q].e,
                    rs[q].z_coeffs@,
                    rs[q].z_blindings@,
                ) < pow2((32 - b) as nat),
        decreases rs.len() - i,
    {
        let round = &proof.rounds[i];
        let score = fischlin_score_u32(
            &ch,
            i,
            round.t_commitments.as_slice(),
            round.e,
            round.z_coeffs.as_slice(),
            round.z_blindings.as_slice(),
        );
        if !score_has_b_leading_zero_bits(score, b) {
            return false;
        }
        i = i + 1;
    }
    let (deltas, gammas) = derive_shared_weights(statement, proof, rho, n);
    let mut views: Vec<RoundView> = Vec::new();
    let mut i: usize = 0;
    while i < proof.rounds.len()
        invariant
            i <= rs.len(),
            rs == proof.rounds@,
            views@.len() == i,
            forall|q: int|
                0 <= q < i ==> crate::one_round_proofs::utils::round_data(#[trigger] views@[q])
                    == fischlin_rounds_data(rs)[q],
        decreases rs.len() - i,
    {
        let round = &proof.rounds[i];
        let v = RoundView {
            t_commitments: round.t_commitments.as_slice(),
            challenge: Scalar::from_u64(round.e as u64),
            z_coeffs: round.z_coeffs.as_slice(),
            z_blindings: round.z_blindings.as_slice(),
        };
        views.push(v);
        i = i + 1;
    }
    proof {
        assert(crate::one_round_proofs::utils::rounds_data(views@) =~= fischlin_rounds_data(rs));
    }
    batched_point_check_rank1(statement, views.as_slice(), deltas.as_slice(), gammas.as_slice())
}

/// Checks one proof per statement; `false` when the counts differ.
pub fn batch_verify_fischlin_with_params(
    statements: &[PolyWellFormedStatement],
    proofs: &[PolyWellFormedFischlinProof],
    rho: usize,
    b: usize,
    t_bits: usize,
) -> (r: bool)
    ensures
        r == (statements@.len() == proofs@.len() && forall|i: int|
            0 <= i < statements@.len() ==> fischlin_valid(
                statements@[i],
                proofs@[i],
                rho as int,
                b as int,
                t_bits as int,
            )),
{
    if statements.len() != proofs.len() {
        return false;
    }
    let mut i: usize = 0;
    while i < statements.len()
        invariant
            i <= statements@.len(),
            statements@.len() == proofs@.len(),
            forall|q: int|
                0 <= q < i ==> fischlin_valid(
                    statements@[q],
                    proofs@[q],
                    rho as int,
                    b as int,
                    t_bits as int,
                ),
        decreases statements@.len() - i,
    {
        if !verify_fischlin_with_params(&statements[i], &proofs[i], rho, b, t_bits) {
            return false;
        }
        i = i + 1;
    }
    true
}

/// The parameters of the Fischlin transform.
#[derive(Clone, Copy, Debug)]
pub struct FischlinProofParams {
    pub rho: usize,
    pub b: usize,
    pub t_bits: usize,
}

/// The Fischlin proof system as a [`PolyProofScheme`].
#[derive(Clone, Copy, Debug)]
pub struct FischlinPolyProof;

impl PolyProofScheme for FischlinPolyProof {
    type Proof = PolyWellFormedFischlinProof;
    type Params = FischlinProofParams;

    open spec fn prove_requires(params: &FischlinProofParams, statement: &PolyWellFormedStatement, witness: &PolyWellFormedWitness) -> bool {
        &&& params.rho > 0
        &&& 1 <= params.b <= 31
        &&& 1 <= params.t_bits <= 15
        &&& params.b <= params.t_bits
        &&& statement.commitments@.len() == statement.x_points@.len()
        &&& witness.blindings@.len() == statement.x_points@.len()
        &&& witness.coeffs@.len() == statement.degree + 1
    }

    open spec fn proof_honest(params: &FischlinProofParams, statement: &PolyWellFormedStatement, witness: &PolyWellFormedWitness, proof: &PolyWellFormedFischlinProof) -> bool {
        fischlin_honest(*statement, *witness, *proof, params.rho as int, params.b as int, params.t_bits as int)
    }

    open spec fn proof_valid(params: &FischlinProofParams, statement: &PolyWellFormedStatement, proof: &PolyWellFormedFischlinProof) -> bool {
        fischlin_valid(*statement, *proof, params.rho as int, params.b as int, params.t_bits as int)
    }

    open spec fn prove_fails(params: &FischlinProofParams, statement: &PolyWellFormedStatement, witness: &PolyWellFormedWitness) -> bool {
        attempt_can_fail(*statement, *witness, params.rho as int, params.b as int, pow2(params.t_bits as nat) as int)
    }

    fn prove(params: &FischlinProofParams, statement: &PolyWellFormedStatement, witness: &PolyWellFormedWitness) -> (r: Option<PolyWellFormedFischlinProof>) {
        prove_fischlin_with_params(statement, witness, params.rho, params.b, params.t_bits)
    }

    fn verify(params: &FischlinProofParams, statement: &PolyWellFormedStatement, proof: &PolyWellFormedFischlinProof) -> (r: bool) {
        verify_fischlin_with_params(statement, proof, params.rho, params.b, params.t_bits)
    }
}

} // verus!
