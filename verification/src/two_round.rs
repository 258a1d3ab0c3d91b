//! The two-round protocol. In round one every dealer commits to the
//! coefficients of two polynomials, proves it can open the commitments and a
//! commitment `D` to a fresh `omega`, and encrypts the evaluations. In round
//! two every party sums what it received, commits to the sum with `omega`,
//! and proves that this commitment opens like the evaluated commitments; the
//! outputs are the sums of the public keys and these commitments.

use crate::abort::{verify_report_core, AbortReport, AbortVerdict};
use crate::arith::{lemma_modl_add, lemma_modl_bound, lemma_modl_mul, modl};
use crate::encryption::elgamal::{batch_check, is_honest_pok, opened_share, opened_sum};
use crate::encryption::proofs::prove_decryption;
use crate::encryption::{decrypt_my_shares, encrypt_batch, BatchEncryptedShares, EncryptedShare};
pub use crate::error::TwoRoundDkgError;
use crate::group::{dlogs, svals, Point};
use crate::one_round::{batch_dealt, honest_decryption, recv_slot, reporter_share_of};
use crate::encryption::elgamal::masked_share;
use crate::one_round_proofs::utils::com_dlogs;
use crate::party::{Parties, PartyState};
use crate::pedersen::{com_dlog, commit_opened, PedersenCommitment};
use crate::poly::{eval_poly_at, poly_eval, poly_sum, sample_random_polynomial_with_constant};
use crate::scalar::Scalar;
use crate::sig::{ed25519_signature, ed25519_verify_strict, signed_by, Signature, SigningKey, VerifyingKey};
use crate::two_round_proofs::comeq_proof::{
    comeq_honest, comeq_valid, ComEqProof, ComEqStatement, ComEqWitness,
};
use crate::two_round_proofs::decom_proof::{decom_relation, DecomStatement, DecomWitness};
use crate::two_round_proofs::pk_proof::{pk_honest, pk_relation, pk_valid, PkProof, PkStatement, PkWitness};
use crate::two_round_proofs::DecomProofScheme;
use crate::wire::{signed_bytes, WireCodec};
use crate::{DkgOutput, DkgParams};
use vstd::arithmetic::power::pow;
use vstd::prelude::*;
use vstd::string::StringSliceAdditionalSpecFns;

pub mod completeness;
pub mod laws;

verus! {

/// A dealer's round-one broadcast: commitments `C_k = g^{a_k} h^{b_k}` to the
/// coefficients, `D = g^omega h^r`, the decommitment proof and the encrypted
/// evaluations.
#[derive(Clone)]
pub struct Round1Broadcast<P> {
    pub dealer_idx: usize,
    pub pedvss: Vec<PedersenCommitment>,
    pub d_commitment: PedersenCommitment,
    pub decom_proof: P,
    pub encrypted_shares: BatchEncryptedShares,
    pub signature: Signature,
}

/// What a dealer keeps after round one.
#[derive(Clone, Copy)]
pub struct Round1LocalState {
    pub my_s_ii: Scalar,
    pub my_sprime_ii: Scalar,
    pub omega: Scalar,
    pub r: Scalar,
    pub pk: Point,
    pub pk_proof: PkProof,
}

/// A party's round-two broadcast.
#[derive(Clone, Copy)]
pub struct Round2Broadcast {
    pub dealer_idx: usize,
    pub pk: Point,
    pub pk_proof: PkProof,
    pub vk_i: PedersenCommitment,
    pub comeq_proof: ComEqProof,
    pub signature: Signature,
}

/// What round two keeps of a verified round-one broadcast.
#[derive(Clone, Copy)]
pub struct VerifiedRound1Info {
    pub c_0: PedersenCommitment,
    pub d_commitment: PedersenCommitment,
}

/// The verified round-one broadcasts by dealer index, and the summed
/// commitment polynomial evaluated at `0..n`.
#[derive(Clone)]
pub struct VerifiedRound1Cache {
    pub by_idx: Vec<Option<VerifiedRound1Info>>,
    pub c_stars: Vec<PedersenCommitment>,
}

/// What a party keeps after round two.
#[derive(Clone)]
pub struct Round2LocalState {
    pub s_i: Scalar,
    pub omega: Scalar,
    pub verified_round1: VerifiedRound1Cache,
}

/// The encoding of a round-one broadcast's signed fields.
pub open spec fn round1_fields_encoding<P: WireCodec>(m: Round1Broadcast<P>) -> Seq<u8> {
    m.dealer_idx.encoding() + m.pedvss.encoding() + m.d_commitment.encoding()
        + m.decom_proof.encoding() + m.encrypted_shares.encoding()
}

/// The bytes a round-one signature covers.
pub open spec fn round1_signed_bytes<P: WireCodec>(m: Round1Broadcast<P>) -> Seq<u8> {
    signed_bytes("janus2-round1-broadcast".spec_bytes(), round1_fields_encoding(m))
}

/// The encoding of a round-two broadcast's signed fields.
pub open spec fn round2_fields_encoding(m: Round2Broadcast) -> Seq<u8> {
    m.dealer_idx.encoding() + m.pk.encoding() + m.pk_proof.encoding() + m.vk_i.encoding()
        + m.comeq_proof.encoding()
}

/// The bytes a round-two signature covers.
pub open spec fn round2_signed_bytes(m: Round2Broadcast) -> Seq<u8> {
    signed_bytes("janus2-round2-broadcast".spec_bytes(), round2_fields_encoding(m))
}

impl<P: WireCodec> Round1Broadcast<P> {
    /// A broadcast signed with the dealer's key.
    pub fn new(
        dealer_idx: usize,
        pedvss: Vec<PedersenCommitment>,
        d_commitment: PedersenCommitment,
        decom_proof: P,
        encrypted_shares: BatchEncryptedShares,
        signing_key: &SigningKey,
    ) -> (r: Self)
        ensures
            r.dealer_idx == dealer_idx,
            r.pedvss@ == pedvss@,
            r.d_commitment == d_commitment,
            r.decom_proof == decom_proof,
            r.encrypted_shares == encrypted_shares,
            r.signature.bytes@ == ed25519_signature(signing_key.bytes@, round1_signed_bytes(r)),
            signed_by(signing_key.bytes@, round1_signed_bytes(r), r.signature.bytes@),
    {
        let mut msg = Round1Broadcast {
            dealer_idx,
            pedvss,
            d_commitment,
            decom_proof,
            encrypted_shares,
            signature: Signature::placeholder(),
        };
        msg.sign(signing_key);
        msg
    }

    fn signing_bytes(&self) -> (r: Vec<u8>)
        ensures
            r@ == round1_signed_bytes(*self),
    {
        let mut out: Vec<u8> = Vec::new();
        self.dealer_idx.encode(&mut out);
        self.pedvss.encode(&mut out);
        self.d_commitment.encode(&mut out);
        self.decom_proof.encode(&mut out);
        self.encrypted_shares.encode(&mut out);
        assert(out@ =~= round1_fields_encoding(*self));
        let domain = "janus2-round1-broadcast";
        crate::wire::signing_bytes(domain.as_bytes(), out.as_slice())
    }

    /// Signs the broadcast.
    pub fn sign(&mut self, sk: &SigningKey)
        ensures
            final(self).dealer_idx == old(self).dealer_idx,
            final(self).pedvss == old(self).pedvss,
            final(self).d_commitment == old(self).d_commitment,
            final(self).decom_proof == old(self).decom_proof,
            final(self).encrypted_shares == old(self).encrypted_shares,
            final(self).signature.bytes@ == ed25519_signature(sk.bytes@, round1_signed_bytes(*old(self))),
            signed_by(sk.bytes@, round1_signed_bytes(*old(self)), final(self).signature.bytes@),
    {
        let bytes = self.signing_bytes();
        self.signature = sk.sign(bytes.as_slice());
    }

    /// Whether the signature verifies under `pk`.
    pub fn verify(&self, pk: &VerifyingKey) -> (r: bool)
        ensures
            r == ed25519_verify_strict(pk.bytes@, round1_signed_bytes(*self), self.signature.bytes@),
    {
        let bytes = self.signing_bytes();
        pk.verify_strict(bytes.as_slice(), &self.signature)
    }
}

impl Round2Broadcast {
    /// A broadcast signed with the party's key.
    pub fn new(
        dealer_idx: usize,
        pk: Point,
        pk_proof: PkProof,
        vk_i: PedersenCommitment,
        comeq_proof: ComEqProof,
        signing_key: &SigningKey,
    ) -> (r: Self)
        ensures
            r.dealer_idx == dealer_idx,
            r.pk == pk,
            r.pk_proof == pk_proof,
            r.vk_i == vk_i,
            r.comeq_proof == comeq_proof,
            r.signature.bytes@ == ed25519_signature(signing_key.bytes@, round2_signed_bytes(r)),
            signed_by(signing_key.bytes@, round2_signed_bytes(r), r.signature.bytes@),
    {
        let mut msg = Round2Broadcast {
            dealer_idx,
            pk,
            pk_proof,
            vk_i,
            comeq_proof,
            signature: Signature::placeholder(),
        };
        msg.sign(signing_key);
        msg
    }

    fn signing_bytes(&self) -> (r: Vec<u8>)
        ensures
            r@ == round2_signed_bytes(*self),
    {
        let mut out: Vec<u8> = Vec::new();
        self.dealer_idx.encode(&mut out);
        self.pk.encode(&mut out);
        self.pk_proof.encode(&mut out);
        self.vk_i.encode(&mut out);
        self.comeq_proof.encode(&mut out);
        assert(out@ =~= round2_fields_encoding(*self));
        let domain = "janus2-round2-broadcast";
        crate::wire::signing_bytes(domain.as_bytes(), out.as_slice())
    }

    /// Signs the broadcast.
    pub fn sign(&mut self, sk: &SigningKey)
        ensures
            final(self).dealer_idx == old(self).dealer_idx,
            final(self).pk == old(self).pk,
            final(self).pk_proof == old(self).pk_proof,
            final(self).vk_i == old(self).vk_i,
            final(self).comeq_proof == old(self).comeq_proof,
            final(self).signature.bytes@ == ed25519_signature(sk.bytes@, round2_signed_bytes(*old(self))),
            signed_by(sk.bytes@, round2_signed_bytes(*old(self)), final(self).signature.bytes@),
    {
        let bytes = self.signing_bytes();
        self.signature = sk.sign(bytes.as_slice());
    }

    /// Whether the signature verifies under `pk`.
    pub fn verify(&self, pk: &VerifyingKey) -> (r: bool)
        ensures
            r == ed25519_verify_strict(pk.bytes@, round2_signed_bytes(*self), self.signature.bytes@),
    {
        let bytes = self.signing_bytes();
        pk.verify_strict(bytes.as_slice(), &self.signature)
    }
}

/// The evaluation point of party `i`.
fn x_of(i: usize) -> (r: Scalar)
    ensures
        r@ == i,
{
    Scalar::from_u64(i as u64)
}

/// `sum_{i < k} a_i x^i`.
pub open spec fn pow_sum(a: Seq<int>, x: int, k: int) -> int
    decreases k,
{
    if k <= 0 {
        0
    } else {
        pow_sum(a, x, k - 1) + a[k - 1] * pow(x, (k - 1) as nat)
    }
}

/// Horner's form `a_0 + x (a_1 + x (...))` is the power sum.
pub(crate) proof fn lemma_pow_sum_shift(a: Seq<int>, x: int, m: int)
    requires
        1 <= m <= a.len(),
    ensures
        pow_sum(a, x, m) == a[0] + x * pow_sum(a.subrange(1, a.len() as int), x, m - 1),
    decreases m,
{
    let tail = a.subrange(1, a.len() as int);
    if m == 1 {
        vstd::arithmetic::power::lemma_pow0(x);
        assert(pow_sum(a, x, 0) == 0);
        assert(pow_sum(tail, x, 0) == 0);
        assert(a[0] * pow(x, 0) == a[0]);
    } else {
        lemma_pow_sum_shift(a, x, m - 1);
        let p = pow(x, (m - 2) as nat);
        assert(pow(x, (m - 1) as nat) == x * p) by {
            reveal(pow);
        }
        assert(tail[m - 2] == a[m - 1]);
        let s = pow_sum(tail, x, m - 2);
        assert(pow_sum(tail, x, m - 1) == s + a[m - 1] * p);
        assert(x * (s + a[m - 1] * p) == x * s + a[m - 1] * (x * p)) by (nonlinear_arith);
    }
}

/// Horner's evaluation and the power sum agree.
pub(crate) proof fn lemma_poly_sum_is_pow_sum(a: Seq<int>, x: int)
    ensures
        poly_sum(a, x) == pow_sum(a, x, a.len() as int),
    decreases a.len(),
{
    if a.len() > 0 {
        let tail = a.subrange(1, a.len() as int);
        lemma_poly_sum_is_pow_sum(tail, x);
        lemma_pow_sum_shift(a, x, a.len() as int);
    }
}

/// The committed polynomial with coefficient elements `coeff_points`,
/// evaluated in the exponent at the party point `x`, by Horner's rule.
fn evaluate_commitment_polynomial_points_at(coeff_points: &[Point], x: u64) -> (r: Point)
    ensures
        r@ == modl(pow_sum(dlogs(coeff_points@), x as int, coeff_points@.len() as int)),
{
    let ghost a = dlogs(coeff_points@);
    let n = coeff_points.len();
    let mut acc = Point::identity();
    let mut k: usize = n;
    proof {
        assert(a.subrange(n as int, n as int).len() == 0);
        lemma_modl_bound(0);
    }
    while k > 0
        invariant
            k <= n,
            n == coeff_points@.len(),
            a == dlogs(coeff_points@),
            acc@ == modl(poly_sum(a.subrange(k as int, n as int), x as int)),
        decreases k,
    {
        k = k - 1;
        let ghost prev = acc@;
        let ghost rest = poly_sum(a.subrange(k + 1, n as int), x as int);
        let scaled = acc.mul_small(x);
        acc = scaled.add(&coeff_points[k]);
        proof {
            let s = a.subrange(k as int, n as int);
            assert(s.subrange(1, s.len() as int) =~= a.subrange(k + 1, n as int));
            assert(s[0] == coeff_points@[k as int]@);
            assert(poly_sum(s, x as int) == a[k as int] + x * rest);
            crate::arith::lemma_modl_mul(rest, x as int);
            crate::arith::lemma_modl_add_cong(scaled@, a[k as int], rest * x, a[k as int]);
            crate::arith::lemma_modl_idem(rest * x);
            assert(rest * x == x * rest) by (nonlinear_arith);
        }
    }
    proof {
        assert(a.subrange(0, n as int) =~= a);
        lemma_poly_sum_is_pow_sum(a, x as int);
    }
    acc
}

/// The committed polynomial `commitments` evaluated at `x`, as a commitment.
fn evaluate_pedvss_at(commitments: &[PedersenCommitment], x: u64) -> (r: PedersenCommitment)
    ensures
        r@ == modl(pow_sum(com_dlogs(commitments@), x as int, commitments@.len() as int)),
{
    let mut pts: Vec<Point> = Vec::new();
    let mut i: usize = 0;
    while i < commitments.len()
        invariant
            i <= commitments@.len(),
            dlogs(pts@) == com_dlogs(commitments@).subrange(0, i as int),
        decreases commitments@.len() - i,
    {
        let ghost p0 = pts@;
        pts.push(*commitments[i].point());
        proof {
            assert(dlogs(pts@) =~= dlogs(p0).push(commitments@[i as int]@));
            assert(com_dlogs(commitments@).subrange(0, i + 1) =~= com_dlogs(commitments@).subrange(0, i as int).push(commitments@[i as int]@));
        }
        i = i + 1;
    }
    assert(com_dlogs(commitments@).subrange(0, commitments@.len() as int) =~= com_dlogs(commitments@));
    PedersenCommitment::from_point(evaluate_commitment_polynomial_points_at(pts.as_slice(), x))
}

/// The summed commitment polynomial evaluated at `0` (as the neutral
/// element) and at `1..n`.
fn evaluate_many_from_coeff_points(coeff_points: &[Point], n: usize) -> (r: Vec<PedersenCommitment>)
    requires
        n < usize::MAX,
    ensures
        r@.len() == n + 1,
        r@[0]@ == 0,
        forall|i: int| 1 <= i <= n ==> (#[trigger] r@[i])@ == modl(pow_sum(dlogs(coeff_points@), i, coeff_points@.len() as int)),
{
    let mut out: Vec<PedersenCommitment> = Vec::new();
    out.push(PedersenCommitment::from_point(Point::identity()));
    let mut i: usize = 1;
    while i <= n
        invariant
            1 <= i <= n + 1,
            n < usize::MAX,
            out@.len() == i,
            out@[0]@ == 0,
            forall|q: int| 1 <= q < i ==> (#[trigger] out@[q])@ == modl(pow_sum(dlogs(coeff_points@), q, coeff_points@.len() as int)),
        decreases n + 1 - i,
    {
        out.push(PedersenCommitment::from_point(evaluate_commitment_polynomial_points_at(coeff_points, i as u64)));
        i = i + 1;
    }
    out
}

/// `sum_{i < j} msgs[i].pedvss[k]`, reduced at every step.
pub open spec fn coeff_sum<P>(msgs: Seq<Round1Broadcast<P>>, k: int, j: int) -> int
    decreases j,
{
    if j <= 0 {
        0
    } else {
        modl(coeff_sum(msgs, k, j - 1) + msgs[j - 1].pedvss@[k]@)
    }
}

fn aggregate_pedvss_coefficients_points<P>(valid_round1: &[Round1Broadcast<P>], t: usize) -> (r: Vec<Point>)
    requires
        t < usize::MAX,
        forall|i: int| 0 <= i < valid_round1@.len() ==> (#[trigger] valid_round1@[i]).pedvss@.len() == t + 1,
    ensures
        r@.len() == t + 1,
        forall|k: int| 0 <= k <= t ==> (#[trigger] r@[k])@ == coeff_sum(valid_round1@, k, valid_round1@.len() as int),
{
    let mut acc: Vec<Point> = Vec::new();
    let mut k: usize = 0;
    while k <= t
        invariant
            k <= t + 1,
            t < usize::MAX,
            acc@.len() == k,
            forall|i: int| 0 <= i < valid_round1@.len() ==> (#[trigger] valid_round1@[i]).pedvss@.len() == t + 1,
            forall|q: int| 0 <= q < k ==> (#[trigger] acc@[q])@ == coeff_sum(valid_round1@, q, valid_round1@.len() as int),
        decreases t + 1 - k,
    {
        let mut agg = Point::identity();
        let mut i: usize = 0;
        while i < valid_round1.len()
            invariant
                i <= valid_round1@.len(),
                k <= t,
                forall|j: int| 0 <= j < valid_round1@.len() ==> (#[trigger] valid_round1@[j]).pedvss@.len() == t + 1,
                agg@ == coeff_sum(valid_round1@, k as int, i as int),
            decreases valid_round1@.len() - i,
        {
            agg = agg.add(valid_round1[i].pedvss[k].point());
            i = i + 1;
        }
        acc.push(agg);
        k = k + 1;
    }
    acc
}

/// The coefficient sums of the verified broadcasts.
pub open spec fn coeff_sums<P>(msgs: Seq<Round1Broadcast<P>>, t: int) -> Seq<int> {
    Seq::new((t + 1) as nat, |k: int| coeff_sum(msgs, k, msgs.len() as int))
}

/// The cache holds the latest broadcast from each dealer, and the summed
/// commitment polynomial evaluated at `0..n`.
pub open spec fn cache_of<P>(c: VerifiedRound1Cache, msgs: Seq<Round1Broadcast<P>>, n: int, t: int) -> bool {
    &&& c.by_idx@.len() == n + 1
    &&& c.c_stars@.len() == n + 1
    &&& c.c_stars@[0]@ == 0
    &&& forall|i: int| 1 <= i <= n ==> (#[trigger] c.c_stars@[i])@ == modl(pow_sum(coeff_sums(msgs, t), i, t + 1))
    &&& forall|k: int|
        0 <= k <= n ==> match #[trigger] c.by_idx@[k] {
            Some(info) => exists|i: int|
                0 <= i < msgs.len() && msgs[i].dealer_idx == k && info.c_0 == msgs[i].pedvss@[0]
                    && info.d_commitment == msgs[i].d_commitment,
            None => forall|i: int| 0 <= i < msgs.len() ==> msgs[i].dealer_idx != k,
        }
}

fn build_verified_round1_cache<P>(params: &DkgParams, valid_round1: &[Round1Broadcast<P>]) -> (r: VerifiedRound1Cache)
    requires
        params.n < usize::MAX,
        params.t < usize::MAX,
        forall|i: int| 0 <= i < valid_round1@.len() ==> 1 <= (#[trigger] valid_round1@[i]).dealer_idx <= params.n
            && valid_round1@[i].pedvss@.len() == params.t + 1,
    ensures
        cache_of(r, valid_round1@, params.n as int, params.t as int),
{
    let n = params.n;
    let mut by_idx: Vec<Option<VerifiedRound1Info>> = Vec::new();
    let mut k: usize = 0;
    while k <= n
        invariant
            k <= n + 1,
            n < usize::MAX,
            by_idx@.len() == k,
            forall|q: int| 0 <= q < k ==> #[trigger] by_idx@[q] is None,
        decreases n + 1 - k,
    {
        by_idx.push(None);
        k = k + 1;
    }
    let ghost msgs = valid_round1@;
    let mut i: usize = 0;
    while i < valid_round1.len()
        invariant
            i <= msgs.len(),
            msgs == valid_round1@,
            by_idx@.len() == n + 1,
            forall|j: int| 0 <= j < msgs.len() ==> 1 <= (#[trigger] msgs[j]).dealer_idx <= n && msgs[j].pedvss@.len() == params.t + 1,
            forall|q: int|
                0 <= q <= n ==> match #[trigger] by_idx@[q] {
                    Some(info) => exists|j: int|
                        0 <= j < i && msgs[j].dealer_idx == q && info.c_0 == msgs[j].pedvss@[0]
                            && info.d_commitment == msgs[j].d_commitment,
                    None => forall|j: int| 0 <= j < i ==> msgs[j].dealer_idx != q,
                },
        decreases msgs.len() - i,
    {
        let msg = &valid_round1[i];
        let info = VerifiedRound1Info { c_0: msg.pedvss[0], d_commitment: msg.d_commitment };
        by_idx.set(msg.dealer_idx, Some(info));
        proof {
            assert forall|q: int| 0 <= q <= n implies match #[trigger] by_idx@[q] {
                Some(info) => exists|j: int|
                    0 <= j < i + 1 && msgs[j].dealer_idx == q && info.c_0 == msgs[j].pedvss@[0]
                        && info.d_commitment == msgs[j].d_commitment,
                None => forall|j: int| 0 <= j < i + 1 ==> msgs[j].dealer_idx != q,
            } by {
                if q == msg.dealer_idx {
                    assert(msgs[i as int].dealer_idx == q);
                }
            }
        }
        i = i + 1;
    }
    let agg_coeffs = aggregate_pedvss_coefficients_points(valid_round1, params.t);
    let c_stars = evaluate_many_from_coeff_points(agg_coeffs.as_slice(), n);
    proof {
        assert(dlogs(agg_coeffs@) =~= coeff_sums(msgs, params.t as int));
    }
    VerifiedRound1Cache { by_idx, c_stars }
}

/// A dealer's round-one broadcast passes on its own: the index is in range,
/// the commitment vector has `t + 1` entries, the signature verifies and the
/// decommitment proof is accepted.
pub open spec fn round1_ok<S: DecomProofScheme<Statement = DecomStatement, Witness = DecomWitness>>(
    params: DkgParams,
    decom_params: S::Params,
    parties: Parties,
    m: Round1Broadcast<S::Proof>,
) -> bool where S::Proof: WireCodec {
    &&& 1 <= m.dealer_idx <= params.n
    &&& m.pedvss@.len() == params.t + 1
    &&& ed25519_verify_strict(parties.parties@[m.dealer_idx - 1].sig_pk.bytes@, round1_signed_bytes(m), m.signature.bytes@)
    &&& exists|stmt: DecomStatement|
        stmt.pedvss@ == m.pedvss@ && stmt.d == m.d_commitment && S::proof_valid(&decom_params, &stmt, &m.decom_proof)
}

fn copy_commitments(cs: &Vec<PedersenCommitment>) -> (r: Vec<PedersenCommitment>)
    ensures
        r@ == cs@,
{
    let mut out: Vec<PedersenCommitment> = Vec::new();
    let mut i: usize = 0;
    while i < cs.len()
        invariant
            i <= cs@.len(),
            out@ == cs@.subrange(0, i as int),
        decreases cs@.len() - i,
    {
        out.push(cs[i]);
        i = i + 1;
        assert(out@ =~= cs@.subrange(0, i as int));
    }
    assert(cs@.subrange(0, cs@.len() as int) =~= cs@);
    out
}

/// What an error of the round-one checks reports: bad parameters or a dealer
/// out of range, or the dealer of a broadcast with the wrong number of
/// commitments, a failing signature, or a refused decomposition proof.
pub open spec fn round1_check_blames<S: DecomProofScheme<Statement = DecomStatement, Witness = DecomWitness>>(
    e: TwoRoundDkgError,
    params: DkgParams,
    decom_params: S::Params,
    my: usize,
    msgs: Seq<Round1Broadcast<S::Proof>>,
    parties: Parties,
) -> bool where S::Proof: WireCodec {
    match e {
        TwoRoundDkgError::InvalidParameters => !(params.n > 0 && 1 <= my <= params.n) || exists|i: int|
            0 <= i < msgs.len() && !(1 <= (#[trigger] msgs[i]).dealer_idx <= params.n),
        TwoRoundDkgError::InvalidPedVssLength { dealer_idx } => exists|i: int|
            0 <= i < msgs.len() && (#[trigger] msgs[i]).dealer_idx == dealer_idx && msgs[i].pedvss@.len() != params.t + 1,
        TwoRoundDkgError::InvalidSignature { dealer_idx } => exists|i: int|
            0 <= i < msgs.len() && (#[trigger] msgs[i]).dealer_idx == dealer_idx && 1 <= dealer_idx <= params.n
                && !ed25519_verify_strict(
                parties.parties@[dealer_idx - 1].sig_pk.bytes@,
                round1_signed_bytes(msgs[i]),
                msgs[i].signature.bytes@,
            ),
        TwoRoundDkgError::InvalidDecomProof { dealer_idx } => exists|i: int|
            0 <= i < msgs.len() && (#[trigger] msgs[i]).dealer_idx == dealer_idx && exists|stmt: DecomStatement|
                stmt.pedvss@ == msgs[i].pedvss@ && stmt.d == msgs[i].d_commitment && !S::proof_valid(
                    &decom_params,
                    &stmt,
                    &msgs[i].decom_proof,
                ),
        _ => false,
    }
}

/// A round-one broadcast's dealer is in range and it carries `t + 1`
/// commitments.
pub open spec fn round1_shape_ok<P>(params: DkgParams, m: Round1Broadcast<P>) -> bool {
    1 <= m.dealer_idx <= params.n && m.pedvss@.len() == params.t + 1
}

/// A round-one broadcast's signature verifies under its dealer's key.
pub open spec fn round1_signature_ok<P: WireCodec>(parties: Parties, m: Round1Broadcast<P>) -> bool {
    ed25519_verify_strict(parties.parties@[m.dealer_idx - 1].sig_pk.bytes@, round1_signed_bytes(m), m.signature.bytes@)
}

/// Every broadcast before position `i` passed all of its checks.
pub open spec fn round1_before_ok<S: DecomProofScheme<Statement = DecomStatement, Witness = DecomWitness>>(
    params: DkgParams,
    decom_params: S::Params,
    parties: Parties,
    msgs: Seq<Round1Broadcast<S::Proof>>,
    i: int,
) -> bool where S::Proof: WireCodec {
    forall|j: int| 0 <= j < i ==> round1_ok::<S>(params, decom_params, parties, #[trigger] msgs[j])
}

/// An error of round two's checks of round one comes in the order the checks
/// run. Each broadcast in turn is checked for its dealer's range, then its
/// number of commitments, then its signature, then its decomposition proof,
/// and the decryption comes only once every broadcast passed. With
/// `shapes_first`, the ranges and lengths of all broadcasts are checked
/// first, then all signatures, then all proofs. Either way the error names
/// the first broadcast that fails the check that failed.
pub open spec fn round1_error_in_order<S: DecomProofScheme<Statement = DecomStatement, Witness = DecomWitness>>(
    e: TwoRoundDkgError,
    params: DkgParams,
    decom_params: S::Params,
    my: usize,
    msgs: Seq<Round1Broadcast<S::Proof>>,
    parties: Parties,
    shapes_first: bool,
) -> bool where S::Proof: WireCodec {
    let all_shapes = forall|j: int| 0 <= j < msgs.len() ==> round1_shape_ok(params, #[trigger] msgs[j]);
    let all_signatures = forall|j: int| 0 <= j < msgs.len() ==> round1_signature_ok(parties, #[trigger] msgs[j]);
    match e {
        TwoRoundDkgError::InvalidParameters => true,
        TwoRoundDkgError::InvalidPedVssLength { dealer_idx } => exists|i: int|
            #![trigger msgs[i]]
            0 <= i < msgs.len() && msgs[i].dealer_idx == dealer_idx && 1 <= dealer_idx <= params.n && msgs[i].pedvss@.len()
                != params.t + 1 && if shapes_first {
                forall|j: int| 0 <= j < i ==> round1_shape_ok(params, #[trigger] msgs[j])
            } else {
                round1_before_ok::<S>(params, decom_params, parties, msgs, i)
            },
        TwoRoundDkgError::InvalidSignature { dealer_idx } => params.n > 0 && 1 <= my <= params.n && exists|i: int|
            #![trigger msgs[i]]
            0 <= i < msgs.len() && msgs[i].dealer_idx == dealer_idx && round1_shape_ok(params, msgs[i])
                && !round1_signature_ok(parties, msgs[i]) && if shapes_first {
                all_shapes && forall|j: int| 0 <= j < i ==> round1_signature_ok(parties, #[trigger] msgs[j])
            } else {
                round1_before_ok::<S>(params, decom_params, parties, msgs, i)
            },
        TwoRoundDkgError::InvalidDecomProof { dealer_idx } => params.n > 0 && 1 <= my <= params.n && exists|i: int|
            #![trigger msgs[i]]
            0 <= i < msgs.len() && msgs[i].dealer_idx == dealer_idx && round1_shape_ok(params, msgs[i])
                && round1_signature_ok(parties, msgs[i]) && (exists|stmt: DecomStatement|
                stmt.pedvss@ == msgs[i].pedvss@ && stmt.d == msgs[i].d_commitment && !S::proof_valid(
                    &decom_params,
                    &stmt,
                    &msgs[i].decom_proof,
                )) && round1_before_ok::<S>(params, decom_params, parties, msgs, i) && (shapes_first ==> all_shapes
                && all_signatures),
        _ => round1_accepted::<S>(params, decom_params, my, msgs, parties),
    }
}

fn validate_round1_msgs<S: DecomProofScheme<Statement = DecomStatement, Witness = DecomWitness>>(
    params: &DkgParams,
    my_idx: usize,
    round1_msgs: &[Round1Broadcast<S::Proof>],
    parties: &Parties,
    decom_params: &S::Params,
) -> (r: Result<(), TwoRoundDkgError>) where S::Proof: WireCodec
    requires
        parties.parties@.len() >= params.n,
    ensures
        r is Ok ==> {
            &&& params.n > 0
            &&& 1 <= my_idx <= params.n
            &&& forall|i: int| 0 <= i < round1_msgs@.len() ==> round1_ok::<S>(*params, *decom_params, *parties, #[trigger] round1_msgs@[i])
        },
        !(params.n > 0 && 1 <= my_idx <= params.n) ==> r matches Err(TwoRoundDkgError::InvalidParameters),
        r matches Err(e) ==> round1_check_blames::<S>(e, *params, *decom_params, my_idx, round1_msgs@, *parties),
        r matches Err(e) ==> round1_error_in_order::<S>(e, *params, *decom_params, my_idx, round1_msgs@, *parties, false),
{
    if params.n == 0 || my_idx == 0 || my_idx > params.n {
        return Err(TwoRoundDkgError::InvalidParameters);
    }
    let mut i: usize = 0;
    while i < round1_msgs.len()
        invariant
            i <= round1_msgs@.len(),
            params.n > 0,
            1 <= my_idx <= params.n,
            parties.parties@.len() >= params.n,
            forall|q: int| 0 <= q < i ==> round1_ok::<S>(*params, *decom_params, *parties, #[trigger] round1_msgs@[q]),
        decreases round1_msgs@.len() - i,
    {
        let msg = &round1_msgs[i];
        if msg.dealer_idx == 0 || msg.dealer_idx > params.n {
            return Err(TwoRoundDkgError::InvalidParameters);
        }
        let plen = msg.pedvss.len();
        if params.t == usize::MAX || plen != params.t + 1 {
            assert(round1_msgs@[i as int].pedvss@.len() != params.t + 1);
            assert(round1_before_ok::<S>(*params, *decom_params, *parties, round1_msgs@, i as int));
            return Err(TwoRoundDkgError::InvalidPedVssLength { dealer_idx: msg.dealer_idx });
        }
        assert(round1_shape_ok(*params, round1_msgs@[i as int]));
        assert(round1_before_ok::<S>(*params, *decom_params, *parties, round1_msgs@, i as int));
        if !msg.verify(parties.sig_pk(msg.dealer_idx)) {
            return Err(TwoRoundDkgError::InvalidSignature { dealer_idx: msg.dealer_idx });
        }
        let stmt = DecomStatement { pedvss: copy_commitments(&msg.pedvss), d: msg.d_commitment };
        if !S::verify(decom_params, &stmt, &msg.decom_proof) {
            return Err(TwoRoundDkgError::InvalidDecomProof { dealer_idx: msg.dealer_idx });
        }
        i = i + 1;
    }
    Ok(())
}

/// The positions, among the first `k` messages, of those not from `my`.
pub open spec fn others_in<P>(msgs: Seq<Round1Broadcast<P>>, my: usize, k: int) -> Seq<int>
    decreases k,
{
    if k <= 0 {
        Seq::empty()
    } else {
        let p = others_in(msgs, my, k - 1);
        if msgs[k - 1].dealer_idx != my {
            p.push(k - 1)
        } else {
            p
        }
    }
}

proof fn lemma_others_in(msgs: Seq<Round1Broadcast<impl Sized>>, my: usize, k: int, m: int)
    requires
        0 <= k <= m,
    ensures
        others_in(msgs, my, k).len() <= others_in(msgs, my, m).len(),
        others_in(msgs, my, m).len() <= m,
        forall|j: int|
            0 <= j < others_in(msgs, my, k).len() ==> #[trigger] others_in(msgs, my, k)[j]
                == others_in(msgs, my, m)[j],
        forall|j: int|
            0 <= j < others_in(msgs, my, m).len() ==> 0 <= #[trigger] others_in(msgs, my, m)[j] < m,
    decreases m,
{
    if m > 0 {
        if k < m {
            lemma_others_in(msgs, my, k, m - 1);
        }
        lemma_others_in(msgs, my, m - 1, m - 1);
    }
}

/// The pair that receiver `my` opens from message `i` with key `sk`.
pub open spec fn received_pair<P>(sk: int, msgs: Seq<Round1Broadcast<P>>, my: usize, i: int) -> (int, int) {
    opened_share(sk, &msgs[i].encrypted_shares, my).unwrap()
}

/// `init` plus the part (0: share, 1: blinding) received from every other
/// dealer among the first `k` messages, reduced at every step.
pub open spec fn pair_sum<P>(sk: int, msgs: Seq<Round1Broadcast<P>>, my: usize, k: int, init: int, part: int) -> int
    decreases k,
{
    if k <= 0 {
        init
    } else {
        let prev = pair_sum(sk, msgs, my, k - 1, init, part);
        if msgs[k - 1].dealer_idx != my {
            let x = received_pair(sk, msgs, my, k - 1);
            modl(prev + if part == 0 { x.0 } else { x.1 })
        } else {
            prev
        }
    }
}

/// Every other dealer sent receiver `my` a pair, and it opens that dealer's
/// commitment polynomial evaluated at `my`.
pub open spec fn all_pairs_open<P>(sk: int, msgs: Seq<Round1Broadcast<P>>, my: usize) -> bool {
    forall|i: int|
        0 <= i < msgs.len() && msgs[i].dealer_idx != my ==> {
            &&& (#[trigger] opened_share(sk, &msgs[i].encrypted_shares, my)) is Some
            &&& modl(pow_sum(com_dlogs(msgs[i].pedvss@), my as int, msgs[i].pedvss@.len() as int))
                == com_dlog(received_pair(sk, msgs, my, i).0, received_pair(sk, msgs, my, i).1)
        }
}

/// Pair `d` was opened, and it opens the commitment polynomial `cs`
/// evaluated at `x`.
pub open spec fn pair_opens_at(cs: Seq<PedersenCommitment>, x: int, d: Option<(Scalar, Scalar)>) -> bool {
    &&& d is Some
    &&& modl(pow_sum(com_dlogs(cs), x, cs.len() as int)) == com_dlog(d.unwrap().0@, d.unwrap().1@)
}

/// Each opened pair opens its message's commitment polynomial at `my`.
pub open spec fn each_pair_opens<P>(msgs: Seq<&Round1Broadcast<P>>, ds: Seq<Option<(Scalar, Scalar)>>, my: usize) -> bool {
    forall|q: int| 0 <= q < ds.len() ==> pair_opens_at(msgs[q].pedvss@, my as int, #[trigger] ds[q])
}

/// `e` reports the first pair that does not open: its dealer, the receiver,
/// and the pair where one was opened.
pub open spec fn opening_refused<P>(
    msgs: Seq<&Round1Broadcast<P>>,
    ds: Seq<Option<(Scalar, Scalar)>>,
    my: usize,
    sk: int,
    pk: Point,
    e: TwoRoundDkgError,
) -> bool {
    exists|q: int|
        {
            &&& 0 <= q < ds.len()
            &&& !pair_opens_at(msgs[q].pedvss@, my as int, #[trigger] ds[q])
            &&& forall|j: int| 0 <= j < q ==> pair_opens_at(msgs[j].pedvss@, my as int, ds[j])
            &&& match ds[q] {
                None => e == (TwoRoundDkgError::MissingCiphertext { dealer_idx: msgs[q].dealer_idx, receiver_idx: my }),
                Some(p) => (e matches TwoRoundDkgError::InvalidDecryptionOpening {
                    dealer_idx,
                    receiver_idx,
                    s_ji,
                    sprime_ji,
                    pi_i,
                } && dealer_idx == msgs[q].dealer_idx && receiver_idx == my && s_ji == p.0 && sprime_ji == p.1
                    && honest_decryption(msgs[q].encrypted_shares.u, sk, pk, pi_i.0, pi_i.1)),
            }
        }
}

/// Checks that each opened pair opens its dealer's commitment polynomial at
/// this party's point and adds the pairs to `init`.
fn accumulate_decrypted_shares<P>(
    state: &PartyState,
    other_msgs: &[&Round1Broadcast<P>],
    decrypted: &[Option<(Scalar, Scalar)>],
    init: (Scalar, Scalar),
) -> (r: Result<(Scalar, Scalar), TwoRoundDkgError>)
    requires
        other_msgs@.len() == decrypted@.len(),
    ensures
        r is Ok <==> each_pair_opens(other_msgs@, decrypted@, state.dealer_idx),
        r matches Ok((s, b)) ==> (s@ == opened_sum(decrypted@, decrypted@.len() as int, init.0@, 0) && b@
            == opened_sum(decrypted@, decrypted@.len() as int, init.1@, 1)),
        r matches Err(e) ==> opening_refused(other_msgs@, decrypted@, state.dealer_idx, state.enc_sk@, state.enc_pk, e),
{
    let my = state.dealer_idx;
    let my_x: u64 = my as u64;
    let expected = commit_opened(decrypted);
    let mut sum_s = init.0;
    let mut sum_sprime = init.1;
    let mut q: usize = 0;
    while q < decrypted.len()
        invariant
            q <= decrypted@.len(),
            my == state.dealer_idx,
            my_x == my,
            other_msgs@.len() == decrypted@.len(),
            expected@.len() == decrypted@.len(),
            forall|j: int|
                0 <= j < decrypted@.len() ==> (#[trigger] decrypted@[j] matches Some(p) ==> expected@[j]@ == com_dlog(p.0@, p.1@)),
            forall|j: int| 0 <= j < q ==> pair_opens_at(other_msgs@[j].pedvss@, my as int, #[trigger] decrypted@[j]),
            sum_s@ == opened_sum(decrypted@, q as int, init.0@, 0),
            sum_sprime@ == opened_sum(decrypted@, q as int, init.1@, 1),
        decreases decrypted@.len() - q,
    {
        let msg = other_msgs[q];
        let (s_ji, sprime_ji) = match decrypted[q] {
            Some(pair) => pair,
            None => {
                let e = TwoRoundDkgError::MissingCiphertext { dealer_idx: msg.dealer_idx, receiver_idx: my };
                assert(!pair_opens_at(other_msgs@[q as int].pedvss@, my as int, decrypted@[q as int]));
                return Err(e);
            },
        };
        let c = evaluate_pedvss_at(msg.pedvss.as_slice(), my_x);
        if !c.point().equals(&expected[q]) {
            let pi_i = prove_decryption(&state.enc_sk, &state.enc_pk, &msg.encrypted_shares.u);
            assert(!pair_opens_at(other_msgs@[q as int].pedvss@, my as int, decrypted@[q as int]));
            return Err(
                TwoRoundDkgError::InvalidDecryptionOpening {
                    dealer_idx: msg.dealer_idx,
                    receiver_idx: my,
                    s_ji,
                    sprime_ji,
                    pi_i: Box::new(pi_i),
                },
            );
        }
        sum_s = sum_s.add(&s_ji);
        sum_sprime = sum_sprime.add(&sprime_ji);
        q = q + 1;
    }
    Ok((sum_s, sum_sprime))
}

/// Message `i`, when it is not from `my`, holds place
/// `others_in(msgs, my, i).len()` among those not from `my`.
proof fn lemma_place_of<P>(msgs: Seq<Round1Broadcast<P>>, my: usize, i: int)
    requires
        0 <= i < msgs.len(),
        msgs[i].dealer_idx != my,
    ensures
        others_in(msgs, my, i).len() < others_in(msgs, my, msgs.len() as int).len(),
        others_in(msgs, my, msgs.len() as int)[others_in(msgs, my, i).len() as int] == i,
{
    lemma_others_in(msgs, my, i + 1, msgs.len() as int);
    let l = others_in(msgs, my, i).len() as int;
    assert(others_in(msgs, my, i + 1) == others_in(msgs, my, i).push(i));
    assert(others_in(msgs, my, i + 1)[l] == i);
    assert(others_in(msgs, my, i + 1)[l] == others_in(msgs, my, msgs.len() as int)[l]);
}

/// Summing the pairs in the order of the other dealers' messages is summing
/// what the receiver opens from each of them.
proof fn lemma_pair_sum<P>(
    sk: int,
    msgs: Seq<Round1Broadcast<P>>,
    my: usize,
    ds: Seq<Option<(Scalar, Scalar)>>,
    k: int,
    init: int,
    part: int,
)
    requires
        0 <= k <= msgs.len(),
        ds.len() == others_in(msgs, my, msgs.len() as int).len(),
        forall|j: int|
            0 <= j < ds.len() ==> (#[trigger] ds[j]) is Some && crate::encryption::elgamal::opened_values(ds)[j]
                == opened_share(sk, &msgs[others_in(msgs, my, msgs.len() as int)[j]].encrypted_shares, my),
    ensures
        others_in(msgs, my, k).len() <= ds.len(),
        pair_sum(sk, msgs, my, k, init, part) == opened_sum(ds, others_in(msgs, my, k).len() as int, init, part),
    decreases k,
{
    lemma_others_in(msgs, my, k, msgs.len() as int);
    if k > 0 {
        lemma_pair_sum(sk, msgs, my, ds, k - 1, init, part);
        if msgs[k - 1].dealer_idx != my {
            lemma_place_of(msgs, my, k - 1);
            let l = others_in(msgs, my, k - 1).len() as int;
            assert(others_in(msgs, my, k) == others_in(msgs, my, k - 1).push(k - 1));
            assert(ds[l] is Some);
            assert(crate::encryption::elgamal::opened_values(ds)[l] == opened_share(sk, &msgs[k - 1].encrypted_shares, my));
        }
    }
}

/// What an error of the decryption step reports of the round-one broadcasts
/// `msgs` to receiver `my` with key `sk`: a dealer whose proof of knowledge
/// fails on its own (or, when none does though the batched check failed,
/// dealer `0`, and then some other dealer's proof of knowledge is not honestly
/// made), a dealer that sent `my` no pair, or a dealer whose pair for
/// `my` does not open its commitment polynomial at `my`.
pub open spec fn round1_decryption_blames<P>(e: TwoRoundDkgError, sk: int, pk: Point, my: usize, msgs: Seq<Round1Broadcast<P>>) -> bool {
    match e {
        TwoRoundDkgError::InvalidEncryptionProof { dealer_idx } => (dealer_idx == 0 && exists|i: int|
            #![trigger msgs[i]]
            0 <= i < msgs.len() && msgs[i].dealer_idx != my && !is_honest_pok(
                msgs[i].encrypted_shares.u,
                msgs[i].encrypted_shares.u@,
                msgs[i].encrypted_shares.pok,
            )) || exists|i: int|
            #![trigger msgs[i]]
            0 <= i < msgs.len() && msgs[i].dealer_idx == dealer_idx && dealer_idx != my && !batch_check(
                seq![(msgs[i].encrypted_shares.u, msgs[i].encrypted_shares.pok)],
            ),
        TwoRoundDkgError::MissingCiphertext { dealer_idx, receiver_idx } => receiver_idx == my && exists|i: int|
            #![trigger msgs[i]]
            0 <= i < msgs.len() && msgs[i].dealer_idx == dealer_idx && dealer_idx != my && opened_share(
                sk,
                &msgs[i].encrypted_shares,
                my,
            ) is None,
        TwoRoundDkgError::InvalidDecryptionOpening { dealer_idx, receiver_idx, s_ji, sprime_ji, pi_i } => receiver_idx
            == my && exists|i: int|
            #![trigger msgs[i]]
            0 <= i < msgs.len() && msgs[i].dealer_idx == dealer_idx && dealer_idx != my && opened_share(
                sk,
                &msgs[i].encrypted_shares,
                my,
            ) == Some((s_ji@, sprime_ji@)) && !pair_opens_at(msgs[i].pedvss@, my as int, Some((s_ji, sprime_ji)))
                && honest_decryption(msgs[i].encrypted_shares.u, sk, pk, pi_i.0, pi_i.1),
        _ => false,
    }
}

fn decrypt_and_accumulate<P>(state: &PartyState, valid_round1: &[Round1Broadcast<P>], init: (Scalar, Scalar)) -> (r: Result<(Scalar, Scalar), TwoRoundDkgError>)
    ensures
        r matches Ok((s, b)) ==> {
            &&& all_pairs_open(state.enc_sk@, valid_round1@, state.dealer_idx)
            &&& s@ == pair_sum(state.enc_sk@, valid_round1@, state.dealer_idx, valid_round1@.len() as int, init.0@, 0)
            &&& b@ == pair_sum(state.enc_sk@, valid_round1@, state.dealer_idx, valid_round1@.len() as int, init.1@, 1)
        },
        r matches Err(e) ==> round1_decryption_blames(e, state.enc_sk@, state.enc_pk, state.dealer_idx, valid_round1@),
{
    let my = state.dealer_idx;
    let ghost msgs = valid_round1@;
    let ghost sk = state.enc_sk@;
    let mut other_msgs: Vec<&Round1Broadcast<P>> = Vec::new();
    let mut batches: Vec<&BatchEncryptedShares> = Vec::new();
    let mut i: usize = 0;
    while i < valid_round1.len()
        invariant
            i <= msgs.len(),
            msgs == valid_round1@,
            batches@.len() == other_msgs@.len(),
            batches@.len() == others_in(msgs, my, i as int).len(),
            forall|q: int|
                0 <= q < batches@.len() ==> *(#[trigger] batches@[q]) == msgs[others_in(msgs, my, i as int)[q]].encrypted_shares,
            forall|q: int|
                0 <= q < other_msgs@.len() ==> *(#[trigger] other_msgs@[q]) == msgs[others_in(msgs, my, i as int)[q]]
                    && other_msgs@[q].dealer_idx != my,
        decreases msgs.len() - i,
    {
        if valid_round1[i].dealer_idx != my {
            other_msgs.push(&valid_round1[i]);
            batches.push(&valid_round1[i].encrypted_shares);
        }
        i = i + 1;
    }
    let decrypted = match decrypt_my_shares(&state.enc_sk, batches.as_slice(), my) {
        Ok(d) => d,
        Err(failed) => {
            let dealer_idx = if failed.len() > 0 && failed[0] < other_msgs.len() {
                proof {
                    crate::encryption::elgamal::lemma_failing_batches(batches@);
                    lemma_others_in(msgs, my, msgs.len() as int, msgs.len() as int);
                    let f0 = failed@[0] as int;
                    let i0 = others_in(msgs, my, msgs.len() as int)[f0];
                    assert(*batches@[f0] == msgs[i0].encrypted_shares);
                    assert(*other_msgs@[f0] == msgs[i0]);
                    assert(msgs[i0].dealer_idx == other_msgs@[f0].dealer_idx);
                }
                other_msgs[failed[0]].dealer_idx
            } else {
                proof {
                    let pairs = crate::encryption::elgamal::batch_pairs(batches@);
                    if crate::encryption::elgamal::pairs_honest(pairs) {
                        crate::encryption::elgamal::lemma_batch_check_honest(pairs);
                    }
                    let q = choose|q: int| 0 <= q < pairs.len() && !is_honest_pok((#[trigger] pairs[q]).0, pairs[q].0@, pairs[q].1);
                    lemma_others_in(msgs, my, msgs.len() as int, msgs.len() as int);
                    let i0 = others_in(msgs, my, msgs.len() as int)[q];
                    assert(*batches@[q] == msgs[i0].encrypted_shares);
                    assert(*other_msgs@[q] == msgs[i0]);
                    assert(pairs[q] == (msgs[i0].encrypted_shares.u, msgs[i0].encrypted_shares.pok));
                }
                0
            };
            return Err(TwoRoundDkgError::InvalidEncryptionProof { dealer_idx });
        },
    };
    let ghost pos = others_in(msgs, my, msgs.len() as int);
    proof {
        lemma_others_in(msgs, my, msgs.len() as int, msgs.len() as int);
    }
    let r = accumulate_decrypted_shares(state, other_msgs.as_slice(), decrypted.as_slice(), init);
    proof {
        if r is Err {
            let e = r->Err_0;
            let ds = decrypted@;
            let q = choose|q: int|
                {
                    &&& 0 <= q < ds.len()
                    &&& !pair_opens_at(other_msgs@[q].pedvss@, my as int, #[trigger] ds[q])
                    &&& forall|j: int| 0 <= j < q ==> pair_opens_at(other_msgs@[j].pedvss@, my as int, ds[j])
                    &&& match ds[q] {
                        None => e == (TwoRoundDkgError::MissingCiphertext { dealer_idx: other_msgs@[q].dealer_idx, receiver_idx: my }),
                        Some(p) => (e matches TwoRoundDkgError::InvalidDecryptionOpening {
                            dealer_idx,
                            receiver_idx,
                            s_ji,
                            sprime_ji,
                            pi_i,
                        } && dealer_idx == other_msgs@[q].dealer_idx && receiver_idx == my && s_ji == p.0 && sprime_ji == p.1
                            && honest_decryption(other_msgs@[q].encrypted_shares.u, sk, state.enc_pk, pi_i.0, pi_i.1)),
                    }
                };
            let i0 = pos[q];
            assert(*other_msgs@[q] == msgs[i0]);
            assert(*batches@[q] == msgs[i0].encrypted_shares);
            assert(crate::encryption::elgamal::opened_values(ds)[q] == opened_share(sk, batches@[q], my));
            assert(round1_decryption_blames(e, sk, state.enc_pk, my, msgs));
        }
        if r is Ok {
            let ds = decrypted@;
            assert forall|j: int| 0 <= j < ds.len() implies (#[trigger] ds[j]) is Some
                && crate::encryption::elgamal::opened_values(ds)[j] == opened_share(sk, &msgs[pos[j]].encrypted_shares, my) by {
                assert(pair_opens_at(other_msgs@[j].pedvss@, my as int, ds[j]));
            }
            lemma_pair_sum(sk, msgs, my, ds, msgs.len() as int, init.0@, 0);
            lemma_pair_sum(sk, msgs, my, ds, msgs.len() as int, init.1@, 1);
            assert forall|i: int| 0 <= i < msgs.len() && msgs[i].dealer_idx != my implies {
                &&& (#[trigger] opened_share(sk, &msgs[i].encrypted_shares, my)) is Some
                &&& modl(pow_sum(com_dlogs(msgs[i].pedvss@), my as int, msgs[i].pedvss@.len() as int))
                    == com_dlog(received_pair(sk, msgs, my, i).0, received_pair(sk, msgs, my, i).1)
            } by {
                lemma_place_of(msgs, my, i);
                let j = others_in(msgs, my, i).len() as int;
                assert(pos[j] == i);
                assert(ds[j] is Some);
                assert(pair_opens_at(other_msgs@[j].pedvss@, my as int, ds[j]));
                assert(crate::encryption::elgamal::opened_values(ds)[j] == opened_share(sk, &msgs[i].encrypted_shares, my));
            }
        }
    }
    r
}

/// `D = g^omega h^r` of a dealer's local state.
fn local_d(local: &Round1LocalState) -> (r: PedersenCommitment)
    ensures
        r@ == com_dlog(local.omega@, local.r@),
{
    PedersenCommitment::new(local.omega, local.r)
}

fn build_round2_output(
    state: &PartyState,
    local: &Round1LocalState,
    sum_s_i: Scalar,
    sum_sprime_i: Scalar,
    verified_round1: VerifiedRound1Cache,
) -> (r: (Round2Broadcast, Round2LocalState))
    requires
        state.dealer_idx < verified_round1.c_stars@.len(),
    ensures
        r.0.dealer_idx == state.dealer_idx,
        r.0.pk == local.pk,
        r.0.pk_proof == local.pk_proof,
        r.0.vk_i@ == com_dlog(sum_s_i@, local.omega@),
        exists|d: PedersenCommitment, a: Seq<int>|
            d@ == com_dlog(local.omega@, local.r@) && comeq_honest(
                (ComEqStatement { c: verified_round1.c_stars@[state.dealer_idx as int], vk: r.0.vk_i, d }),
                (ComEqWitness { s: sum_s_i, s_prime: sum_sprime_i, omega: local.omega, r: local.r }),
                r.0.comeq_proof,
                a,
            ),
        r.0.signature.bytes@ == ed25519_signature(state.sig_sk.bytes@, round2_signed_bytes(r.0)),
        signed_by(state.sig_sk.bytes@, round2_signed_bytes(r.0), r.0.signature.bytes@),
        r.1.s_i == sum_s_i,
        r.1.omega == local.omega,
        r.1.verified_round1 == verified_round1,
{
    let vk_i = PedersenCommitment::new(sum_s_i, local.omega);
    let stmt = ComEqStatement {
        c: verified_round1.c_stars[state.dealer_idx],
        vk: vk_i,
        d: local_d(local),
    };
    let wit = ComEqWitness { s: sum_s_i, s_prime: sum_sprime_i, omega: local.omega, r: local.r };
    let comeq_proof = ComEqProof::prove(&stmt, &wit);
    let broadcast = Round2Broadcast::new(state.dealer_idx, local.pk, local.pk_proof, vk_i, comeq_proof, &state.sig_sk);
    let local2 = Round2LocalState { s_i: sum_s_i, omega: local.omega, verified_round1 };
    (broadcast, local2)
}


/// The local state from round two fits `n` parties and this party's index.
pub open spec fn output_params_ok(params: DkgParams, my: usize, local2: Round2LocalState) -> bool {
    &&& params.n > 0
    &&& 1 <= my <= params.n
    &&& local2.verified_round1.by_idx@.len() == params.n + 1
    &&& local2.verified_round1.c_stars@.len() == params.n + 1
}

fn validate_output_params(params: &DkgParams, my_idx: usize, local2: &Round2LocalState) -> (r: Result<(), TwoRoundDkgError>)
    ensures
        r is Ok <==> output_params_ok(*params, my_idx, *local2),
        r is Ok ==> params.n < usize::MAX,
        r matches Err(e) ==> e is InvalidParameters,
{
    let by_idx_len = local2.verified_round1.by_idx.len();
    let c_stars_len = local2.verified_round1.c_stars.len();
    if params.n == 0 || my_idx == 0 || my_idx > params.n || params.n == usize::MAX
        || by_idx_len != params.n + 1 || c_stars_len != params.n + 1 {
        return Err(TwoRoundDkgError::InvalidParameters);
    }
    Ok(())
}

/// The signature of a round-two broadcast verifies under its sender's key.
pub open spec fn round2_signature_ok(parties: Parties, m: Round2Broadcast) -> bool {
    ed25519_verify_strict(parties.parties@[m.dealer_idx - 1].sig_pk.bytes@, round2_signed_bytes(m), m.signature.bytes@)
}

/// The position of the last message from dealer `d` among the first `j`.
pub open spec fn last_from(ms: Seq<Round2Broadcast>, d: int, j: int) -> Option<int>
    decreases j,
{
    if j <= 0 {
        None
    } else if ms[j - 1].dealer_idx == d {
        Some(j - 1)
    } else {
        last_from(ms, d, j - 1)
    }
}

pub(crate) proof fn lemma_last_from(ms: Seq<Round2Broadcast>, d: int, j: int)
    requires
        0 <= j <= ms.len(),
    ensures
        last_from(ms, d, j) matches Some(i) ==> 0 <= i < j && ms[i].dealer_idx == d,
        last_from(ms, d, j) is None ==> forall|i: int| 0 <= i < j ==> ms[i].dealer_idx != d,
    decreases j,
{
    if j > 0 {
        lemma_last_from(ms, d, j - 1);
    }
}

fn index_round2_msgs<'a>(params: &DkgParams, round2_msgs: &'a [Round2Broadcast], parties: &Parties) -> (r: Result<
    Vec<Option<&'a Round2Broadcast>>,
    TwoRoundDkgError,
>)
    requires
        params.n < usize::MAX,
        parties.parties@.len() >= params.n,
        forall|i: int| 0 <= i < round2_msgs@.len() ==> 1 <= (#[trigger] round2_msgs@[i]).dealer_idx <= params.n,
    ensures
        r is Ok <==> forall|i: int| 0 <= i < round2_msgs@.len() ==> round2_signature_ok(*parties, #[trigger] round2_msgs@[i]),
        r matches Err(e) ==> (e matches TwoRoundDkgError::InvalidSignature { dealer_idx } && exists|i: int|
            0 <= i < round2_msgs@.len() && round2_msgs@[i].dealer_idx == dealer_idx && !round2_signature_ok(
                *parties,
                #[trigger] round2_msgs@[i],
            )),
        r matches Err(e) ==> first_bad_signature(round2_msgs@, *parties, 0) matches Some(i) && e == (TwoRoundDkgError::InvalidSignature { dealer_idx: round2_msgs@[i].dealer_idx }),
        r is Ok ==> first_bad_signature(round2_msgs@, *parties, 0) is None,
        r matches Ok(v) ==> {
            &&& v@.len() == params.n + 1
            &&& forall|d: int|
                0 <= d <= params.n ==> match #[trigger] v@[d] {
                    Some(m) => last_from(round2_msgs@, d, round2_msgs@.len() as int) matches Some(i) && *m == round2_msgs@[i],
                    None => last_from(round2_msgs@, d, round2_msgs@.len() as int) is None,
                }
        },
{
    let n = params.n;
    let mut by_idx: Vec<Option<&'a Round2Broadcast>> = Vec::new();
    let mut k: usize = 0;
    while k <= n
        invariant
            k <= n + 1,
            n < usize::MAX,
            by_idx@.len() == k,
            forall|q: int| 0 <= q < k ==> #[trigger] by_idx@[q] is None,
        decreases n + 1 - k,
    {
        by_idx.push(None);
        k = k + 1;
    }
    let ghost ms = round2_msgs@;
    let mut i: usize = 0;
    while i < round2_msgs.len()
        invariant
            i <= ms.len(),
            ms == round2_msgs@,
            n == params.n,
            parties.parties@.len() >= n,
            by_idx@.len() == n + 1,
            forall|j: int| 0 <= j < ms.len() ==> 1 <= (#[trigger] ms[j]).dealer_idx <= n,
            forall|j: int| 0 <= j < i ==> round2_signature_ok(*parties, #[trigger] ms[j]),
            forall|d: int|
                0 <= d <= n ==> match #[trigger] by_idx@[d] {
                    Some(m) => last_from(ms, d, i as int) matches Some(j) && *m == ms[j],
                    None => last_from(ms, d, i as int) is None,
                },
        decreases ms.len() - i,
    {
        let msg = &round2_msgs[i];
        if !msg.verify(parties.sig_pk(msg.dealer_idx)) {
            proof {
                lemma_first_bad_signature(ms, *parties, 0, i as int);
            }
            return Err(TwoRoundDkgError::InvalidSignature { dealer_idx: msg.dealer_idx });
        }
        by_idx.set(msg.dealer_idx, Some(msg));
        i = i + 1;
    }
    proof {
        lemma_first_bad_signature(ms, *parties, 0, ms.len() as int);
    }
    Ok(by_idx)
}

/// A round-two broadcast passes against what round one fixed: its proof
/// that `pk` matches `C_0`, and its proof that `vk_i` shares openings with
/// `C*_i` and `D`.
#[verifier::opaque]
pub open spec fn round2_msg_ok(r1: VerifiedRound1Info, r2: Round2Broadcast, c_star: PedersenCommitment) -> bool {
    &&& pk_valid(PkStatement { pk: r2.pk, commitment: r1.c_0 }, r2.pk_proof)
    &&& comeq_valid(ComEqStatement { c: c_star, vk: r2.vk_i, d: r1.d_commitment }, r2.comeq_proof)
}

fn verify_round2_msg(
    dealer_idx: usize,
    r1: &VerifiedRound1Info,
    r2: &Round2Broadcast,
    c_star: &PedersenCommitment,
) -> (r: Result<(), TwoRoundDkgError>)
    ensures
        r is Ok <==> round2_msg_ok(*r1, *r2, *c_star),
        !pk_valid((PkStatement { pk: r2.pk, commitment: r1.c_0 }), r2.pk_proof) ==> (r matches Err(
            TwoRoundDkgError::InvalidPkProof { dealer_idx: d },
        ) && d == dealer_idx),
        pk_valid((PkStatement { pk: r2.pk, commitment: r1.c_0 }), r2.pk_proof) && !round2_msg_ok(*r1, *r2, *c_star)
            ==> (r matches Err(TwoRoundDkgError::InvalidComEqProof { dealer_idx: d }) && d == dealer_idx),
{
    proof {
        reveal(round2_msg_ok);
    }
    if !r2.pk_proof.verify(&PkStatement { pk: r2.pk, commitment: r1.c_0 }) {
        return Err(TwoRoundDkgError::InvalidPkProof { dealer_idx });
    }
    if !r2.comeq_proof.verify(&ComEqStatement { c: *c_star, vk: r2.vk_i, d: r1.d_commitment }) {
        return Err(TwoRoundDkgError::InvalidComEqProof { dealer_idx });
    }
    Ok(())
}

/// Every dealer `1..n` has a verified round-one broadcast and a round-two
/// broadcast (the last one it sent) that passes against it.
pub open spec fn round2_all_ok(n: int, c: VerifiedRound1Cache, ms: Seq<Round2Broadcast>) -> bool {
    forall|d: int|
        1 <= d <= n ==> {
            &&& #[trigger] c.by_idx@[d] is Some
            &&& last_from(ms, d, ms.len() as int) is Some
            &&& round2_msg_ok(c.by_idx@[d].unwrap(), ms[last_from(ms, d, ms.len() as int).unwrap()], c.c_stars@[d])
        }
}

/// The round-two broadcast that counts for dealer `d`.
pub open spec fn counted(ms: Seq<Round2Broadcast>, d: int) -> Round2Broadcast {
    ms[last_from(ms, d, ms.len() as int).unwrap()]
}

/// `sum_{d <= k} pk_d` over the counted broadcasts, reduced at every step.
pub open spec fn pk_sum(ms: Seq<Round2Broadcast>, k: int) -> int
    decreases k,
{
    if k <= 0 {
        0
    } else {
        modl(pk_sum(ms, k - 1) + counted(ms, k).pk@)
    }
}

/// What a party outputs after both rounds.
pub open spec fn round2_output(out: DkgOutput, my: usize, n: int, local2: Round2LocalState, ms: Seq<Round2Broadcast>) -> bool {
    &&& out.idx == my
    &&& out.secret_share == local2.s_i
    &&& out.blinding_share == local2.omega
    &&& out.public_key@ == pk_sum(ms, n)
    &&& out.partial_verification_keys@.len() == n
    &&& forall|k: int| 0 <= k < n ==> #[trigger] out.partial_verification_keys@[k] == counted(ms, k + 1).vk_i
}

/// Checks the round-two broadcast that counts for dealer `d`.
/// What an error about dealer `d`'s round-two broadcast `r2` reports, against
/// what round one fixed for `d` (`r1`) and the combined commitment `c_star`:
/// one of the two is missing, or the proof that `pk` matches `C_0` fails, or
/// that one passes and the proof that `vk_i` shares openings with `C*` and
/// `D` fails.
pub open spec fn dealer_round2_blames(
    e: TwoRoundDkgError,
    d: int,
    r1: Option<VerifiedRound1Info>,
    r2: Option<Round2Broadcast>,
    c_star: PedersenCommitment,
) -> bool {
    match e {
        TwoRoundDkgError::MissingRound2Message { dealer_idx } => dealer_idx == d && (r1 is None || r2 is None),
        TwoRoundDkgError::InvalidPkProof { dealer_idx } => dealer_idx == d && r1 is Some && r2 is Some && !pk_valid(
            (PkStatement { pk: r2.unwrap().pk, commitment: r1.unwrap().c_0 }),
            r2.unwrap().pk_proof,
        ),
        TwoRoundDkgError::InvalidComEqProof { dealer_idx } => dealer_idx == d && r1 is Some && r2 is Some && pk_valid(
            (PkStatement { pk: r2.unwrap().pk, commitment: r1.unwrap().c_0 }),
            r2.unwrap().pk_proof,
        ) && !comeq_valid(
            (ComEqStatement { c: c_star, vk: r2.unwrap().vk_i, d: r1.unwrap().d_commitment }),
            r2.unwrap().comeq_proof,
        ),
        _ => false,
    }
}

/// The round-two broadcast that counts for dealer `d`, if any.
pub open spec fn counted_opt(ms: Seq<Round2Broadcast>, d: int) -> Option<Round2Broadcast> {
    match last_from(ms, d, ms.len() as int) {
        Some(i) => Some(ms[i]),
        None => None,
    }
}

/// The error the output phase reports for dealer `d`, if any: a missing
/// verified round-one broadcast or round-two broadcast, else a failing proof
/// that `pk` matches `C_0`, else a failing proof that `vk_i` shares openings
/// with `C*` and `D`.
pub open spec fn dealer_error(
    d: int,
    r1: Option<VerifiedRound1Info>,
    r2: Option<Round2Broadcast>,
    c_star: PedersenCommitment,
) -> Option<TwoRoundDkgError> {
    if r1 is None || r2 is None {
        Some(TwoRoundDkgError::MissingRound2Message { dealer_idx: d as usize })
    } else if !pk_valid((PkStatement { pk: r2.unwrap().pk, commitment: r1.unwrap().c_0 }), r2.unwrap().pk_proof) {
        Some(TwoRoundDkgError::InvalidPkProof { dealer_idx: d as usize })
    } else if !comeq_valid(
        (ComEqStatement { c: c_star, vk: r2.unwrap().vk_i, d: r1.unwrap().d_commitment }),
        r2.unwrap().comeq_proof,
    ) {
        Some(TwoRoundDkgError::InvalidComEqProof { dealer_idx: d as usize })
    } else {
        None
    }
}

/// The position of the first round-two broadcast from `i` on whose
/// signature fails.
pub open spec fn first_bad_signature(ms: Seq<Round2Broadcast>, parties: Parties, i: int) -> Option<int>
    decreases ms.len() - i,
{
    if i < 0 || i >= ms.len() {
        None
    } else if !round2_signature_ok(parties, ms[i]) {
        Some(i)
    } else {
        first_bad_signature(ms, parties, i + 1)
    }
}

/// The error of the first dealer from `d` to `n` that fails its check.
pub open spec fn first_dealer_error(c: VerifiedRound1Cache, ms: Seq<Round2Broadcast>, n: int, d: int) -> Option<TwoRoundDkgError>
    decreases n + 1 - d,
{
    if d < 1 || d > n {
        None
    } else {
        match dealer_error(d, c.by_idx@[d], counted_opt(ms, d), c.c_stars@[d]) {
            Some(e) => Some(e),
            None => first_dealer_error(c, ms, n, d + 1),
        }
    }
}

/// The error the output phase reports, if any: bad parameters, else the
/// dealer of the first round-two broadcast whose signature fails, else the
/// error of the first dealer whose broadcasts fail their check.
pub open spec fn output_error_of(
    params: DkgParams,
    my: usize,
    local2: Round2LocalState,
    ms: Seq<Round2Broadcast>,
    parties: Parties,
) -> Option<TwoRoundDkgError> {
    if !output_params_ok(params, my, local2) {
        Some(TwoRoundDkgError::InvalidParameters)
    } else {
        match first_bad_signature(ms, parties, 0) {
            Some(i) => Some(TwoRoundDkgError::InvalidSignature { dealer_idx: ms[i].dealer_idx }),
            None => first_dealer_error(local2.verified_round1, ms, params.n as int, 1),
        }
    }
}

/// What the output phase returns: the error `output_error_of` names, or,
/// when it names none, the output of the counted round-two broadcasts.
pub open spec fn output_result(
    r: Result<DkgOutput, TwoRoundDkgError>,
    params: DkgParams,
    my: usize,
    local2: Round2LocalState,
    ms: Seq<Round2Broadcast>,
    parties: Parties,
) -> bool {
    match r {
        Ok(out) => output_error_of(params, my, local2, ms, parties) is None && round2_output(out, my, params.n as int, local2, ms),
        Err(e) => output_error_of(params, my, local2, ms, parties) == Some(e),
    }
}

/// A bad signature at `i`, after none before it, is the first one.
pub(crate) proof fn lemma_first_bad_signature(ms: Seq<Round2Broadcast>, parties: Parties, j: int, i: int)
    requires
        0 <= j <= i <= ms.len(),
        forall|k: int| j <= k < i ==> round2_signature_ok(parties, #[trigger] ms[k]),
    ensures
        first_bad_signature(ms, parties, j) == first_bad_signature(ms, parties, i),
    decreases i - j,
{
    if j < i {
        assert(round2_signature_ok(parties, ms[j]));
        lemma_first_bad_signature(ms, parties, j + 1, i);
    }
}

/// A failing dealer `e`, after none from `d` on, is the first one.
pub(crate) proof fn lemma_first_dealer_error(c: VerifiedRound1Cache, ms: Seq<Round2Broadcast>, n: int, d: int, e: int)
    requires
        1 <= d <= e <= n + 1,
        forall|k: int| d <= k < e ==> #[trigger] dealer_error(k, c.by_idx@[k], counted_opt(ms, k), c.c_stars@[k]) is None,
    ensures
        first_dealer_error(c, ms, n, d) == first_dealer_error(c, ms, n, e),
    decreases e - d,
{
    if d < e {
        assert(dealer_error(d, c.by_idx@[d], counted_opt(ms, d), c.c_stars@[d]) is None);
        lemma_first_dealer_error(c, ms, n, d + 1, e);
    }
}

fn check_dealer(d: usize, local2: &Round2LocalState, entry: Option<&Round2Broadcast>) -> (r: Result<(), TwoRoundDkgError>)
    requires
        d < local2.verified_round1.by_idx@.len(),
        d < local2.verified_round1.c_stars@.len(),
    ensures
        match r {
            Ok(()) => dealer_error(
                d as int,
                local2.verified_round1.by_idx@[d as int],
                match entry {
                    Some(m) => Some(*m),
                    None => None,
                },
                local2.verified_round1.c_stars@[d as int],
            ) is None,
            Err(e) => dealer_error(
                d as int,
                local2.verified_round1.by_idx@[d as int],
                match entry {
                    Some(m) => Some(*m),
                    None => None,
                },
                local2.verified_round1.c_stars@[d as int],
            ) == Some(e),
        },
        r is Ok <==> {
            &&& local2.verified_round1.by_idx@[d as int] is Some
            &&& entry is Some
            &&& round2_msg_ok(local2.verified_round1.by_idx@[d as int].unwrap(), *entry.unwrap(), local2.verified_round1.c_stars@[d as int])
        },
        r matches Err(e) ==> dealer_round2_blames(
            e,
            d as int,
            local2.verified_round1.by_idx@[d as int],
            match entry {
                Some(m) => Some(*m),
                None => None,
            },
            local2.verified_round1.c_stars@[d as int],
        ),
{
    proof {
        reveal(round2_msg_ok);
    }
    let r1 = match &local2.verified_round1.by_idx[d] {
        Some(r1) => r1,
        None => {
            return Err(TwoRoundDkgError::MissingRound2Message { dealer_idx: d });
        },
    };
    let r2 = match entry {
        Some(r2) => r2,
        None => {
            return Err(TwoRoundDkgError::MissingRound2Message { dealer_idx: d });
        },
    };
    verify_round2_msg(d, r1, r2, &local2.verified_round1.c_stars[d])
}

/// What an error of the output phase reports: bad parameters, the dealer of
/// a round-two broadcast whose signature fails, or, for a dealer in range,
/// what is wrong with the round-two broadcast that counts for it.
pub open spec fn round2_output_blames(
    e: TwoRoundDkgError,
    params: DkgParams,
    my: usize,
    local2: Round2LocalState,
    ms: Seq<Round2Broadcast>,
    parties: Parties,
) -> bool {
    let c = local2.verified_round1;
    match e {
        TwoRoundDkgError::InvalidParameters => !output_params_ok(params, my, local2),
        TwoRoundDkgError::InvalidSignature { dealer_idx } => exists|i: int|
            0 <= i < ms.len() && ms[i].dealer_idx == dealer_idx && !round2_signature_ok(parties, #[trigger] ms[i]),
        TwoRoundDkgError::MissingRound2Message { dealer_idx } => 1 <= dealer_idx <= params.n && dealer_round2_blames(
            e,
            dealer_idx as int,
            c.by_idx@[dealer_idx as int],
            counted_opt(ms, dealer_idx as int),
            c.c_stars@[dealer_idx as int],
        ),
        TwoRoundDkgError::InvalidPkProof { dealer_idx } => 1 <= dealer_idx <= params.n && dealer_round2_blames(
            e,
            dealer_idx as int,
            c.by_idx@[dealer_idx as int],
            counted_opt(ms, dealer_idx as int),
            c.c_stars@[dealer_idx as int],
        ),
        TwoRoundDkgError::InvalidComEqProof { dealer_idx } => 1 <= dealer_idx <= params.n && dealer_round2_blames(
            e,
            dealer_idx as int,
            c.by_idx@[dealer_idx as int],
            counted_opt(ms, dealer_idx as int),
            c.c_stars@[dealer_idx as int],
        ),
        _ => false,
    }
}

/// Output phase: checks every round-two broadcast against the verified
/// round-one data, then sums the public keys and collects the verification
/// keys. Every error names what misbehaved.
pub fn dkg_output<S: DecomProofScheme<Statement = DecomStatement, Witness = DecomWitness>>(
    params: &DkgParams,
    decom_params: &S::Params,
    state: &PartyState,
    local2: &Round2LocalState,
    round1_msgs: &[Round1Broadcast<S::Proof>],
    round2_msgs: &[Round2Broadcast],
    parties: &Parties,
) -> (r: Result<DkgOutput, TwoRoundDkgError>)
    requires
        output_params_ok(*params, state.dealer_idx, *local2) ==> parties.parties@.len() >= params.n
            && forall|i: int| 0 <= i < round2_msgs@.len() ==> 1 <= (#[trigger] round2_msgs@[i]).dealer_idx <= params.n,
    ensures
        r is Ok <==> {
            &&& output_params_ok(*params, state.dealer_idx, *local2)
            &&& forall|i: int| 0 <= i < round2_msgs@.len() ==> round2_signature_ok(*parties, #[trigger] round2_msgs@[i])
            &&& round2_all_ok(params.n as int, local2.verified_round1, round2_msgs@)
        },
        !output_params_ok(*params, state.dealer_idx, *local2) ==> r matches Err(TwoRoundDkgError::InvalidParameters),
        r matches Ok(out) ==> round2_output(out, state.dealer_idx, params.n as int, *local2, round2_msgs@),
        r matches Err(e) ==> round2_output_blames(e, *params, state.dealer_idx, *local2, round2_msgs@, *parties),
        output_result(r, *params, state.dealer_idx, *local2, round2_msgs@, *parties),
{
    match validate_output_params(params, state.dealer_idx, local2) {
        Ok(()) => {},
        Err(e) => {
            return Err(e);
        },
    }
    let round2_by_idx = match index_round2_msgs(params, round2_msgs, parties) {
        Ok(v) => v,
        Err(e) => {
            return Err(e);
        },
    };
    let n = params.n;
    let ghost ms = round2_msgs@;
    let ghost cache = local2.verified_round1;
    let mut d: usize = 1;
    while d <= n
        invariant
            1 <= d <= n + 1,
            n == params.n,
            n < usize::MAX,
            output_params_ok(*params, state.dealer_idx, *local2),
            cache == local2.verified_round1,
            ms == round2_msgs@,
            round2_by_idx@.len() == n + 1,
            forall|q: int|
                0 <= q <= n ==> match #[trigger] round2_by_idx@[q] {
                    Some(m) => last_from(ms, q, ms.len() as int) matches Some(i) && *m == ms[i],
                    None => last_from(ms, q, ms.len() as int) is None,
                },
            forall|q: int|
                1 <= q < d ==> {
                    &&& #[trigger] cache.by_idx@[q] is Some
                    &&& last_from(ms, q, ms.len() as int) is Some
                    &&& round2_msg_ok(cache.by_idx@[q].unwrap(), ms[last_from(ms, q, ms.len() as int).unwrap()], cache.c_stars@[q])
                },
            first_bad_signature(ms, *parties, 0) is None,
            forall|q: int| 1 <= q < d ==> #[trigger] dealer_error(q, cache.by_idx@[q], counted_opt(ms, q), cache.c_stars@[q]) is None,
        decreases n + 1 - d,
    {
        proof {
            assert((match round2_by_idx@[d as int] {
                Some(m) => Some(*m),
                None => None,
            }) == counted_opt(ms, d as int));
        }
        match check_dealer(d, local2, round2_by_idx[d]) {
            Ok(()) => {},
            Err(e) => {
                proof {
                    lemma_first_dealer_error(cache, ms, n as int, 1, d as int);
                    assert(first_dealer_error(cache, ms, n as int, d as int) == Some(e));
                    let entry = round2_by_idx@[d as int];
                    let last = last_from(ms, d as int, ms.len() as int);
                    assert(!(cache.by_idx@[d as int] is Some && last is Some && round2_msg_ok(
                        cache.by_idx@[d as int].unwrap(),
                        ms[last.unwrap()],
                        cache.c_stars@[d as int],
                    )));
                }
                return Err(e);
            },
        }
        d = d + 1;
    }
    proof {
        assert forall|q: int| 1 <= q <= n implies last_from(ms, q, ms.len() as int) is Some by {
            assert(cache.by_idx@[q] is Some);
        }
        lemma_first_dealer_error(cache, ms, n as int, 1, n + 1);
    }
    let mut public_key = Point::identity();
    let mut partial_verification_keys: Vec<PedersenCommitment> = Vec::new();
    let mut d: usize = 1;
    while d <= n
        invariant
            1 <= d <= n + 1,
            n == params.n,
            n < usize::MAX,
            ms == round2_msgs@,
            round2_by_idx@.len() == n + 1,
            forall|q: int|
                0 <= q <= n ==> match #[trigger] round2_by_idx@[q] {
                    Some(m) => last_from(ms, q, ms.len() as int) matches Some(i) && *m == ms[i],
                    None => last_from(ms, q, ms.len() as int) is None,
                },
            forall|q: int| 1 <= q <= n ==> last_from(ms, q, ms.len() as int) is Some,
            public_key@ == pk_sum(ms, d - 1),
            partial_verification_keys@.len() == d - 1,
            forall|k: int| 0 <= k < d - 1 ==> #[trigger] partial_verification_keys@[k] == counted(ms, k + 1).vk_i,
        decreases n + 1 - d,
    {
        proof {
            assert(last_from(ms, d as int, ms.len() as int) is Some);
        }
        let r2 = match round2_by_idx[d] {
            Some(r2) => r2,
            None => {
                proof {
                    assert(round2_by_idx@[d as int] is None);
                    assert(false);
                }
                return Err(TwoRoundDkgError::MissingRound2Message { dealer_idx: d });
            },
        };
        public_key = public_key.add(&r2.pk);
        partial_verification_keys.push(r2.vk_i);
        d = d + 1;
    }
    Ok(DkgOutput {
        idx: state.dealer_idx,
        secret_share: local2.s_i,
        blinding_share: local2.omega,
        public_key,
        partial_verification_keys,
    })
}

/// What the decommitment proof system needs of statements and witnesses of
/// `t + 1` commitments.
/// The decommitment prover may come back without a proof on a statement of
/// this protocol's shape: `t + 1` coefficient commitments and `D`, opened by a
/// witness whose first coefficient is `share`.
pub open spec fn decom_prove_may_fail<S: DecomProofScheme<Statement = DecomStatement, Witness = DecomWitness>>(
    params: S::Params,
    share: int,
    t: int,
) -> bool {
    exists|stmt: DecomStatement, wit: DecomWitness|
        #![trigger S::prove_fails(&params, &stmt, &wit)]
        stmt.pedvss@.len() == t + 1 && decom_relation(stmt, wit) && wit.a@[0]@ == share && S::prove_fails(
            &params,
            &stmt,
            &wit,
        )
}

pub open spec fn decom_prove_ready<S: DecomProofScheme<Statement = DecomStatement, Witness = DecomWitness>>(
    params: S::Params,
    t: int,
) -> bool {
    forall|stmt: DecomStatement, wit: DecomWitness|
        stmt.pedvss@.len() == t + 1 && wit.a@.len() == t + 1 && wit.b@.len() == t + 1 ==> #[trigger] S::prove_requires(
            &params,
            &stmt,
            &wit,
        )
}

/// The broadcast and local state come from polynomials `f`, `f'` of degree
/// `t` with `f_0 = share`: `C_k = g^{f_k} h^{f'_k}`, `D = g^omega h^r`,
/// `pk = g^{share}`, and the dealer keeps `f(i)` and `f'(i)` for itself.
pub open spec fn round1_dealt<P>(b: Round1Broadcast<P>, l: Round1LocalState, f: Seq<int>, fp: Seq<int>, share: int, my: usize, t: int) -> bool {
    &&& f.len() == t + 1
    &&& fp.len() == t + 1
    &&& f[0] == share
    &&& b.pedvss@.len() == t + 1
    &&& forall|k: int| 0 <= k <= t ==> (#[trigger] b.pedvss@[k])@ == com_dlog(f[k], fp[k])
    &&& b.d_commitment@ == com_dlog(l.omega@, l.r@)
    &&& l.pk@ == modl(share)
    &&& l.my_s_ii@ == poly_eval(f, my as int)
    &&& l.my_sprime_ii@ == poly_eval(fp, my as int)
}

/// What round one hands back: a broadcast from this dealer, dealt from
/// polynomials with constant `share`, with an honest decomposition proof, an
/// honest proof that `pk` matches `C_0`, an honest proof of knowledge of the
/// encryption randomness, and the dealer's signature.
pub open spec fn round1_honest<S: DecomProofScheme<Statement = DecomStatement, Witness = DecomWitness>>(
    decom_params: S::Params,
    state: PartyState,
    share: int,
    t: int,
    b: Round1Broadcast<S::Proof>,
    l: Round1LocalState,
) -> bool where S::Proof: WireCodec {
    &&& b.dealer_idx == state.dealer_idx
    &&& exists|f: Seq<int>, fp: Seq<int>| round1_dealt(b, l, f, fp, share, state.dealer_idx, t)
    &&& exists|stmt: DecomStatement, wit: DecomWitness|
        stmt.pedvss@ == b.pedvss@ && stmt.d == b.d_commitment && wit.omega == l.omega && wit.r == l.r
            && decom_relation(stmt, wit) && S::proof_honest(&decom_params, &stmt, &wit, &b.decom_proof)
    &&& exists|w: PkWitness, aa: int, ab: int|
        w.a@ == share && pk_relation((PkStatement { pk: l.pk, commitment: b.pedvss@[0] }), w)
            && pk_honest((PkStatement { pk: l.pk, commitment: b.pedvss@[0] }), w, l.pk_proof, aa, ab)
    &&& exists|alpha: int|
        b.encrypted_shares.u@ == alpha && is_honest_pok(b.encrypted_shares.u, alpha, b.encrypted_shares.pok)
    &&& b.signature.bytes@ == ed25519_signature(state.sig_sk.bytes@, round1_signed_bytes(b))
    &&& signed_by(state.sig_sk.bytes@, round1_signed_bytes(b), b.signature.bytes@)
}

/// The evaluations of `fp` at the party points `1..n`, in order.
pub open spec fn evals_at_parties(fp: Seq<int>, n: int) -> Seq<int> {
    Seq::new(n as nat, |j: int| poly_eval(fp, j + 1))
}

/// Round one encrypted to every other party `k` the evaluations at `k` of
/// the two polynomials it dealt.
pub open spec fn round1_shares_encrypted<P>(
    b: Round1Broadcast<P>,
    l: Round1LocalState,
    share: int,
    my: usize,
    n: int,
    t: int,
    parties: Parties,
) -> bool {
    exists|f: Seq<int>, fp: Seq<int>|
        #![trigger round1_dealt(b, l, f, fp, share, my, t)]
        round1_dealt(b, l, f, fp, share, my, t) && batch_dealt(
            b.encrypted_shares,
            b.encrypted_shares.u@,
            f,
            evals_at_parties(fp, n),
            my,
            n,
            parties,
        )
}

/// Round one: deals `share` with a random polynomial of degree `t` and a
/// random blinding polynomial, commits to their coefficients, proves the
/// commitments and `D` can be opened, proves `pk = g^{share}` matches `C_0`,
/// encrypts every other party's evaluations to it, and signs the broadcast.
/// `None` only when the proof system makes no proof.
pub fn dkg_round1_initiate<S: DecomProofScheme<Statement = DecomStatement, Witness = DecomWitness>>(
    params: &DkgParams,
    decom_params: &S::Params,
    state: &PartyState,
    share: Scalar,
    parties: &Parties,
) -> (r: Option<(Round1Broadcast<S::Proof>, Round1LocalState)>) where S::Proof: WireCodec
    requires
        params.n > 0,
        params.t < params.n,
        1 <= state.dealer_idx <= params.n,
        parties.parties@.len() == params.n,
        decom_prove_ready::<S>(*decom_params, params.t as int),
    ensures
        r matches Some((b, l)) ==> round1_honest::<S>(*decom_params, *state, share@, params.t as int, b, l),
        r matches Some((b, l)) ==> round1_shares_encrypted(b, l, share@, state.dealer_idx, params.n as int, params.t as int, *parties),
        r is None ==> decom_prove_may_fail::<S>(*decom_params, share@, params.t as int),
{
    let n = params.n;
    let t = params.t;
    let my = state.dealer_idx;
    let f_coeffs = sample_random_polynomial_with_constant(t, share);
    let blinding_constant = Scalar::random();
    let fprime_coeffs = sample_random_polynomial_with_constant(t, blinding_constant);
    let ghost f = svals(f_coeffs@);
    let ghost fp = svals(fprime_coeffs@);
    let pedvss = PedersenCommitment::new_many(f_coeffs.as_slice(), fprime_coeffs.as_slice());
    assert(forall|q: int| 0 <= q <= t ==> (#[trigger] pedvss@[q])@ == com_dlog(f[q], fp[q]));
    let a0 = f_coeffs[0];
    let b0 = fprime_coeffs[0];
    let omega = Scalar::random();
    let r = Scalar::random();
    let d_commitment = PedersenCommitment::new(omega, r);
    let stmt = DecomStatement { pedvss: copy_commitments(&pedvss), d: d_commitment };
    let wit = DecomWitness { a: f_coeffs.clone(), b: fprime_coeffs.clone(), omega, r };
    assert(S::prove_requires(decom_params, &stmt, &wit));
    proof {
        assert forall|k: int| 0 <= k < stmt.pedvss@.len() implies (#[trigger] stmt.pedvss@[k])@ == com_dlog(
            wit.a@[k]@,
            wit.b@[k]@,
        ) by {
            assert(pedvss@[k]@ == com_dlog(f[k], fp[k]));
        }
        assert(decom_relation(stmt, wit));
    }
    let decom_proof = match S::prove(decom_params, &stmt, &wit) {
        Some(p) => p,
        None => {
            proof {
                assert(wit.a@[0]@ == share@);
            }
            return None;
        },
    };
    let pk = Point::basepoint_mul(&a0);
    let pk_stmt = PkStatement { pk, commitment: pedvss[0] };
    let pk_wit = PkWitness { a: a0, b: b0 };
    let pk_proof = PkProof::prove(&pk_stmt, &pk_wit);
    let mut receivers: Vec<(usize, Point)> = Vec::new();
    let mut m1s: Vec<Scalar> = Vec::new();
    let mut m2s: Vec<Scalar> = Vec::new();
    let mut j: usize = 0;
    while j < n
        invariant
            j <= n,
            parties.parties@.len() == n,
            receivers@.len() == m1s@.len(),
            receivers@.len() == m2s@.len(),
            1 <= my <= n,
            f == svals(f_coeffs@),
            fp == svals(fprime_coeffs@),
            receivers@.len() == (if j < my { j as int } else { j - 1 }),
            forall|q: int|
                0 <= q < receivers@.len() ==> {
                    &&& (#[trigger] receivers@[q]).0 == recv_slot(my, q)
                    &&& receivers@[q].1 == parties.parties@[recv_slot(my, q) - 1].enc_pk
                    &&& m1s@[q]@ == poly_eval(f, recv_slot(my, q))
                    &&& m2s@[q]@ == poly_eval(fp, recv_slot(my, q))
                },
        decreases n - j,
    {
        let idx = j + 1;
        if idx != my {
            receivers.push((idx, *parties.enc_pk(idx)));
            m1s.push(eval_poly_at(f_coeffs.as_slice(), x_of(idx)));
            m2s.push(eval_poly_at(fprime_coeffs.as_slice(), x_of(idx)));
        }
        j = j + 1;
    }
    let encrypted_shares = encrypt_batch(receivers.as_slice(), m1s.as_slice(), m2s.as_slice());
    proof {
        let alpha = encrypted_shares.u@;
        let w = evals_at_parties(fp, n as int);
        assert forall|i: int, k: int| 0 <= i < k < receivers@.len() implies receivers@[i].0 < receivers@[k].0 by {
            assert(receivers@[i].0 == recv_slot(my, i) && receivers@[k].0 == recv_slot(my, k));
        }
        assert forall|k: int| 1 <= k <= n && k != my implies #[trigger] encrypted_shares.shares@.contains_key(k as usize) && (
            encrypted_shares.shares@[k as usize].v1@,
            encrypted_shares.shares@[k as usize].v2@,
        ) == masked_share(parties.parties@[k - 1].enc_pk@, alpha, poly_eval(f, k), w[k - 1]) by {
            let q = if k < my { k - 1 } else { k - 2 };
            assert(receivers@[q].0 == k);
            crate::encryption::elgamal::lemma_batch_shares_lookup(receivers@, m1s@, m2s@, alpha, q);
            assert(crate::encryption::elgamal::share_values(encrypted_shares.shares@).contains_key(k as usize));
        }
        assert(batch_dealt(encrypted_shares, alpha, f, w, my, n as int, *parties));
    }
    let my_x = x_of(my);
    let local = Round1LocalState {
        my_s_ii: eval_poly_at(f_coeffs.as_slice(), my_x),
        my_sprime_ii: eval_poly_at(fprime_coeffs.as_slice(), my_x),
        omega,
        r,
        pk,
        pk_proof,
    };
    let broadcast = Round1Broadcast::new(my, pedvss, d_commitment, decom_proof, encrypted_shares, &state.sig_sk);
    proof {
        crate::arith::lemma_modl_bound(share@);
        assert(round1_dealt(broadcast, local, f, fp, share@, my, t as int));
        assert(exists|f: Seq<int>, fp: Seq<int>| round1_dealt(broadcast, local, f, fp, share@, my, t as int));
        assert(stmt.pedvss@ == broadcast.pedvss@);
        assert(S::proof_honest(decom_params, &stmt, &wit, &broadcast.decom_proof));
        assert(pk_stmt == (PkStatement { pk: local.pk, commitment: broadcast.pedvss@[0] }));
        let (aa, ab) = choose|aa: int, ab: int| pk_honest(pk_stmt, pk_wit, pk_proof, aa, ab);
        assert(pk_wit.a@ == share@);
        assert(pk_honest((PkStatement { pk: local.pk, commitment: broadcast.pedvss@[0] }), pk_wit, local.pk_proof, aa, ab));
        assert(pk_relation((PkStatement { pk: local.pk, commitment: broadcast.pedvss@[0] }), pk_wit));
        assert(round1_honest::<S>(*decom_params, *state, share@, t as int, broadcast, local));
        assert(broadcast.encrypted_shares == encrypted_shares);
        assert(round1_shares_encrypted(broadcast, local, share@, my, n as int, t as int, *parties));
    }
    Some((broadcast, local))
}

/// What round two establishes of the round-one broadcasts before it sums.
pub open spec fn round1_accepted<S: DecomProofScheme<Statement = DecomStatement, Witness = DecomWitness>>(
    params: DkgParams,
    decom_params: S::Params,
    my: usize,
    msgs: Seq<Round1Broadcast<S::Proof>>,
    parties: Parties,
) -> bool where S::Proof: WireCodec {
    &&& params.n > 0
    &&& 1 <= my <= params.n
    &&& forall|i: int| 0 <= i < msgs.len() ==> round1_ok::<S>(params, decom_params, parties, #[trigger] msgs[i])
}

/// The round-two broadcast and state a party derives from the accepted
/// round-one broadcasts: its summed share `s_i` and blinding `s'_i`, the
/// key `vk_i = g^{s_i} h^omega`, and an honest proof that `vk_i`, `C*_i`
/// and `D` share openings.
pub open spec fn round2_from<P>(
    res: (Round2Broadcast, Round2LocalState),
    state: PartyState,
    local: Round1LocalState,
    msgs: Seq<Round1Broadcast<P>>,
    n: int,
    t: int,
) -> bool {
    let (b, l) = res;
    let my = state.dealer_idx;
    let sk = state.enc_sk@;
    &&& all_pairs_open(sk, msgs, my)
    &&& l.s_i@ == pair_sum(sk, msgs, my, msgs.len() as int, local.my_s_ii@, 0)
    &&& l.omega == local.omega
    &&& cache_of(l.verified_round1, msgs, n, t)
    &&& b.dealer_idx == my
    &&& b.pk == local.pk
    &&& b.pk_proof == local.pk_proof
    &&& b.vk_i@ == com_dlog(l.s_i@, local.omega@)
    &&& exists|d: PedersenCommitment, sp: Scalar, a: Seq<int>|
        d@ == com_dlog(local.omega@, local.r@) && sp@ == pair_sum(sk, msgs, my, msgs.len() as int, local.my_sprime_ii@, 1)
            && comeq_honest(
            (ComEqStatement { c: l.verified_round1.c_stars@[my as int], vk: b.vk_i, d }),
            (ComEqWitness { s: l.s_i, s_prime: sp, omega: local.omega, r: local.r }),
            b.comeq_proof,
            a,
        )
    &&& b.signature.bytes@ == ed25519_signature(state.sig_sk.bytes@, round2_signed_bytes(b))
    &&& signed_by(state.sig_sk.bytes@, round2_signed_bytes(b), b.signature.bytes@)
}

/// Round two: checks every round-one broadcast, opens and sums the shares
/// sent to this party, caches what round two's checks need, and proves the
/// party's verification key consistent with the summed commitments.
pub fn dkg_round2_finalize<S: DecomProofScheme<Statement = DecomStatement, Witness = DecomWitness>>(
    params: &DkgParams,
    decom_params: &S::Params,
    state: &PartyState,
    local: &Round1LocalState,
    round1_msgs: &[Round1Broadcast<S::Proof>],
    parties: &Parties,
) -> (r: Result<(Round2Broadcast, Round2LocalState), TwoRoundDkgError>) where S::Proof: WireCodec
    requires
        parties.parties@.len() >= params.n,
        params.n < usize::MAX,
        params.t < usize::MAX,
    ensures
        !(params.n > 0 && 1 <= state.dealer_idx <= params.n) ==> r matches Err(TwoRoundDkgError::InvalidParameters),
        r matches Ok(res) ==> round1_accepted::<S>(*params, *decom_params, state.dealer_idx, round1_msgs@, *parties)
            && round2_from(res, *state, *local, round1_msgs@, params.n as int, params.t as int),
        r matches Err(e) ==> round1_check_blames::<S>(e, *params, *decom_params, state.dealer_idx, round1_msgs@, *parties)
            || round1_decryption_blames(e, state.enc_sk@, state.enc_pk, state.dealer_idx, round1_msgs@),
        r matches Err(e) ==> round1_error_in_order::<S>(e, *params, *decom_params, state.dealer_idx, round1_msgs@, *parties, false),
{
    match validate_round1_msgs::<S>(params, state.dealer_idx, round1_msgs, parties, decom_params) {
        Ok(()) => {},
        Err(e) => {
            return Err(e);
        },
    }
    let (sum_s_i, sum_sprime_i) = match decrypt_and_accumulate(state, round1_msgs, (local.my_s_ii, local.my_sprime_ii)) {
        Ok(x) => x,
        Err(e) => {
            return Err(e);
        },
    };
    let verified_round1 = build_verified_round1_cache(params, round1_msgs);
    let res = build_round2_output(state, local, sum_s_i, sum_sprime_i, verified_round1);
    proof {
        assert(round2_from(res, *state, *local, round1_msgs@, params.n as int, params.t as int));
    }
    Ok(res)
}

/// Builds the signed complaint from a bad-opening error; `None` for any
/// other error, which is not a share-opening dispute.
/// `rep` is the complaint that party `state` makes of a bad-opening error: it
/// names the party and the accused, carries the opened pair, the shared
/// value and its proof, and is signed with the party's key.
pub open spec fn report_built_from(rep: AbortReport, state: PartyState, err: TwoRoundDkgError) -> bool {
    err matches TwoRoundDkgError::InvalidDecryptionOpening { dealer_idx, s_ji, sprime_ji, pi_i, .. } && {
        &&& rep.reporter_idx == state.dealer_idx
        &&& rep.accused_idx == dealer_idx
        &&& rep.s_ji == s_ji
        &&& rep.r_ji == sprime_ji
        &&& rep.shared == pi_i.0
        &&& rep.proof == pi_i.1
        &&& rep.signature.bytes@ == ed25519_signature(state.sig_sk.bytes@, crate::abort::report_signed_bytes(rep))
        &&& signed_by(state.sig_sk.bytes@, crate::abort::report_signed_bytes(rep), rep.signature.bytes@)
    }
}

pub fn build_abort_report(state: &PartyState, err: &TwoRoundDkgError) -> (r: Option<AbortReport>)
    ensures
        r is Some <==> err is InvalidDecryptionOpening,
        r matches Some(rep) ==> report_built_from(rep, *state, *err),
{
    match err {
        TwoRoundDkgError::InvalidDecryptionOpening { dealer_idx, s_ji, sprime_ji, pi_i, .. } => {
            let (shared, proof) = &**pi_i;
            Some(AbortReport::new(state.dealer_idx, *dealer_idx, *s_ji, *sprime_ji, *shared, *proof, &state.sig_sk))
        },
        _ => None,
    }
}

/// The accused's commitment polynomial evaluated at the reporter's point.
pub open spec fn reporter_commitment<P>(accused: Round1Broadcast<P>, reporter: usize) -> int {
    modl(pow_sum(com_dlogs(accused.pedvss@), reporter as int, accused.pedvss@.len() as int))
}

/// The verdict on a complaint against an accused round-one broadcast:
/// invalid when it names another dealer, no reporter, or the dealer itself;
/// otherwise the verdict on the reporter's share and the commitment
/// polynomial at the reporter's point.
pub open spec fn abort_verdict_of<P>(parties: Parties, accused: Round1Broadcast<P>, report: AbortReport) -> AbortVerdict {
    if accused.dealer_idx != report.accused_idx || report.reporter_idx == 0 || report.reporter_idx
        == accused.dealer_idx {
        AbortVerdict::InvalidReport
    } else {
        crate::abort::report_verdict(
            parties,
            accused.encrypted_shares.u,
            reporter_share_of(accused.encrypted_shares, report.reporter_idx),
            report,
            reporter_commitment(accused, report.reporter_idx),
        )
    }
}

/// Checks a complaint against the accused dealer's round-one broadcast. The
/// opening check evaluates the commitment polynomial at the reporter's
/// point, so it grows with `t`.
pub fn verify_abort_report<P>(parties: &Parties, accused: &Round1Broadcast<P>, report: &AbortReport) -> (r: AbortVerdict)
    requires
        report.reporter_idx <= parties.parties@.len() || accused.dealer_idx != report.accused_idx
            || report.reporter_idx == 0 || report.reporter_idx == accused.dealer_idx,
    ensures
        r == abort_verdict_of(*parties, *accused, *report),
{
    if accused.dealer_idx != report.accused_idx || report.reporter_idx == 0
        || report.reporter_idx == accused.dealer_idx {
        return AbortVerdict::InvalidReport;
    }
    let reporter_share = crate::encryption::elgamal::share_for(&accused.encrypted_shares, report.reporter_idx);
    let commitment = evaluate_pedvss_at(accused.pedvss.as_slice(), report.reporter_idx as u64);
    verify_report_core(parties, &accused.encrypted_shares.u, reporter_share, report, &commitment)
}

fn validate_round1_msgs_parallel<S: DecomProofScheme<Statement = DecomStatement, Witness = DecomWitness>>(
    params: &DkgParams,
    my_idx: usize,
    round1_msgs: &[Round1Broadcast<S::Proof>],
    parties: &Parties,
    decom_params: &S::Params,
) -> (r: Result<(), TwoRoundDkgError>) where S::Proof: WireCodec
    requires
        parties.parties@.len() >= params.n,
    ensures
        r is Ok ==> {
            &&& params.n > 0
            &&& 1 <= my_idx <= params.n
            &&& forall|i: int| 0 <= i < round1_msgs@.len() ==> round1_ok::<S>(*params, *decom_params, *parties, #[trigger] round1_msgs@[i])
        },
        !(params.n > 0 && 1 <= my_idx <= params.n) ==> r matches Err(TwoRoundDkgError::InvalidParameters),
        r matches Err(e) ==> round1_check_blames::<S>(e, *params, *decom_params, my_idx, round1_msgs@, *parties),
        r matches Err(e) ==> round1_error_in_order::<S>(e, *params, *decom_params, my_idx, round1_msgs@, *parties, true),
{
    if params.n == 0 || my_idx == 0 || my_idx > params.n {
        return Err(TwoRoundDkgError::InvalidParameters);
    }
    let mut i: usize = 0;
    while i < round1_msgs.len()
        invariant
            i <= round1_msgs@.len(),
            params.n > 0,
            1 <= my_idx <= params.n,
            forall|q: int| 0 <= q < i ==> 1 <= (#[trigger] round1_msgs@[q]).dealer_idx <= params.n && round1_msgs@[q].pedvss@.len() == params.t + 1,
        decreases round1_msgs@.len() - i,
    {
        let msg = &round1_msgs[i];
        if msg.dealer_idx == 0 || msg.dealer_idx > params.n {
            return Err(TwoRoundDkgError::InvalidParameters);
        }
        let plen = msg.pedvss.len();
        if params.t == usize::MAX || plen != params.t + 1 {
            assert(round1_msgs@[i as int].pedvss@.len() != params.t + 1);
            return Err(TwoRoundDkgError::InvalidPedVssLength { dealer_idx: msg.dealer_idx });
        }
        i = i + 1;
    }
    let mut i: usize = 0;
    while i < round1_msgs.len()
        invariant
            i <= round1_msgs@.len(),
            params.n > 0,
            1 <= my_idx <= params.n,
            parties.parties@.len() >= params.n,
            forall|q: int| 0 <= q < round1_msgs@.len() ==> 1 <= (#[trigger] round1_msgs@[q]).dealer_idx <= params.n && round1_msgs@[q].pedvss@.len() == params.t + 1,
            forall|q: int| 0 <= q < i ==> ed25519_verify_strict(
                parties.parties@[round1_msgs@[q].dealer_idx - 1].sig_pk.bytes@,
                round1_signed_bytes(#[trigger] round1_msgs@[q]),
                round1_msgs@[q].signature.bytes@,
            ),
        decreases round1_msgs@.len() - i,
    {
        let msg = &round1_msgs[i];
        if !msg.verify(parties.sig_pk(msg.dealer_idx)) {
            return Err(TwoRoundDkgError::InvalidSignature { dealer_idx: msg.dealer_idx });
        }
        i = i + 1;
    }
    let mut i: usize = 0;
    while i < round1_msgs.len()
        invariant
            i <= round1_msgs@.len(),
            params.n > 0,
            1 <= my_idx <= params.n,
            parties.parties@.len() >= params.n,
            forall|q: int| 0 <= q < round1_msgs@.len() ==> 1 <= (#[trigger] round1_msgs@[q]).dealer_idx <= params.n && round1_msgs@[q].pedvss@.len() == params.t + 1,
            forall|q: int| 0 <= q < round1_msgs@.len() ==> ed25519_verify_strict(
                parties.parties@[round1_msgs@[q].dealer_idx - 1].sig_pk.bytes@,
                round1_signed_bytes(#[trigger] round1_msgs@[q]),
                round1_msgs@[q].signature.bytes@,
            ),
            forall|q: int| 0 <= q < i ==> round1_ok::<S>(*params, *decom_params, *parties, #[trigger] round1_msgs@[q]),
        decreases round1_msgs@.len() - i,
    {
        let msg = &round1_msgs[i];
        let stmt = DecomStatement { pedvss: copy_commitments(&msg.pedvss), d: msg.d_commitment };
        if !S::verify(decom_params, &stmt, &msg.decom_proof) {
            return Err(TwoRoundDkgError::InvalidDecomProof { dealer_idx: msg.dealer_idx });
        }
        proof {
            assert(round1_signed_bytes(round1_msgs@[i as int]) == round1_signed_bytes(*msg));
        }
        i = i + 1;
    }
    Ok(())
}

/// [`dkg_round2_finalize`] with the structural checks of all round-one
/// broadcasts made before any signature check, and all signature checks
/// before any proof check. Same result when it succeeds.
pub fn dkg_round2_finalize_parallel<S: DecomProofScheme<Statement = DecomStatement, Witness = DecomWitness>>(
    params: &DkgParams,
    decom_params: &S::Params,
    state: &PartyState,
    local: &Round1LocalState,
    round1_msgs: &[Round1Broadcast<S::Proof>],
    parties: &Parties,
) -> (r: Result<(Round2Broadcast, Round2LocalState), TwoRoundDkgError>) where S::Proof: WireCodec
    requires
        parties.parties@.len() >= params.n,
        params.n < usize::MAX,
        params.t < usize::MAX,
    ensures
        !(params.n > 0 && 1 <= state.dealer_idx <= params.n) ==> r matches Err(TwoRoundDkgError::InvalidParameters),
        r matches Ok(res) ==> round1_accepted::<S>(*params, *decom_params, state.dealer_idx, round1_msgs@, *parties)
            && round2_from(res, *state, *local, round1_msgs@, params.n as int, params.t as int),
        r matches Err(e) ==> round1_check_blames::<S>(e, *params, *decom_params, state.dealer_idx, round1_msgs@, *parties)
            || round1_decryption_blames(e, state.enc_sk@, state.enc_pk, state.dealer_idx, round1_msgs@),
        r matches Err(e) ==> round1_error_in_order::<S>(e, *params, *decom_params, state.dealer_idx, round1_msgs@, *parties, true),
{
    match validate_round1_msgs_parallel::<S>(params, state.dealer_idx, round1_msgs, parties, decom_params) {
        Ok(()) => {},
        Err(e) => {
            return Err(e);
        },
    }
    let (sum_s_i, sum_sprime_i) = match decrypt_and_accumulate(state, round1_msgs, (local.my_s_ii, local.my_sprime_ii)) {
        Ok(x) => x,
        Err(e) => {
            return Err(e);
        },
    };
    let verified_round1 = build_verified_round1_cache(params, round1_msgs);
    let res = build_round2_output(state, local, sum_s_i, sum_sprime_i, verified_round1);
    proof {
        assert(round2_from(res, *state, *local, round1_msgs@, params.n as int, params.t as int));
    }
    Ok(res)
}

/// [`dkg_output`] under its other name; the checks it makes are the same
/// and so is the result.
pub fn dkg_output_parallel<S: DecomProofScheme<Statement = DecomStatement, Witness = DecomWitness>>(
    params: &DkgParams,
    decom_params: &S::Params,
    state: &PartyState,
    local2: &Round2LocalState,
    round1_msgs: &[Round1Broadcast<S::Proof>],
    round2_msgs: &[Round2Broadcast],
    parties: &Parties,
) -> (r: Result<DkgOutput, TwoRoundDkgError>)
    requires
        output_params_ok(*params, state.dealer_idx, *local2) ==> parties.parties@.len() >= params.n
            && forall|i: int| 0 <= i < round2_msgs@.len() ==> 1 <= (#[trigger] round2_msgs@[i]).dealer_idx <= params.n,
    ensures
        r is Ok <==> {
            &&& output_params_ok(*params, state.dealer_idx, *local2)
            &&& forall|i: int| 0 <= i < round2_msgs@.len() ==> round2_signature_ok(*parties, #[trigger] round2_msgs@[i])
            &&& round2_all_ok(params.n as int, local2.verified_round1, round2_msgs@)
        },
        !output_params_ok(*params, state.dealer_idx, *local2) ==> r matches Err(TwoRoundDkgError::InvalidParameters),
        r matches Ok(out) ==> round2_output(out, state.dealer_idx, params.n as int, *local2, round2_msgs@),
        r matches Err(e) ==> round2_output_blames(e, *params, state.dealer_idx, *local2, round2_msgs@, *parties),
        output_result(r, *params, state.dealer_idx, *local2, round2_msgs@, *parties),
{
    dkg_output::<S>(params, decom_params, state, local2, round1_msgs, round2_msgs, parties)
}

} // verus!
